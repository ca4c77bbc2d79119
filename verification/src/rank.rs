//! The ranking pipeline: score every candidate, drop the ones that do not
//! match, and order the rest by score, ties in corpus order.

use crate::parallel::{par_map, sort_by_rank};
use crate::preprocess::Candidate;
use crate::scorer::{greedy_match_score, is_subsequence, lemma_no_match_scores_zero, match_score};
use std::cmp::Ordering;
use vstd::prelude::*;
use vstd::seq_lib::to_multiset_contains;

verus! {

/// A candidate that matched, as the ranking sorts it: its score and its
/// position in the corpus.
#[derive(Clone, Copy, Debug)]
pub struct ScoredMatch {
    pub score: u128,
    pub index: usize,
}

/// `first` is shown before `second`: the higher score wins, the earlier
/// corpus position breaks a tie.
pub open spec fn ranks_before(first: ScoredMatch, second: ScoredMatch) -> bool {
    first.score > second.score || (first.score == second.score && first.index < second.index)
}

/// Compares two matches for the ranking: `Less` puts `first` in front.
pub fn rank_order(first: &ScoredMatch, second: &ScoredMatch) -> (order: Ordering)
    ensures
        order == Ordering::Less <==> ranks_before(*first, *second),
        order == Ordering::Greater <==> ranks_before(*second, *first),
        order == Ordering::Equal <==> *first == *second,
{
    if first.score > second.score {
        Ordering::Less
    } else if first.score < second.score {
        Ordering::Greater
    } else if first.index < second.index {
        Ordering::Less
    } else if first.index > second.index {
        Ordering::Greater
    } else {
        Ordering::Equal
    }
}

/// The match keys of a corpus, in corpus order.
pub open spec fn match_keys(corpus: Seq<Candidate>) -> Seq<Seq<u8>> {
    Seq::new(corpus.len(), |i: int| corpus[i]@.match_key)
}

/// Candidate `i` is shown before candidate `j`: it scores higher, or the same
/// and stands earlier in the corpus.
pub open spec fn outranks(q: Seq<u8>, keys: Seq<Seq<u8>>, i: int, j: int) -> bool {
    match_score(q, keys[i]) > match_score(q, keys[j]) || (match_score(q, keys[i]) == match_score(
        q,
        keys[j],
    ) && i < j)
}

/// `order` lists exactly the candidates that match `q`, each one before all
/// those it outranks.
pub open spec fn is_ranking(q: Seq<u8>, keys: Seq<Seq<u8>>, order: Seq<int>) -> bool {
    &&& forall|k: int|
        0 <= k < order.len() ==> 0 <= #[trigger] order[k] < keys.len() && is_subsequence(
            q,
            keys[order[k]],
        )
    &&& forall|i: int|
        0 <= i < keys.len() && is_subsequence(q, #[trigger] keys[i]) ==> order.contains(i)
    &&& forall|a: int, b: int|
        0 <= a < b < order.len() ==> outranks(q, keys, #[trigger] order[a], #[trigger] order[b])
}

/// The corpus positions of the candidates that match `q`, best first. There is
/// exactly one such order: see `lemma_ranking_exists` and `lemma_ranking_unique`.
pub open spec fn ranked_indices(q: Seq<u8>, keys: Seq<Seq<u8>>) -> Seq<int> {
    choose|order: Seq<int>| is_ranking(q, keys, order)
}

/// The outcome of a ranking pass over `corpus` for the normalized query `q`:
/// the display strings of the matching candidates, best first.
pub open spec fn ranked_displays(q: Seq<u8>, corpus: Seq<Candidate>) -> Seq<Seq<char>> {
    Seq::new(
        ranked_indices(q, match_keys(corpus)).len(),
        |k: int| corpus[ranked_indices(q, match_keys(corpus))[k]]@.display,
    )
}

/// The display strings of a whole corpus, in corpus order.
pub open spec fn displays(corpus: Seq<Candidate>) -> Seq<Seq<char>> {
    Seq::new(corpus.len(), |i: int| corpus[i]@.display)
}

/// Each entry comes before every later one in the order of `outranks`.
spec fn sorted_by_rank(q: Seq<u8>, keys: Seq<Seq<u8>>, order: Seq<int>) -> bool {
    forall|a: int, b: int|
        0 <= a < b < order.len() ==> outranks(q, keys, #[trigger] order[a], #[trigger] order[b])
}

proof fn lemma_sorted_with_same_entries_equal(
    q: Seq<u8>,
    keys: Seq<Seq<u8>>,
    left: Seq<int>,
    right: Seq<int>,
)
    requires
        sorted_by_rank(q, keys, left),
        sorted_by_rank(q, keys, right),
        forall|x: int| left.contains(x) <==> right.contains(x),
    ensures
        left == right,
    decreases left.len(),
{
    if left.len() == 0 {
        if right.len() > 0 {
            assert(right.contains(right[0]));
        }
        assert(left =~= right);
    } else {
        assert(left.contains(left[0]));
        let p = choose|p: int| 0 <= p < right.len() && right[p] == left[0];
        assert(right.contains(right[0]));
        let r = choose|r: int| 0 <= r < left.len() && left[r] == right[0];
        if p > 0 {
            assert(outranks(q, keys, right[0], right[p]));
            if r > 0 {
                assert(outranks(q, keys, left[0], left[r]));
            }
        }
        assert(left[0] == right[0]);
        let left_rest = left.drop_first();
        let right_rest = right.drop_first();
        assert forall|x: int| left_rest.contains(x) <==> right_rest.contains(x) by {
            if left_rest.contains(x) {
                let i = choose|i: int| 0 <= i < left_rest.len() && left_rest[i] == x;
                assert(left[i + 1] == x);
                assert(outranks(q, keys, left[0], left[i + 1]));
                assert(left.contains(x));
                let j = choose|j: int| 0 <= j < right.len() && right[j] == x;
                assert(right_rest[j - 1] == x);
            }
            if right_rest.contains(x) {
                let i = choose|i: int| 0 <= i < right_rest.len() && right_rest[i] == x;
                assert(right[i + 1] == x);
                assert(outranks(q, keys, right[0], right[i + 1]));
                assert(right.contains(x));
                let j = choose|j: int| 0 <= j < left.len() && left[j] == x;
                assert(left_rest[j - 1] == x);
            }
        }
        assert forall|a: int, b: int| 0 <= a < b < left_rest.len() implies outranks(
            q,
            keys,
            #[trigger] left_rest[a],
            #[trigger] left_rest[b],
        ) by {
            assert(outranks(q, keys, left[a + 1], left[b + 1]));
        }
        assert forall|a: int, b: int| 0 <= a < b < right_rest.len() implies outranks(
            q,
            keys,
            #[trigger] right_rest[a],
            #[trigger] right_rest[b],
        ) by {
            assert(outranks(q, keys, right[a + 1], right[b + 1]));
        }
        lemma_sorted_with_same_entries_equal(q, keys, left_rest, right_rest);
        assert(left =~= seq![left[0]] + left_rest);
        assert(right =~= seq![right[0]] + right_rest);
    }
}

/// A query and a corpus have at most one ranking: the result of a ranking
/// pass does not depend on how the work was scheduled.
pub proof fn lemma_ranking_unique(q: Seq<u8>, keys: Seq<Seq<u8>>, left: Seq<int>, right: Seq<int>)
    requires
        is_ranking(q, keys, left),
        is_ranking(q, keys, right),
    ensures
        left == right,
{
    assert forall|x: int| left.contains(x) <==> right.contains(x) by {
        if left.contains(x) {
            let i = choose|i: int| 0 <= i < left.len() && left[i] == x;
            assert(is_subsequence(q, keys[left[i]]));
        }
        if right.contains(x) {
            let i = choose|i: int| 0 <= i < right.len() && right[i] == x;
            assert(is_subsequence(q, keys[right[i]]));
        }
    }
    lemma_sorted_with_same_entries_equal(q, keys, left, right);
}

/// Where a candidate of score `score` that stands after all of `order` in the
/// corpus goes: behind every entry that scores at least as much.
proof fn find_slot(q: Seq<u8>, keys: Seq<Seq<u8>>, order: Seq<int>, score: int, from: int) -> (slot:
    int)
    requires
        0 <= from <= order.len(),
        sorted_by_rank(q, keys, order),
        forall|k: int| 0 <= k < from ==> match_score(q, keys[#[trigger] order[k]]) >= score,
    ensures
        from <= slot <= order.len(),
        forall|k: int| 0 <= k < slot ==> match_score(q, keys[#[trigger] order[k]]) >= score,
        forall|k: int| slot <= k < order.len() ==> match_score(q, keys[#[trigger] order[k]]) < score,
    decreases order.len() - from,
{
    if from == order.len() {
        from
    } else if match_score(q, keys[order[from]]) >= score {
        find_slot(q, keys, order, score, from + 1)
    } else {
        assert forall|k: int| from <= k < order.len() implies match_score(
            q,
            keys[#[trigger] order[k]],
        ) < score by {
            if from < k {
                assert(outranks(q, keys, order[from], order[k]));
            }
        }
        from
    }
}

/// Every query and corpus have a ranking, and `ranked_indices` is it.
pub proof fn lemma_ranking_exists(q: Seq<u8>, keys: Seq<Seq<u8>>)
    ensures
        is_ranking(q, keys, ranked_indices(q, keys)),
    decreases keys.len(),
{
    if keys.len() == 0 {
        assert(is_ranking(q, keys, Seq::<int>::empty()));
    } else {
        let last = keys.len() - 1;
        let front = keys.drop_last();
        lemma_ranking_exists(q, front);
        let shorter = ranked_indices(q, front);
        assert forall|k: int| 0 <= k < shorter.len() implies keys[#[trigger] shorter[k]]
            == front[shorter[k]] by {}
        assert forall|a: int, b: int| 0 <= a < b < shorter.len() implies outranks(
            q,
            keys,
            #[trigger] shorter[a],
            #[trigger] shorter[b],
        ) by {
            assert(outranks(q, front, shorter[a], shorter[b]));
        }
        if !is_subsequence(q, keys[last]) {
            assert forall|i: int| 0 <= i < keys.len() && is_subsequence(
                q,
                #[trigger] keys[i],
            ) implies shorter.contains(i) by {
                assert(front[i] == keys[i]);
            }
            assert(is_ranking(q, keys, shorter));
        } else {
            let score = match_score(q, keys[last]);
            let slot = find_slot(q, keys, shorter, score, 0);
            let longer = shorter.insert(slot, last);
            assert forall|k: int| 0 <= k < longer.len() implies 0 <= #[trigger] longer[k]
                < keys.len() && is_subsequence(q, keys[longer[k]]) by {
                if k < slot {
                    assert(longer[k] == shorter[k]);
                } else if k > slot {
                    assert(longer[k] == shorter[k - 1]);
                }
            }
            assert forall|i: int| 0 <= i < keys.len() && is_subsequence(
                q,
                #[trigger] keys[i],
            ) implies longer.contains(i) by {
                if i == last {
                    assert(longer[slot] == last);
                } else {
                    assert(front[i] == keys[i]);
                    let k = choose|k: int| 0 <= k < shorter.len() && shorter[k] == i;
                    if k < slot {
                        assert(longer[k] == i);
                    } else {
                        assert(longer[k + 1] == i);
                    }
                }
            }
            assert forall|a: int, b: int| 0 <= a < b < longer.len() implies outranks(
                q,
                keys,
                #[trigger] longer[a],
                #[trigger] longer[b],
            ) by {
                let from_a = if a < slot {
                    a
                } else {
                    a - 1
                };
                let from_b = if b < slot {
                    b
                } else {
                    b - 1
                };
                if a != slot {
                    assert(longer[a] == shorter[from_a]);
                }
                if b != slot {
                    assert(longer[b] == shorter[from_b]);
                }
                if a != slot && b != slot {
                    assert(outranks(q, keys, shorter[from_a], shorter[from_b]));
                }
            }
            assert(is_ranking(q, keys, longer));
        }
    }
}

/// Ranking stability: of two matches with the same score, the one that
/// stands earlier in the corpus is shown earlier.
pub proof fn lemma_ties_keep_corpus_order(q: Seq<u8>, keys: Seq<Seq<u8>>, a: int, b: int)
    requires
        0 <= a < ranked_indices(q, keys).len(),
        0 <= b < ranked_indices(q, keys).len(),
        match_score(q, keys[ranked_indices(q, keys)[a]]) == match_score(
            q,
            keys[ranked_indices(q, keys)[b]],
        ),
    ensures
        a < b <==> ranked_indices(q, keys)[a] < ranked_indices(q, keys)[b],
{
    lemma_ranking_exists(q, keys);
    let order = ranked_indices(q, keys);
    if a < b {
        assert(outranks(q, keys, order[a], order[b]));
    } else if b < a {
        assert(outranks(q, keys, order[b], order[a]));
    }
}

/// A higher score is shown first: scores never increase along the ranking.
pub proof fn lemma_ranking_descends(q: Seq<u8>, keys: Seq<Seq<u8>>, a: int, b: int)
    requires
        0 <= a <= b < ranked_indices(q, keys).len(),
    ensures
        match_score(q, keys[ranked_indices(q, keys)[a]]) >= match_score(
            q,
            keys[ranked_indices(q, keys)[b]],
        ),
{
    lemma_ranking_exists(q, keys);
    let order = ranked_indices(q, keys);
    if a < b {
        assert(outranks(q, keys, order[a], order[b]));
    }
}

/// Two candidates that tie ahead of a third that scores lower, all three
/// matching, come out exactly in corpus order.
pub proof fn lemma_tie_then_lower_keeps_order(q: Seq<u8>, keys: Seq<Seq<u8>>)
    requires
        keys.len() == 3,
        is_subsequence(q, keys[0]),
        is_subsequence(q, keys[1]),
        is_subsequence(q, keys[2]),
        match_score(q, keys[0]) == match_score(q, keys[1]),
        match_score(q, keys[2]) < match_score(q, keys[1]),
    ensures
        ranked_indices(q, keys) == seq![0int, 1int, 2int],
{
    let order = seq![0int, 1int, 2int];
    assert forall|i: int| 0 <= i < keys.len() && is_subsequence(q, #[trigger] keys[i]) implies order.contains(i) by {
        assert(order[i] == i);
    }
    assert(is_ranking(q, keys, order));
    lemma_ranking_exists(q, keys);
    lemma_ranking_unique(q, keys, order, ranked_indices(q, keys));
}

/// Empty query, seen from the corpus: the outcome of the pass is every display
/// string, in corpus order.
pub proof fn lemma_empty_query_shows_corpus(corpus: Seq<Candidate>)
    ensures
        ranked_displays(Seq::<u8>::empty(), corpus) == displays(corpus),
{
    lemma_empty_query_keeps_corpus(match_keys(corpus));
    assert(ranked_displays(Seq::<u8>::empty(), corpus) =~= displays(corpus));
}

/// Empty query: every candidate matches with score zero, so the ranking is the
/// whole corpus in corpus order.
pub proof fn lemma_empty_query_keeps_corpus(keys: Seq<Seq<u8>>)
    ensures
        ranked_indices(Seq::<u8>::empty(), keys) == Seq::new(keys.len(), |i: int| i),
{
    let q = Seq::<u8>::empty();
    let order = Seq::new(keys.len(), |i: int| i);
    assert forall|k: int| 0 <= k < order.len() implies 0 <= #[trigger] order[k] < keys.len()
        && is_subsequence(q, keys[order[k]]) by {
        lemma_no_match_scores_zero(q, keys[k]);
    }
    assert forall|i: int| 0 <= i < keys.len() && is_subsequence(q, #[trigger] keys[i]) implies order.contains(i) by {
        assert(order[i] == i);
    }
    assert forall|a: int, b: int| 0 <= a < b < order.len() implies outranks(
        q,
        keys,
        #[trigger] order[a],
        #[trigger] order[b],
    ) by {
        lemma_no_match_scores_zero(q, keys[a]);
        lemma_no_match_scores_zero(q, keys[b]);
    }
    assert(is_ranking(q, keys, order));
    lemma_ranking_exists(q, keys);
    lemma_ranking_unique(q, keys, order, ranked_indices(q, keys));
}

/// The entries are the matches among the first `upto` candidates, each with
/// its score, in corpus order.
spec fn holds_matches_upto(q: Seq<u8>, keys: Seq<Seq<u8>>, entries: Seq<ScoredMatch>, upto: int) -> bool {
    &&& forall|k: int|
        0 <= k < entries.len() ==> {
            let e = #[trigger] entries[k];
            &&& e.index < upto
            &&& is_subsequence(q, keys[e.index as int])
            &&& e.score == match_score(q, keys[e.index as int])
        }
    &&& forall|i: int|
        0 <= i < upto && is_subsequence(q, #[trigger] keys[i]) ==> exists|k: int|
            0 <= k < entries.len() && (#[trigger] entries[k]).index == i
    &&& forall|a: int, b: int|
        0 <= a < b < entries.len() ==> (#[trigger] entries[a]).index < (#[trigger] entries[b]).index
}

/// Sorted matches, read as corpus positions, are the ranking.
proof fn lemma_sorted_matches_are_ranking(
    q: Seq<u8>,
    keys: Seq<Seq<u8>>,
    found: Seq<ScoredMatch>,
    sorted: Seq<ScoredMatch>,
)
    requires
        holds_matches_upto(q, keys, found, keys.len() as int),
        sorted.to_multiset() == found.to_multiset(),
        forall|a: int, b: int|
            0 <= a < b < sorted.len() ==> !ranks_before(#[trigger] sorted[b], #[trigger] sorted[a]),
    ensures
        sorted.len() == ranked_indices(q, keys).len(),
        forall|k: int|
            0 <= k < sorted.len() ==> (#[trigger] sorted[k]).index == ranked_indices(q, keys)[k]
                && sorted[k].index < keys.len(),
{
    let order = Seq::new(sorted.len(), |k: int| sorted[k].index as int);
    assert forall|a: int, b: int| 0 <= a < b < found.len() implies found[a] != found[b] by {
        assert(found[a].index < found[b].index);
    }
    assert(found.no_duplicates());
    found.lemma_multiset_has_no_duplicates();
    sorted.lemma_multiset_has_no_duplicates_conv();
    assert forall|k: int| 0 <= k < order.len() implies 0 <= #[trigger] order[k] < keys.len()
        && is_subsequence(q, keys[order[k]]) && sorted[k].score == match_score(
        q,
        keys[order[k]],
    ) by {
        assert(sorted.contains(sorted[k]));
        to_multiset_contains(sorted, sorted[k]);
        to_multiset_contains(found, sorted[k]);
        let j = choose|j: int| 0 <= j < found.len() && found[j] == sorted[k];
        assert(found[j].index < keys.len());
    }
    assert forall|i: int| 0 <= i < keys.len() && is_subsequence(q, #[trigger] keys[i]) implies order.contains(i) by {
        let j = choose|j: int| 0 <= j < found.len() && (#[trigger] found[j]).index == i;
        assert(found.contains(found[j]));
        to_multiset_contains(found, found[j]);
        to_multiset_contains(sorted, found[j]);
        let k = choose|k: int| 0 <= k < sorted.len() && sorted[k] == found[j];
        assert(order[k] == i);
    }
    assert forall|a: int, b: int| 0 <= a < b < order.len() implies outranks(
        q,
        keys,
        #[trigger] order[a],
        #[trigger] order[b],
    ) by {
        assert(!ranks_before(sorted[b], sorted[a]));
        assert(sorted[a] != sorted[b]);
        assert(sorted[a].score == match_score(q, keys[order[a]]));
        assert(sorted[b].score == match_score(q, keys[order[b]]));
    }
    assert(is_ranking(q, keys, order));
    lemma_ranking_exists(q, keys);
    lemma_ranking_unique(q, keys, order, ranked_indices(q, keys));
}

/// Ranks the corpus for one query: the display strings of the candidates whose
/// key holds `target` as a subsequence, highest score first, equal scores in
/// corpus order. The corpus is only read.
pub fn greedy_match_filter(target: Vec<u8>, pre_processed: &[Candidate]) -> (ranked: Vec<String>)
    ensures
        ranked.deep_view() == ranked_displays(target@, pre_processed@),
{
    let ghost q = target@;
    let ghost keys = match_keys(pre_processed@);
    let score = |candidate: &Candidate| -> (res: (bool, u128))
        ensures
            res.0 <==> is_subsequence(target@, candidate@.match_key),
            res.1 == match_score(target@, candidate@.match_key),
        { greedy_match_score(target.as_slice(), candidate.match_key()) };
    let scores = par_map(pre_processed, score);

    let mut matched: Vec<ScoredMatch> = Vec::new();
    let mut i: usize = 0;
    while i < scores.len()
        invariant
            i <= scores@.len(),
            scores@.len() == pre_processed@.len(),
            q == target@,
            keys == match_keys(pre_processed@),
            forall|j: int|
                0 <= j < scores@.len() ==> ((#[trigger] scores@[j]).0 <==> is_subsequence(
                    q,
                    keys[j],
                )) && scores@[j].1 == match_score(q, keys[j]),
            holds_matches_upto(q, keys, matched@, i as int),
        decreases scores@.len() - i,
    {
        let ghost before = matched@;
        if scores[i].0 {
            matched.push(ScoredMatch { score: scores[i].1, index: i });
        }
        proof {
            assert forall|j: int| 0 <= j < i + 1 && is_subsequence(
                q,
                #[trigger] keys[j],
            ) implies exists|k: int|
                0 <= k < matched@.len() && (#[trigger] matched@[k]).index == j by {
                if j < i {
                    let k = choose|k: int| 0 <= k < before.len() && (#[trigger] before[k]).index == j;
                    assert(matched@[k].index == j);
                } else {
                    assert(matched@[matched@.len() - 1].index == j);
                }
            }
        }
        i += 1;
    }

    let ghost found = matched@;
    sort_by_rank(&mut matched);
    proof {
        lemma_sorted_matches_are_ranking(q, keys, found, matched@);
    }

    let mut ranked: Vec<String> = Vec::new();
    let mut k: usize = 0;
    while k < matched.len()
        invariant
            k <= matched@.len(),
            ranked@.len() == k,
            keys == match_keys(pre_processed@),
            matched@.len() == ranked_indices(q, keys).len(),
            forall|j: int|
                0 <= j < matched@.len() ==> (#[trigger] matched@[j]).index == ranked_indices(
                    q,
                    keys,
                )[j] && matched@[j].index < pre_processed@.len(),
            forall|j: int|
                0 <= j < k ==> (#[trigger] ranked@[j])@ == pre_processed@[ranked_indices(
                    q,
                    keys,
                )[j]]@.display,
        decreases matched@.len() - k,
    {
        let entry = matched[k];
        ranked.push(pre_processed[entry.index].display().to_owned());
        k += 1;
    }
    assert(ranked.deep_view() =~= ranked_displays(q, pre_processed@));
    ranked
}

} // verus!
