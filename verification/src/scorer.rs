//! The match scorer: one greedy left-to-right scan of a candidate key that
//! pairs every query byte with the first candidate byte it can still use.

use vstd::prelude::*;

verus! {

/// Points awarded for every query byte that the scan pairs with a candidate byte.
pub const BASE_POINTS: u128 = 10;

/// Extra points for a paired byte that sits directly after the previous paired byte.
pub const CONTIGUITY_BONUS: u128 = 5;

/// Number of leading candidate positions that still earn a position bonus.
pub const POSITION_WINDOW: usize = 20;

/// `at` lists, for each byte of `q` in order, a position of `c` holding that
/// byte, and the positions strictly increase.
pub open spec fn is_embedding(q: Seq<u8>, c: Seq<u8>, at: Seq<int>) -> bool {
    &&& at.len() == q.len()
    &&& forall|k: int| 0 <= k < q.len() ==> 0 <= #[trigger] at[k] < c.len() && c[at[k]] == q[k]
    &&& forall|j: int, k: int| 0 <= j < k < q.len() ==> #[trigger] at[j] < #[trigger] at[k]
}

/// Every byte of `q` appears in `c`, in order, not necessarily side by side.
pub open spec fn is_subsequence(q: Seq<u8>, c: Seq<u8>) -> bool {
    exists|at: Seq<int>| is_embedding(q, c, at)
}

/// Position of the first `b` in `c` at or after `from`; `c.len()` when there is none.
pub open spec fn first_at_or_after(c: Seq<u8>, b: u8, from: int) -> int
    decreases c.len() - from,
{
    if from >= c.len() {
        c.len() as int
    } else if c[from] == b {
        from
    } else {
        first_at_or_after(c, b, from + 1)
    }
}

/// Candidate position that the greedy scan pairs with query byte `k`;
/// `c.len()` when the candidate is exhausted before that byte is paired.
pub open spec fn scan_pos(q: Seq<u8>, c: Seq<u8>, k: int) -> int
    decreases k,
{
    if k <= 0 {
        first_at_or_after(c, q[0], 0)
    } else {
        let prev = scan_pos(q, c, k - 1);
        if prev >= c.len() {
            c.len() as int
        } else {
            first_at_or_after(c, q[k], prev + 1)
        }
    }
}

/// The greedy scan pairs every byte of `q` before `c` runs out.
pub open spec fn scan_completes(q: Seq<u8>, c: Seq<u8>) -> bool {
    q.len() == 0 || scan_pos(q, c, q.len() - 1) < c.len()
}

/// Among the first `n` query bytes, how many were paired with the position
/// directly after the one their predecessor was paired with.
pub open spec fn adjacent_count(q: Seq<u8>, c: Seq<u8>, n: int) -> int
    decreases n,
{
    if n <= 1 {
        0
    } else {
        adjacent_count(q, c, n - 1) + if scan_pos(q, c, n - 1) == scan_pos(q, c, n - 2) + 1 {
            1int
        } else {
            0int
        }
    }
}

/// Bonus for a match whose first paired byte sits at position `first`.
pub open spec fn position_bonus(first: int) -> int {
    if first >= POSITION_WINDOW {
        0
    } else {
        POSITION_WINDOW - first
    }
}

/// Relevance of candidate key `c` for query `q`: zero when the scan does not
/// complete or the query is empty, otherwise base points for every query byte,
/// the contiguity bonus for every adjacent pairing and the position bonus of
/// the first pairing.
pub open spec fn match_score(q: Seq<u8>, c: Seq<u8>) -> int {
    if q.len() == 0 || !scan_completes(q, c) {
        0
    } else {
        BASE_POINTS * q.len() + CONTIGUITY_BONUS * adjacent_count(q, c, q.len() as int)
            + position_bonus(scan_pos(q, c, 0))
    }
}

proof fn lemma_first_at_or_after(c: Seq<u8>, b: u8, from: int)
    requires
        0 <= from,
    ensures
        from <= first_at_or_after(c, b, from) || first_at_or_after(c, b, from) == c.len(),
        first_at_or_after(c, b, from) <= c.len(),
        first_at_or_after(c, b, from) < c.len() ==> c[first_at_or_after(c, b, from)] == b,
        forall|p: int| from <= p < first_at_or_after(c, b, from) ==> c[p] != b,
    decreases c.len() - from,
{
    if from < c.len() && c[from] != b {
        lemma_first_at_or_after(c, b, from + 1);
    }
}

/// What the scan knows of the pairing of query byte `k`.
proof fn lemma_scan_pos(q: Seq<u8>, c: Seq<u8>, k: int)
    requires
        0 <= k < q.len(),
    ensures
        0 <= scan_pos(q, c, k) <= c.len(),
        scan_pos(q, c, k) < c.len() ==> c[scan_pos(q, c, k)] == q[k],
        k > 0 ==> scan_pos(q, c, k - 1) <= scan_pos(q, c, k),
        k > 0 && scan_pos(q, c, k) < c.len() ==> scan_pos(q, c, k - 1) < scan_pos(q, c, k),
    decreases k,
{
    if k == 0 {
        lemma_first_at_or_after(c, q[0], 0);
    } else {
        lemma_scan_pos(q, c, k - 1);
        let prev = scan_pos(q, c, k - 1);
        if prev < c.len() {
            lemma_first_at_or_after(c, q[k], prev + 1);
        }
    }
}

proof fn lemma_scan_pos_monotone(q: Seq<u8>, c: Seq<u8>, j: int, k: int)
    requires
        0 <= j <= k < q.len(),
    ensures
        scan_pos(q, c, j) <= scan_pos(q, c, k),
        j < k && scan_pos(q, c, k) < c.len() ==> scan_pos(q, c, j) < scan_pos(q, c, k),
    decreases k - j,
{
    if j < k {
        lemma_scan_pos(q, c, k);
        lemma_scan_pos_monotone(q, c, j, k - 1);
    }
}

/// No embedding can pair query byte `k` earlier than the greedy scan does.
proof fn lemma_scan_is_leftmost(q: Seq<u8>, c: Seq<u8>, at: Seq<int>, k: int)
    requires
        is_embedding(q, c, at),
        0 <= k < q.len(),
    ensures
        scan_pos(q, c, k) <= at[k],
    decreases k,
{
    if k == 0 {
        lemma_first_at_or_after(c, q[0], 0);
    } else {
        lemma_scan_is_leftmost(q, c, at, k - 1);
        lemma_scan_pos(q, c, k - 1);
        let prev = scan_pos(q, c, k - 1);
        assert(at[k - 1] < at[k]);
        lemma_first_at_or_after(c, q[k], prev + 1);
    }
}

/// The greedy scan completes exactly when the query is a subsequence of the
/// candidate: being greedy never costs a match.
pub proof fn lemma_scan_completes_iff_subsequence(q: Seq<u8>, c: Seq<u8>)
    ensures
        scan_completes(q, c) <==> is_subsequence(q, c),
{
    if scan_completes(q, c) {
        let at = Seq::new(q.len(), |k: int| scan_pos(q, c, k));
        assert forall|k: int| 0 <= k < q.len() implies 0 <= #[trigger] at[k] < c.len() && c[at[k]]
            == q[k] by {
            lemma_scan_pos(q, c, k);
            lemma_scan_pos_monotone(q, c, k, q.len() - 1);
        }
        assert forall|j: int, k: int| 0 <= j < k < q.len() implies #[trigger] at[j]
            < #[trigger] at[k] by {
            lemma_scan_pos_monotone(q, c, k, q.len() - 1);
            lemma_scan_pos_monotone(q, c, j, k);
        }
        assert(is_embedding(q, c, at));
    }
    if is_subsequence(q, c) {
        let at = choose|at: Seq<int>| is_embedding(q, c, at);
        if q.len() > 0 {
            lemma_scan_is_leftmost(q, c, at, q.len() - 1);
        }
    }
}

proof fn lemma_adjacent_count_bounds(q: Seq<u8>, c: Seq<u8>, n: int)
    ensures
        0 <= adjacent_count(q, c, n),
        n >= 1 ==> adjacent_count(q, c, n) <= n - 1,
        n < 1 ==> adjacent_count(q, c, n) == 0,
    decreases n,
{
    if n > 1 {
        lemma_adjacent_count_bounds(q, c, n - 1);
    }
}

proof fn lemma_first_at_or_after_skips(c: Seq<u8>, b: u8, from: int, to: int)
    requires
        0 <= from <= to <= c.len(),
        forall|p: int| from <= p < to ==> c[p] != b,
    ensures
        first_at_or_after(c, b, from) == first_at_or_after(c, b, to),
    decreases to - from,
{
    if from < to {
        lemma_first_at_or_after_skips(c, b, from + 1, to);
    }
}

proof fn lemma_first_at_or_after_shifted(lead: Seq<u8>, rest: Seq<u8>, b: u8, from: int)
    requires
        0 <= from,
    ensures
        first_at_or_after(lead + rest, b, lead.len() + from) == lead.len() + first_at_or_after(
            rest,
            b,
            from,
        ),
    decreases rest.len() - from,
{
    if from < rest.len() {
        assert((lead + rest)[lead.len() + from] == rest[from]);
        if rest[from] != b {
            lemma_first_at_or_after_shifted(lead, rest, b, from + 1);
        }
    }
}

/// Bytes put in front of a candidate that cannot start a match move every
/// pairing of the scan to the right by their number and change nothing else.
proof fn lemma_scan_pos_shifted(q: Seq<u8>, lead: Seq<u8>, rest: Seq<u8>, k: int)
    requires
        0 <= k < q.len(),
        forall|i: int| 0 <= i < lead.len() ==> lead[i] != q[0],
    ensures
        scan_pos(q, lead + rest, k) == lead.len() + scan_pos(q, rest, k),
    decreases k,
{
    let c = lead + rest;
    if k == 0 {
        assert forall|p: int| 0 <= p < lead.len() implies c[p] != q[0] by {
            assert(c[p] == lead[p]);
        }
        lemma_first_at_or_after_skips(c, q[0], 0, lead.len() as int);
        lemma_first_at_or_after_shifted(lead, rest, q[0], 0);
    } else {
        lemma_scan_pos_shifted(q, lead, rest, k - 1);
        lemma_scan_pos(q, rest, k - 1);
        let prev = scan_pos(q, rest, k - 1);
        if prev < rest.len() {
            lemma_first_at_or_after_shifted(lead, rest, q[k], prev + 1);
        }
    }
}

proof fn lemma_adjacent_count_shifted(q: Seq<u8>, lead: Seq<u8>, rest: Seq<u8>, n: int)
    requires
        n <= q.len(),
        forall|i: int| 0 <= i < lead.len() ==> lead[i] != q[0],
    ensures
        adjacent_count(q, lead + rest, n) == adjacent_count(q, rest, n),
    decreases n,
{
    if n > 1 {
        lemma_adjacent_count_shifted(q, lead, rest, n - 1);
        lemma_scan_pos_shifted(q, lead, rest, n - 1);
        lemma_scan_pos_shifted(q, lead, rest, n - 2);
    }
}

/// Position monotonicity. Two candidates share the part `rest` in which the
/// query is matched and differ only in what stands before it, `lead_near` and
/// the longer `lead_far`, neither holding the query's first byte. Both match
/// or neither does, and the one whose match starts earlier scores at least as
/// much.
pub proof fn lemma_earlier_start_scores_no_less(
    q: Seq<u8>,
    lead_near: Seq<u8>,
    lead_far: Seq<u8>,
    rest: Seq<u8>,
)
    requires
        lead_near.len() <= lead_far.len(),
        q.len() > 0 ==> forall|i: int| 0 <= i < lead_near.len() ==> lead_near[i] != q[0],
        q.len() > 0 ==> forall|i: int| 0 <= i < lead_far.len() ==> lead_far[i] != q[0],
    ensures
        is_subsequence(q, lead_near + rest) <==> is_subsequence(q, lead_far + rest),
        match_score(q, lead_near + rest) >= match_score(q, lead_far + rest),
{
    lemma_scan_completes_iff_subsequence(q, lead_near + rest);
    lemma_scan_completes_iff_subsequence(q, lead_far + rest);
    if q.len() > 0 {
        let n = q.len() as int;
        lemma_scan_pos_shifted(q, lead_near, rest, n - 1);
        lemma_scan_pos_shifted(q, lead_far, rest, n - 1);
        lemma_scan_pos_shifted(q, lead_near, rest, 0);
        lemma_scan_pos_shifted(q, lead_far, rest, 0);
        lemma_adjacent_count_shifted(q, lead_near, rest, n);
        lemma_adjacent_count_shifted(q, lead_far, rest, n);
        lemma_scan_pos(q, rest, 0);
    }
}

/// The scan pairs every query byte after the first with the position directly
/// after its predecessor's: the query is matched as one unbroken run.
pub open spec fn pairs_contiguously(q: Seq<u8>, c: Seq<u8>) -> bool {
    forall|k: int| 1 <= k < q.len() ==> #[trigger] scan_pos(q, c, k) == scan_pos(q, c, k - 1) + 1
}

proof fn lemma_adjacent_count_of_run(q: Seq<u8>, c: Seq<u8>, n: int)
    requires
        1 <= n <= q.len(),
        pairs_contiguously(q, c),
    ensures
        adjacent_count(q, c, n) == n - 1,
    decreases n,
{
    if n > 1 {
        lemma_adjacent_count_of_run(q, c, n - 1);
        assert(scan_pos(q, c, n - 1) == scan_pos(q, c, n - 1 - 1) + 1);
    }
}

proof fn lemma_adjacent_count_with_gap(q: Seq<u8>, c: Seq<u8>, n: int, gap: int)
    requires
        1 <= gap < n,
        scan_pos(q, c, gap) != scan_pos(q, c, gap - 1) + 1,
    ensures
        adjacent_count(q, c, n) <= n - 2,
    decreases n,
{
    if gap == n - 1 {
        lemma_adjacent_count_bounds(q, c, n - 1);
    } else {
        lemma_adjacent_count_with_gap(q, c, n - 1, gap);
    }
}

/// Contiguity bonus. Of two candidates of equal length that both match the
/// query from the same first position, the one in which the query is matched
/// as one unbroken run scores strictly higher than the one in which the match
/// has a gap.
pub proof fn lemma_contiguous_match_scores_higher(q: Seq<u8>, tight: Seq<u8>, loose: Seq<u8>)
    requires
        tight.len() == loose.len(),
        is_subsequence(q, tight),
        is_subsequence(q, loose),
        scan_pos(q, tight, 0) == scan_pos(q, loose, 0),
        pairs_contiguously(q, tight),
        !pairs_contiguously(q, loose),
    ensures
        match_score(q, tight) > match_score(q, loose),
{
    lemma_scan_completes_iff_subsequence(q, tight);
    lemma_scan_completes_iff_subsequence(q, loose);
    let gap = choose|k: int|
        1 <= k < q.len() && #[trigger] scan_pos(q, loose, k) != scan_pos(q, loose, k - 1) + 1;
    lemma_adjacent_count_of_run(q, tight, q.len() as int);
    lemma_adjacent_count_with_gap(q, loose, q.len() as int, gap);
}

/// Scorer totality: a query that is not a subsequence of the candidate scores
/// zero, and so does the empty query, which every candidate matches.
pub proof fn lemma_no_match_scores_zero(q: Seq<u8>, c: Seq<u8>)
    ensures
        !is_subsequence(q, c) ==> match_score(q, c) == 0,
        q.len() == 0 ==> is_subsequence(q, c) && match_score(q, c) == 0,
        q.len() > c.len() ==> !is_subsequence(q, c),
        0 <= match_score(q, c) <= 15 * q.len() + 20,
{
    lemma_scan_completes_iff_subsequence(q, c);
    lemma_adjacent_count_bounds(q, c, q.len() as int);
    if q.len() > 0 {
        lemma_scan_pos(q, c, 0);
    }
    if q.len() > c.len() && is_subsequence(q, c) {
        lemma_scan_starts_from(q, c, q.len() - 1);
    }
}

/// A pairing of query byte `k` leaves at least `k` candidate positions before it.
proof fn lemma_scan_starts_from(q: Seq<u8>, c: Seq<u8>, k: int)
    requires
        0 <= k < q.len(),
    ensures
        scan_pos(q, c, k) < c.len() ==> k <= scan_pos(q, c, k),
    decreases k,
{
    lemma_scan_pos(q, c, k);
    if k > 0 {
        lemma_scan_starts_from(q, c, k - 1);
    }
}

/// Scores `target_bytes` against `query_bytes` in one pass: whether the query
/// is a subsequence of the target, and the relevance of the match.
pub fn greedy_match_score(query_bytes: &[u8], target_bytes: &[u8]) -> (res: (bool, u128))
    ensures
        res.0 <==> is_subsequence(query_bytes@, target_bytes@),
        res.1 == match_score(query_bytes@, target_bytes@),
        !res.0 ==> res.1 == 0,
{
    let ghost q = query_bytes@;
    let ghost c = target_bytes@;
    let mut q_idx: usize = 0;
    let mut t_idx: usize = 0;
    let mut score: u128 = 0;
    let mut last_match_idx: Option<usize> = None;
    let mut first_match_idx: Option<usize> = None;

    while t_idx < target_bytes.len() && q_idx < query_bytes.len()
        invariant
            q == query_bytes@,
            c == target_bytes@,
            q_idx <= q.len(),
            t_idx <= c.len(),
            q_idx == 0 ==> last_match_idx is None && first_match_idx is None,
            q_idx > 0 ==> {
                &&& last_match_idx matches Some(last)
                &&& last == scan_pos(q, c, q_idx - 1)
                &&& last < t_idx
                &&& first_match_idx matches Some(first)
                &&& first == scan_pos(q, c, 0)
            },
            q_idx < q.len() ==> scan_pos(q, c, q_idx as int) == first_at_or_after(
                c,
                q[q_idx as int],
                t_idx as int,
            ),
            score == BASE_POINTS * q_idx + CONTIGUITY_BONUS * adjacent_count(q, c, q_idx as int),
        decreases c.len() - t_idx,
    {
        proof {
            lemma_adjacent_count_bounds(q, c, q_idx as int);
            lemma_adjacent_count_bounds(q, c, q_idx + 1);
            lemma_scan_pos(q, c, q_idx as int);
        }
        if target_bytes[t_idx] == query_bytes[q_idx] {
            assert(scan_pos(q, c, q_idx as int) == t_idx);
            assert(q_idx + 1 < q.len() ==> scan_pos(q, c, q_idx + 1) == first_at_or_after(
                c,
                q[q_idx + 1],
                t_idx + 1,
            ));
            score += BASE_POINTS;
            match last_match_idx {
                Some(last) => {
                    if t_idx - last <= 1 {
                        score += CONTIGUITY_BONUS;
                    }
                },
                None => {
                    first_match_idx = Some(t_idx);
                },
            }
            last_match_idx = Some(t_idx);
            q_idx += 1;
        }
        t_idx += 1;
    }

    proof {
        lemma_scan_completes_iff_subsequence(q, c);
        lemma_adjacent_count_bounds(q, c, q_idx as int);
        if q_idx < q.len() {
            lemma_first_at_or_after(c, q[q_idx as int], t_idx as int);
            lemma_scan_pos_monotone(q, c, q_idx as int, q.len() - 1);
        }
    }
    if q_idx == query_bytes.len() {
        match first_match_idx {
            Some(first_idx) => {
                if first_idx < POSITION_WINDOW {
                    score += (POSITION_WINDOW - first_idx) as u128;
                }
            },
            None => {},
        }
        (true, score)
    } else {
        (false, 0)
    }
}

} // verus!
