use lazy_find::scorer::greedy_match_score;

#[test]
fn contiguous_match_at_the_start_scores_all_bonuses() {
    // two bytes: 10 + 10, one adjacency: 5, first match at 0: 20
    assert_eq!(greedy_match_score(b"re", b"report.txt"), (true, 45));
}

#[test]
fn single_byte_match_gets_base_and_position_bonus() {
    assert_eq!(greedy_match_score(b"r", b"r"), (true, 30));
    assert_eq!(greedy_match_score(b"t", b"report"), (true, 10 + 20 - 5));
}

#[test]
fn gap_between_matches_earns_no_contiguity_bonus() {
    // r at 0, t at 5
    assert_eq!(greedy_match_score(b"rt", b"report"), (true, 10 + 10 + 20));
}

#[test]
fn scan_is_greedy_and_takes_the_first_occurrence() {
    // a at 0, b at 3, although "ab" stands side by side at 2..4
    assert_eq!(greedy_match_score(b"ab", b"a_ab"), (true, 10 + 10 + 20));
}

#[test]
fn position_bonus_shrinks_with_the_offset_of_the_first_match() {
    assert_eq!(greedy_match_score(b"ab", b"ab"), (true, 45));
    assert_eq!(greedy_match_score(b"ab", b"xab"), (true, 44));
    assert_eq!(greedy_match_score(b"ab", b"xxxxxxxxxxab"), (true, 35));
    assert_eq!(greedy_match_score(b"ab", b"xxxxxxxxxxxxxxxxxxxab"), (true, 26));
}

#[test]
fn position_bonus_is_zero_from_offset_twenty_on() {
    assert_eq!(greedy_match_score(b"ab", b"xxxxxxxxxxxxxxxxxxxxab"), (true, 25));
    assert_eq!(greedy_match_score(b"ab", b"xxxxxxxxxxxxxxxxxxxxxxxxxxxxxxab"), (true, 25));
}

#[test]
fn earlier_first_match_never_scores_less() {
    let rest = b"report.txt".to_vec();
    let mut previous = u128::MAX;
    for lead in 0..30usize {
        let mut candidate = vec![b'-'; lead];
        candidate.extend_from_slice(&rest);
        let (matched, score) = greedy_match_score(b"rpt", &candidate);
        assert!(matched);
        assert!(score <= previous);
        previous = score;
    }
}

#[test]
fn contiguous_run_beats_a_match_with_gaps() {
    let (tight_matched, tight) = greedy_match_score(b"abc", b"abc___");
    let (loose_matched, loose) = greedy_match_score(b"abc", b"a_b_c_");
    assert!(tight_matched && loose_matched);
    assert_eq!(tight, 30 + 10 + 20);
    assert_eq!(loose, 30 + 20);
    assert!(tight > loose);
}

#[test]
fn a_late_run_can_score_less_than_an_early_match_with_a_gap() {
    let (_, late_run) = greedy_match_score(b"ab", b"xxxxxxxxxxxxxxxxxxxxxxxxxab_");
    let (_, early_gap) = greedy_match_score(b"ab", b"axbxxxxxxxxxxxxxxxxxxxxxxxxx");
    assert_eq!(late_run, 25);
    assert_eq!(early_gap, 40);
}

#[test]
fn query_that_is_no_subsequence_scores_false_and_zero() {
    assert_eq!(greedy_match_score(b"re", b"data.csv"), (false, 0));
    assert_eq!(greedy_match_score(b"er", b"re"), (false, 0));
    assert_eq!(greedy_match_score(b"rr", b"r"), (false, 0));
}

#[test]
fn query_longer_than_the_candidate_never_matches() {
    assert_eq!(greedy_match_score(b"abcd", b"abc"), (false, 0));
    assert_eq!(greedy_match_score(b"a", b""), (false, 0));
}

#[test]
fn empty_query_matches_everything_with_score_zero() {
    assert_eq!(greedy_match_score(b"", b"anything"), (true, 0));
    assert_eq!(greedy_match_score(b"", b""), (true, 0));
}

#[test]
fn match_is_bytewise_and_case_sensitive_on_keys() {
    assert_eq!(greedy_match_score(b"R", b"report"), (false, 0));
    assert_eq!(greedy_match_score(&[0xc3, 0xa9], &[0xc3, 0xa9, b'.']), (true, 45));
}

#[test]
fn match_is_true_exactly_for_subsequences() {
    let candidate = b"abcab";
    let alphabet = [b'a', b'b', b'c'];
    let mut queries: Vec<Vec<u8>> = vec![vec![]];
    for _ in 0..4 {
        let mut longer = Vec::new();
        for q in &queries {
            for letter in alphabet {
                let mut next = q.clone();
                next.push(letter);
                longer.push(next);
            }
        }
        queries.extend(longer);
    }
    for q in &queries {
        let mut at = 0usize;
        for byte in candidate {
            if at < q.len() && q[at] == *byte {
                at += 1;
            }
        }
        let expected = at == q.len();
        assert_eq!(greedy_match_score(q, candidate).0, expected);
    }
}
