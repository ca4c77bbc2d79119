use lazy_find::preprocess::{prepare_fuzzy_target, prepare_paths_for_seach};
use lazy_find::rank::{greedy_match_filter, rank_order, ScoredMatch};
use std::cmp::Ordering;

fn corpus_of(paths: &[&str]) -> Vec<lazy_find::preprocess::Candidate> {
    let owned: Vec<String> = paths.iter().map(|p| String::from(*p)).collect();
    prepare_paths_for_seach(&owned)
}

#[test]
fn end_to_end_query_re_finds_report_and_readme_in_corpus_order() {
    let corpus = corpus_of(&["/a/report.txt", "/a/readme.md", "/b/data.csv"]);
    let ranked = greedy_match_filter(prepare_fuzzy_target("re"), &corpus);
    assert_eq!(ranked, vec![String::from("/a/report.txt"), String::from("/a/readme.md")]);
}

#[test]
fn ties_keep_corpus_order_ahead_of_a_lower_score() {
    // A and B: r at 0, e at 1. C: r at 1, e at 2.
    let corpus = corpus_of(&["report", "readme", "wreck"]);
    let ranked = greedy_match_filter(b"re".to_vec(), &corpus);
    assert_eq!(ranked, vec![String::from("report"), String::from("readme"), String::from("wreck")]);
}

#[test]
fn ties_keep_corpus_order_whatever_the_order_is() {
    let corpus = corpus_of(&["readme", "report", "wreck"]);
    let ranked = greedy_match_filter(b"re".to_vec(), &corpus);
    assert_eq!(ranked, vec![String::from("readme"), String::from("report"), String::from("wreck")]);
}

#[test]
fn higher_score_comes_first_whatever_the_corpus_order() {
    let corpus = corpus_of(&["wreck", "a_r_e", "report"]);
    let ranked = greedy_match_filter(b"re".to_vec(), &corpus);
    assert_eq!(ranked, vec![String::from("report"), String::from("wreck"), String::from("a_r_e")]);
}

#[test]
fn empty_query_returns_the_whole_corpus_in_order() {
    let paths = ["/z", "/a", "/m/n", "/a"];
    let corpus = corpus_of(&paths);
    let ranked = greedy_match_filter(Vec::new(), &corpus);
    assert_eq!(ranked, paths.iter().map(|p| String::from(*p)).collect::<Vec<String>>());
}

#[test]
fn candidates_that_do_not_match_are_left_out() {
    let corpus = corpus_of(&["alpha", "beta", "gamma"]);
    assert_eq!(greedy_match_filter(b"mm".to_vec(), &corpus), vec![String::from("gamma")]);
    assert!(greedy_match_filter(b"xyz".to_vec(), &corpus).is_empty());
}

#[test]
fn empty_corpus_ranks_to_nothing() {
    assert!(greedy_match_filter(b"a".to_vec(), &[]).is_empty());
    assert!(greedy_match_filter(Vec::new(), &[]).is_empty());
}

#[test]
fn ranking_is_the_same_on_every_run() {
    let paths: Vec<String> = (0..3000).map(|i| format!("/srv/{}/node{}.log", i % 13, i % 97)).collect();
    let corpus = prepare_paths_for_seach(&paths);
    let first = greedy_match_filter(b"no1".to_vec(), &corpus);
    for _ in 0..5 {
        assert_eq!(greedy_match_filter(b"no1".to_vec(), &corpus), first);
    }
    assert!(!first.is_empty());
}

#[test]
fn many_equal_scores_come_out_in_corpus_order() {
    let paths: Vec<String> = (0..2000).map(|i| format!("ab{:05}", i)).collect();
    let corpus = prepare_paths_for_seach(&paths);
    let ranked = greedy_match_filter(b"ab".to_vec(), &corpus);
    assert_eq!(ranked, paths);
}

#[test]
fn ranking_does_not_change_the_corpus() {
    let corpus = corpus_of(&["/a/report.txt", "/b/data.csv"]);
    let _ = greedy_match_filter(b"a".to_vec(), &corpus);
    assert_eq!(corpus[0].display(), "/a/report.txt");
    assert_eq!(corpus[0].match_key(), b"/a/report.txt");
    assert_eq!(corpus[1].display(), "/b/data.csv");
}

#[test]
fn rank_order_puts_the_higher_score_first() {
    let high = ScoredMatch { score: 45, index: 9 };
    let low = ScoredMatch { score: 44, index: 0 };
    assert_eq!(rank_order(&high, &low), Ordering::Less);
    assert_eq!(rank_order(&low, &high), Ordering::Greater);
}

#[test]
fn rank_order_breaks_ties_by_corpus_position() {
    let early = ScoredMatch { score: 45, index: 2 };
    let late = ScoredMatch { score: 45, index: 3 };
    assert_eq!(rank_order(&early, &late), Ordering::Less);
    assert_eq!(rank_order(&late, &early), Ordering::Greater);
    assert_eq!(rank_order(&early, &early), Ordering::Equal);
}
