use lazy_find::preprocess::{prepare_paths_for_seach, Candidate};
use lazy_find::session::{command_is_edit, Action, Command, Phase, SearchMode, Session};

fn candidates(paths: &[&str]) -> Vec<Candidate> {
    let owned: Vec<String> = paths.iter().map(|p| String::from(*p)).collect();
    prepare_paths_for_seach(&owned)
}

fn sample_session() -> Session {
    Session::new(
        candidates(&["/a/report.txt", "/a/readme.md", "/b/data.csv"]),
        candidates(&["/a", "/b"]),
    )
}

fn strings(items: &[&str]) -> Vec<String> {
    items.iter().map(|p| String::from(*p)).collect()
}

fn type_text(session: &mut Session, text: &str) -> u64 {
    let mut armed = session.generation();
    for c in text.chars() {
        match session.handle_command(Command::InsertChar(c)) {
            Action::ArmDebounce { generation } => armed = generation,
            other => panic!("an edit must arm the timer, got {:?}", other),
        }
    }
    armed
}

fn settle(session: &mut Session, armed: u64) {
    let stamp = session.debounce_elapsed(armed).unwrap();
    assert!(session.complete_pass(stamp));
}

#[test]
fn new_session_is_idle_with_empty_query_and_results() {
    let session = sample_session();
    assert_eq!(session.phase(), Phase::Idle);
    assert_eq!(session.current_query(), "");
    assert_eq!(session.last_settled_query(), None);
    assert!(session.ranked_results().is_empty());
    assert_eq!(session.selection_cursor(), 0);
    assert_eq!(session.mode(), SearchMode::Files);
    assert_eq!(session.generation(), 0);
}

#[test]
fn rapid_edits_trigger_one_ranking_pass_for_the_last_query() {
    let mut session = sample_session();
    let first = session.handle_command(Command::InsertChar('r'));
    let second = session.handle_command(Command::InsertChar('e'));
    let third = session.handle_command(Command::InsertChar('p'));
    assert_eq!(first, Action::ArmDebounce { generation: 1 });
    assert_eq!(second, Action::ArmDebounce { generation: 2 });
    assert_eq!(third, Action::ArmDebounce { generation: 3 });
    assert_eq!(session.phase(), Phase::PendingDebounce);
    assert!(session.ranked_results().is_empty());

    let mut passes = 0;
    for armed in [1u64, 2, 3] {
        if let Some(stamp) = session.debounce_elapsed(armed) {
            assert_eq!(stamp, 3);
            assert_eq!(session.last_settled_query(), Some("rep"));
            assert_eq!(session.phase(), Phase::Ranking);
            assert!(session.complete_pass(stamp));
            passes += 1;
        }
    }
    assert_eq!(passes, 1);
    assert_eq!(session.phase(), Phase::Settled);
    assert_eq!(session.current_query(), "rep");
    assert_eq!(session.ranked_results(), &strings(&["/a/report.txt"]));
}

#[test]
fn timer_that_fires_twice_starts_no_second_pass() {
    let mut session = sample_session();
    let armed = type_text(&mut session, "re");
    settle(&mut session, armed);
    assert_eq!(session.debounce_elapsed(armed), None);
    assert_eq!(session.phase(), Phase::Settled);
    assert_eq!(session.ranked_results(), &strings(&["/a/report.txt", "/a/readme.md"]));
}

#[test]
fn edits_never_touch_the_displayed_results() {
    let mut session = sample_session();
    let armed = type_text(&mut session, "re");
    settle(&mut session, armed);
    let shown = session.ranked_results().clone();
    type_text(&mut session, "zzz");
    assert_eq!(session.phase(), Phase::PendingDebounce);
    assert_eq!(session.ranked_results(), &shown);
    assert_eq!(session.last_settled_query(), Some("re"));
}

#[test]
fn typed_space_is_dropped_and_changes_nothing() {
    let mut session = sample_session();
    let armed = type_text(&mut session, "re");
    settle(&mut session, armed);
    assert_eq!(session.handle_command(Command::InsertChar(' ')), Action::Redraw);
    assert_eq!(session.current_query(), "re");
    assert_eq!(session.generation(), armed);
    assert_eq!(session.phase(), Phase::Settled);
}

#[test]
fn backspace_removes_the_last_character_and_arms_the_timer() {
    let mut session = sample_session();
    type_text(&mut session, "rex");
    assert_eq!(session.handle_command(Command::Backspace), Action::ArmDebounce { generation: 4 });
    assert_eq!(session.current_query(), "re");
    assert_eq!(session.phase(), Phase::PendingDebounce);
}

#[test]
fn backspace_on_an_empty_query_leaves_it_empty() {
    let mut session = sample_session();
    assert_eq!(session.handle_command(Command::Backspace), Action::ArmDebounce { generation: 1 });
    assert_eq!(session.current_query(), "");
    assert_eq!(session.phase(), Phase::PendingDebounce);
}

#[test]
fn first_settling_of_the_empty_query_shows_the_whole_corpus() {
    let mut session = sample_session();
    let armed = match session.handle_command(Command::Backspace) {
        Action::ArmDebounce { generation } => generation,
        other => panic!("unexpected {:?}", other),
    };
    settle(&mut session, armed);
    assert_eq!(
        session.ranked_results(),
        &strings(&["/a/report.txt", "/a/readme.md", "/b/data.csv"])
    );
    assert_eq!(session.last_settled_query(), Some(""));
}

#[test]
fn quiet_period_that_ends_on_the_settled_query_starts_no_pass() {
    let mut session = sample_session();
    let armed = type_text(&mut session, "re");
    settle(&mut session, armed);
    type_text(&mut session, "x");
    let armed = match session.handle_command(Command::Backspace) {
        Action::ArmDebounce { generation } => generation,
        other => panic!("unexpected {:?}", other),
    };
    assert_eq!(session.debounce_elapsed(armed), None);
    assert_eq!(session.phase(), Phase::Settled);
    assert_eq!(session.ranked_results(), &strings(&["/a/report.txt", "/a/readme.md"]));
}

#[test]
fn superseded_pass_is_discarded_when_it_completes_late() {
    let mut session = sample_session();
    let armed_first = type_text(&mut session, "re");
    let first = session.debounce_elapsed(armed_first).unwrap();
    let armed_second = type_text(&mut session, "p");
    let second = session.debounce_elapsed(armed_second).unwrap();
    assert_ne!(first, second);

    assert!(!session.complete_pass(first));
    assert!(session.ranked_results().is_empty());
    assert_eq!(session.phase(), Phase::Ranking);

    assert!(session.complete_pass(second));
    assert_eq!(session.ranked_results(), &strings(&["/a/report.txt"]));
    assert_eq!(session.phase(), Phase::Settled);

    assert!(!session.complete_pass(first));
    assert!(!session.complete_pass(second));
    assert_eq!(session.ranked_results(), &strings(&["/a/report.txt"]));
}

#[test]
fn edit_during_a_pass_keeps_the_session_pending_after_the_commit() {
    let mut session = sample_session();
    let armed = type_text(&mut session, "re");
    let stamp = session.debounce_elapsed(armed).unwrap();
    let armed_again = type_text(&mut session, "p");
    assert!(session.complete_pass(stamp));
    assert_eq!(session.ranked_results(), &strings(&["/a/report.txt", "/a/readme.md"]));
    assert_eq!(session.phase(), Phase::PendingDebounce);
    assert_eq!(session.current_query(), "rep");

    settle(&mut session, armed_again);
    assert_eq!(session.ranked_results(), &strings(&["/a/report.txt"]));
    assert_eq!(session.phase(), Phase::Settled);
}

#[test]
fn completing_a_pass_that_was_never_started_changes_nothing() {
    let mut session = sample_session();
    assert!(!session.complete_pass(0));
    assert!(!session.complete_pass(7));
    assert_eq!(session.phase(), Phase::Idle);
    assert!(session.ranked_results().is_empty());
}

#[test]
fn timer_without_an_edit_starts_nothing() {
    let mut session = sample_session();
    assert_eq!(session.debounce_elapsed(0), None);
    assert_eq!(session.phase(), Phase::Idle);
}

#[test]
fn navigation_moves_the_cursor_inside_the_list_and_runs_no_pass() {
    let mut session = sample_session();
    let armed = type_text(&mut session, "a");
    settle(&mut session, armed);
    assert_eq!(session.ranked_results().len(), 3);
    let generation = session.generation();

    assert_eq!(session.handle_command(Command::MoveUp), Action::Redraw);
    assert_eq!(session.selection_cursor(), 0);
    assert_eq!(session.handle_command(Command::MoveDown), Action::Redraw);
    assert_eq!(session.selection_cursor(), 1);
    session.handle_command(Command::MoveDown);
    assert_eq!(session.selection_cursor(), 2);
    session.handle_command(Command::MoveDown);
    assert_eq!(session.selection_cursor(), 2);
    session.handle_command(Command::MoveUp);
    assert_eq!(session.selection_cursor(), 1);

    assert_eq!(session.generation(), generation);
    assert_eq!(session.phase(), Phase::Settled);
    assert_eq!(session.debounce_elapsed(generation), None);
}

#[test]
fn move_down_in_an_empty_list_stays_at_zero() {
    let mut session = sample_session();
    session.handle_command(Command::MoveDown);
    assert_eq!(session.selection_cursor(), 0);
}

#[test]
fn switch_mode_shows_the_directory_results_of_the_same_query() {
    let mut session = sample_session();
    let armed = type_text(&mut session, "a");
    settle(&mut session, armed);
    assert_eq!(session.mode(), SearchMode::Files);
    session.handle_command(Command::MoveDown);
    session.handle_command(Command::MoveDown);
    assert_eq!(session.selection_cursor(), 2);

    assert_eq!(session.handle_command(Command::SwitchMode), Action::Redraw);
    assert_eq!(session.mode(), SearchMode::Directories);
    assert_eq!(session.ranked_results(), &strings(&["/a"]));
    assert_eq!(session.selection_cursor(), 0);
    assert_eq!(session.phase(), Phase::Settled);

    session.handle_command(Command::SwitchMode);
    assert_eq!(session.mode(), SearchMode::Files);
    assert_eq!(session.ranked_results().len(), 3);
}

#[test]
fn commit_brings_the_cursor_back_into_a_shorter_list() {
    let mut session = sample_session();
    let armed = type_text(&mut session, "a");
    settle(&mut session, armed);
    session.handle_command(Command::MoveDown);
    session.handle_command(Command::MoveDown);
    assert_eq!(session.selection_cursor(), 2);
    let armed = type_text(&mut session, "re");
    settle(&mut session, armed);
    assert_eq!(session.ranked_results().len(), 2);
    assert_eq!(session.selection_cursor(), 1);
    let armed = type_text(&mut session, "zzz");
    settle(&mut session, armed);
    assert!(session.ranked_results().is_empty());
    assert_eq!(session.selection_cursor(), 0);
}

#[test]
fn quit_asks_to_end_the_session_from_any_phase() {
    let mut session = sample_session();
    assert_eq!(session.handle_command(Command::Quit), Action::Quit);
    assert_eq!(session.phase(), Phase::Idle);
    let armed = type_text(&mut session, "re");
    assert_eq!(session.handle_command(Command::Quit), Action::Quit);
    assert_eq!(session.phase(), Phase::PendingDebounce);
    session.debounce_elapsed(armed).unwrap();
    assert_eq!(session.handle_command(Command::Quit), Action::Quit);
    assert_eq!(session.phase(), Phase::Ranking);
    assert_eq!(session.current_query(), "re");
}

#[test]
fn query_is_normalized_like_the_corpus_before_ranking() {
    let mut session = Session::new(candidates(&["/Docs/Annual Report.PDF", "/x"]), Vec::new());
    let armed = type_text(&mut session, "ANNUALREP");
    settle(&mut session, armed);
    assert_eq!(session.ranked_results(), &strings(&["/Docs/Annual Report.PDF"]));
}

#[test]
fn page_holds_the_first_entries_of_the_displayed_list() {
    let paths: Vec<String> = (0..40).map(|i| format!("/f/{:02}", i)).collect();
    let mut session = Session::new(prepare_paths_for_seach(&paths), Vec::new());
    let armed = type_text(&mut session, "f");
    settle(&mut session, armed);
    assert_eq!(session.ranked_results().len(), 40);
    assert_eq!(session.page(25), paths[..25].to_vec());
    assert_eq!(session.page(0), Vec::<String>::new());
    assert_eq!(session.page(40), paths);
    assert_eq!(session.page(1000), paths);
}

#[test]
fn edits_are_typed_characters_but_the_space_and_backspace() {
    assert!(command_is_edit(Command::InsertChar('r')));
    assert!(command_is_edit(Command::Backspace));
    assert!(!command_is_edit(Command::InsertChar(' ')));
    assert!(!command_is_edit(Command::MoveUp));
    assert!(!command_is_edit(Command::MoveDown));
    assert!(!command_is_edit(Command::SwitchMode));
    assert!(!command_is_edit(Command::Quit));
}

#[test]
fn command_is_an_edit_exactly_when_it_arms_the_timer() {
    let commands = [
        Command::InsertChar('x'),
        Command::InsertChar(' '),
        Command::Backspace,
        Command::MoveUp,
        Command::MoveDown,
        Command::SwitchMode,
        Command::Quit,
    ];
    for command in commands {
        let mut session = sample_session();
        let armed = matches!(session.handle_command(command), Action::ArmDebounce { .. });
        assert_eq!(armed, command_is_edit(command));
    }
}

#[test]
fn burst_from_a_settled_query_runs_one_pass_whatever_its_length() {
    for burst in 1..6usize {
        let mut session = sample_session();
        let armed = type_text(&mut session, "a");
        settle(&mut session, armed);
        let before = session.generation();
        type_text(&mut session, &"r".repeat(burst));
        let mut passes = 0;
        for k in 1..=burst as u64 {
            if let Some(stamp) = session.debounce_elapsed(before + k) {
                assert!(session.complete_pass(stamp));
                passes += 1;
            }
        }
        assert_eq!(passes, 1);
        assert_eq!(session.phase(), Phase::Settled);
    }
}
