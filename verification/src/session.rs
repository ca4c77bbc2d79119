//! The query session controller: owns the live query, debounces bursts of
//! edits by generation, runs a ranking pass only for a settled query, and keeps
//! the displayed results and the selection cursor.

use crate::preprocess::{match_key_of, prepare_fuzzy_target, Candidate};
use crate::rank::{greedy_match_filter, ranked_displays};
use vstd::prelude::*;

verus! {

/// `String::push`: the character is appended to the text.
pub assume_specification[ String::push ](text: &mut String, c: char)
    ensures
        final(text)@ == old(text)@.push(c),
;

/// `String::pop`: the last character is removed and returned, or `None` is
/// returned and the text left as it is when it is empty.
pub assume_specification[ String::pop ](text: &mut String) -> (removed: Option<char>)
    ensures
        old(text)@.len() == 0 ==> removed is None && final(text)@ == old(text)@,
        old(text)@.len() > 0 ==> removed == Some(old(text)@.last()) && final(text)@ == old(
            text,
        )@.drop_last(),
;

/// One discrete input delivered to the controller.
#[derive(Clone, Copy, Debug, PartialEq, Eq)]
pub enum Command {
    InsertChar(char),
    Backspace,
    MoveUp,
    MoveDown,
    SwitchMode,
    Quit,
}

/// Which of the two cached result lists is displayed.
#[derive(Clone, Copy, Debug, PartialEq, Eq)]
pub enum SearchMode {
    Files,
    Directories,
}

/// Where the controller stands between an edit and its results.
#[derive(Clone, Copy, Debug, PartialEq, Eq)]
pub enum Phase {
    /// Nothing was typed yet.
    Idle,
    /// An edit arrived and its quiet period has not run out.
    PendingDebounce,
    /// A ranking pass for the current query was started and not yet committed.
    Ranking,
    /// The displayed results are those of the current query.
    Settled,
}

/// What the host loop has to do after a command.
#[derive(Clone, Copy, Debug, PartialEq, Eq)]
pub enum Action {
    /// Nothing but to draw the state again.
    Redraw,
    /// (Re)start the debounce timer, and hand `generation` back when it fires.
    ArmDebounce { generation: u64 },
    /// End the session.
    Quit,
}

/// The session as contracts see it.
pub struct SessionView {
    pub files: Seq<Candidate>,
    pub directories: Seq<Candidate>,
    pub query: Seq<char>,
    pub last_settled: Option<Seq<char>>,
    pub shown_for: Option<Seq<char>>,
    pub file_results: Seq<Seq<char>>,
    pub directory_results: Seq<Seq<char>>,
    pub cursor: nat,
    pub mode: SearchMode,
    pub phase: Phase,
    pub generation: nat,
    pub in_flight: Option<nat>,
}

impl SessionView {
    /// The result list that the current mode displays.
    pub open spec fn results(self) -> Seq<Seq<char>> {
        match self.mode {
            SearchMode::Files => self.file_results,
            SearchMode::Directories => self.directory_results,
        }
    }

    /// The state is one that a session can be in.
    pub open spec fn wf(self) -> bool {
        &&& self.cursor == 0 || self.cursor < self.results().len()
        &&& self.in_flight matches Some(stamp) ==> stamp <= self.generation
            && self.last_settled is Some
        &&& self.in_flight is None ==> self.shown_for == self.last_settled
        &&& match self.shown_for {
            None => self.file_results.len() == 0 && self.directory_results.len() == 0,
            Some(text) => self.file_results == ranked_displays(match_key_of(text), self.files)
                && self.directory_results == ranked_displays(
                match_key_of(text),
                self.directories,
            ),
        }
        &&& match self.phase {
            Phase::Idle => self.generation == 0 && self.query.len() == 0 && self.in_flight is None
                && self.last_settled is None,
            Phase::PendingDebounce => true,
            Phase::Ranking => self.in_flight is Some && self.last_settled == Some(self.query),
            Phase::Settled => self.in_flight is None && self.last_settled == Some(self.query),
        }
    }
}

/// `cursor` moved into the list of `len` entries: unchanged where it points
/// at an entry, else the last entry, or zero in an empty list.
pub open spec fn clamp_cursor(cursor: nat, len: nat) -> nat {
    if cursor < len {
        cursor
    } else if len == 0 {
        0
    } else {
        (len - 1) as nat
    }
}

/// Whether a command changes the query text. A typed space is dropped and
/// changes nothing.
pub open spec fn is_edit(command: Command) -> bool {
    match command {
        Command::InsertChar(c) => c != ' ',
        Command::Backspace => true,
        _ => false,
    }
}

/// Tells whether a command changes the query text, which is when
/// `handle_command` needs room for one more generation.
pub fn command_is_edit(command: Command) -> (edit: bool)
    ensures
        edit == is_edit(command),
{
    match command {
        Command::InsertChar(c) => c != ' ',
        Command::Backspace => true,
        _ => false,
    }
}

/// The query after an edit.
pub open spec fn edited_query(query: Seq<char>, command: Command) -> Seq<char> {
    match command {
        Command::InsertChar(c) => if c == ' ' {
            query
        } else {
            query.push(c)
        },
        Command::Backspace => if query.len() == 0 {
            query
        } else {
            query.drop_last()
        },
        _ => query,
    }
}

/// The state that a command leads to.
pub open spec fn after_command(s: SessionView, command: Command) -> SessionView {
    match command {
        Command::InsertChar(_) | Command::Backspace => if is_edit(command) {
            SessionView {
                query: edited_query(s.query, command),
                generation: s.generation + 1,
                phase: Phase::PendingDebounce,
                ..s
            }
        } else {
            s
        },
        Command::MoveUp => SessionView {
            cursor: if s.cursor > 0 {
                (s.cursor - 1) as nat
            } else {
                s.cursor
            },
            ..s
        },
        Command::MoveDown => SessionView {
            cursor: if s.cursor + 1 < s.results().len() {
                s.cursor + 1
            } else {
                s.cursor
            },
            ..s
        },
        Command::SwitchMode => {
            let mode = match s.mode {
                SearchMode::Files => SearchMode::Directories,
                SearchMode::Directories => SearchMode::Files,
            };
            let shown = SessionView { mode, ..s };
            SessionView { cursor: clamp_cursor(s.cursor, shown.results().len()), ..shown }
        },
        Command::Quit => s,
    }
}

/// What the host loop is asked to do after a command.
pub open spec fn action_for(s: SessionView, command: Command) -> Action {
    match command {
        Command::Quit => Action::Quit,
        _ => if is_edit(command) {
            Action::ArmDebounce { generation: (s.generation + 1) as u64 }
        } else {
            Action::Redraw
        },
    }
}

/// The debounce timer armed at generation `armed_for` fires and has to start
/// a ranking pass: no edit came since it was armed, and the query differs from
/// the last one a pass was started for.
pub open spec fn pass_is_due(s: SessionView, armed_for: nat) -> bool {
    s.phase is PendingDebounce && armed_for == s.generation && s.last_settled != Some(s.query)
}

/// The state after the debounce timer armed at generation `armed_for` fired.
/// A timer that an edit has superseded changes nothing. A quiet period that
/// ends on the query of the last pass settles at once, or waits for that pass.
/// Otherwise a pass starts, stamped with the generation.
pub open spec fn after_debounce(s: SessionView, armed_for: nat) -> SessionView {
    if !(s.phase is PendingDebounce) || armed_for != s.generation {
        s
    } else if s.last_settled == Some(s.query) {
        SessionView {
            phase: if s.in_flight is Some {
                Phase::Ranking
            } else {
                Phase::Settled
            },
            ..s
        }
    } else {
        SessionView {
            last_settled: Some(s.query),
            in_flight: Some(s.generation),
            phase: Phase::Ranking,
            ..s
        }
    }
}

/// The state after the ranking pass stamped `stamp` completed. Only the pass
/// started last is committed: both result lists are replaced by the ranking of
/// the query it was started for, and the cursor is brought back into the
/// displayed list. A pass that a later one has superseded changes nothing.
pub open spec fn after_pass(s: SessionView, stamp: nat) -> SessionView {
    if s.in_flight != Some(stamp) || s.last_settled is None {
        s
    } else {
        let key = match_key_of(s.last_settled->0);
        let committed = SessionView {
            shown_for: s.last_settled,
            file_results: ranked_displays(key, s.files),
            directory_results: ranked_displays(key, s.directories),
            in_flight: None,
            phase: if s.phase is Ranking {
                Phase::Settled
            } else {
                s.phase
            },
            ..s
        };
        SessionView { cursor: clamp_cursor(s.cursor, committed.results().len()), ..committed }
    }
}

/// The first `limit` entries of `results`, or all of them if there are fewer.
pub open spec fn first_page(results: Seq<Seq<char>>, limit: nat) -> Seq<Seq<char>> {
    if limit < results.len() {
        results.take(limit as int)
    } else {
        results
    }
}

/// The state after a run of commands, applied in order.
pub open spec fn after_commands(s: SessionView, commands: Seq<Command>) -> SessionView
    decreases commands.len(),
{
    if commands.len() == 0 {
        s
    } else {
        after_command(after_commands(s, commands.drop_last()), commands.last())
    }
}

/// Commands lead from valid states to valid states.
pub proof fn lemma_command_keeps_wf(s: SessionView, command: Command)
    requires
        s.wf(),
    ensures
        after_command(s, command).wf(),
{
}

/// A firing debounce timer leads from valid states to valid states.
pub proof fn lemma_debounce_keeps_wf(s: SessionView, armed_for: nat)
    requires
        s.wf(),
    ensures
        after_debounce(s, armed_for).wf(),
{
}

/// A completing pass leads from valid states to valid states.
pub proof fn lemma_pass_keeps_wf(s: SessionView, stamp: nat)
    requires
        s.wf(),
    ensures
        after_pass(s, stamp).wf(),
{
}

/// The displayed results always belong to a settled query: while no pass is
/// in flight they are the ranking of the query that the last pass was started
/// for, and in phase `Settled` that is the live query.
pub proof fn lemma_results_belong_to_settled_query(s: SessionView)
    requires
        s.wf(),
    ensures
        s.in_flight is None && s.last_settled is Some ==> s.file_results == ranked_displays(
            match_key_of(s.last_settled->0),
            s.files,
        ) && s.directory_results == ranked_displays(
            match_key_of(s.last_settled->0),
            s.directories,
        ),
        s.phase is Settled ==> s.file_results == ranked_displays(match_key_of(s.query), s.files)
            && s.directory_results == ranked_displays(match_key_of(s.query), s.directories),
{
}

/// A pass that was superseded is discarded: once a later pass has been
/// started, completing the earlier one changes nothing.
pub proof fn lemma_stale_pass_is_discarded(s: SessionView, stale: nat)
    requires
        s.wf(),
        s.in_flight matches Some(current) && stale != current,
    ensures
        after_pass(s, stale) == s,
{
}

/// Session settling, edit by edit. A burst of edits runs no ranking pass by
/// itself, and of the debounce timers that its edits armed only the last can
/// start one: the timer of edit `k` carries the generation
/// `s.generation + k + 1`, finds a later edit unless `k` is the last, and the
/// last starts one pass, for the final query, unless that is the query a pass
/// was last started for.
pub proof fn lemma_burst_settles_once(s: SessionView, edits: Seq<Command>, k: int)
    requires
        s.wf(),
        forall|i: int| 0 <= i < edits.len() ==> is_edit(#[trigger] edits[i]),
        0 <= k < edits.len(),
    ensures
        s.generation + k + 1 <= u64::MAX ==> action_for(
            after_commands(s, edits.take(k)),
            edits[k],
        ) == (Action::ArmDebounce { generation: (s.generation + k + 1) as u64 }),
        after_commands(s, edits).wf(),
        after_commands(s, edits).phase is PendingDebounce,
        after_commands(s, edits).generation == s.generation + edits.len(),
        after_commands(s, edits).in_flight == s.in_flight,
        after_commands(s, edits).last_settled == s.last_settled,
        after_commands(s, edits).file_results == s.file_results,
        after_commands(s, edits).directory_results == s.directory_results,
        k + 1 < edits.len() ==> !pass_is_due(after_commands(s, edits), s.generation + (k + 1) as nat)
            && after_debounce(after_commands(s, edits), s.generation + (k + 1) as nat)
            == after_commands(s, edits),
        k + 1 == edits.len() ==> (pass_is_due(
            after_commands(s, edits),
            s.generation + (k + 1) as nat,
        ) <==> after_commands(s, edits).last_settled != Some(after_commands(s, edits).query)),
{
    lemma_edits_only_edit(s, edits);
    lemma_edits_only_edit(s, edits.take(k));
}

/// The state after the debounce timers armed at the generations `stamps`
/// fired, in that order.
pub open spec fn after_timers(s: SessionView, stamps: Seq<nat>) -> SessionView
    decreases stamps.len(),
{
    if stamps.len() == 0 {
        s
    } else {
        after_debounce(after_timers(s, stamps.drop_last()), stamps.last())
    }
}

/// How many ranking passes the debounce timers armed at the generations
/// `stamps` started, firing in that order.
pub open spec fn passes_started(s: SessionView, stamps: Seq<nat>) -> nat
    decreases stamps.len(),
{
    if stamps.len() == 0 {
        0
    } else {
        passes_started(s, stamps.drop_last()) + if pass_is_due(
            after_timers(s, stamps.drop_last()),
            stamps.last(),
        ) {
            1nat
        } else {
            0nat
        }
    }
}

/// The generations that a burst of `count` edits arms its timers with, from a
/// state of generation `from`: one for each edit, rising by one.
pub open spec fn burst_stamps(from: nat, count: nat) -> Seq<nat> {
    Seq::new(count, |k: int| (from + k + 1) as nat)
}

/// Timers that an edit has superseded start nothing and change nothing.
proof fn lemma_superseded_timers_start_nothing(s: SessionView, stamps: Seq<nat>)
    requires
        forall|k: int| 0 <= k < stamps.len() ==> #[trigger] stamps[k] != s.generation,
    ensures
        after_timers(s, stamps) == s,
        passes_started(s, stamps) == 0,
    decreases stamps.len(),
{
    if stamps.len() > 0 {
        let front = stamps.drop_last();
        assert forall|k: int| 0 <= k < front.len() implies #[trigger] front[k] != s.generation by {
            assert(front[k] == stamps[k]);
        }
        lemma_superseded_timers_start_nothing(s, front);
        assert(stamps[stamps.len() - 1] != s.generation);
    }
}

/// Session settling. After a burst of edits, let every debounce timer that
/// the burst armed fire, in the order of the edits. Together they start one
/// ranking pass, for the query as the last edit left it, and none for a query
/// in between; they start none at all where the burst ends on the query that
/// a pass was last started for. The pass that was started, once complete,
/// leaves the session settled on the ranking of that final query.
pub proof fn lemma_burst_runs_one_pass(s: SessionView, edits: Seq<Command>)
    requires
        s.wf(),
        edits.len() > 0,
        forall|i: int| 0 <= i < edits.len() ==> is_edit(#[trigger] edits[i]),
    ensures
        ({
            let typed = after_commands(s, edits);
            let stamps = burst_stamps(s.generation, edits.len());
            let fired = after_timers(typed, stamps);
            let done = after_pass(fired, typed.generation);
            &&& typed.wf() && fired.wf() && done.wf()
            &&& fired.query == typed.query
            &&& passes_started(typed, stamps) == if typed.last_settled == Some(typed.query) {
                0nat
            } else {
                1nat
            }
            &&& typed.last_settled != Some(typed.query) ==> {
                &&& fired.phase is Ranking
                &&& fired.in_flight == Some(typed.generation)
                &&& fired.last_settled == Some(typed.query)
                &&& done.phase is Settled
                &&& done.query == typed.query
                &&& done.file_results == ranked_displays(match_key_of(typed.query), s.files)
                &&& done.directory_results == ranked_displays(
                    match_key_of(typed.query),
                    s.directories,
                )
            }
        }),
{
    let typed = after_commands(s, edits);
    let stamps = burst_stamps(s.generation, edits.len());
    let earlier = stamps.drop_last();
    lemma_edits_only_edit(s, edits);
    assert forall|k: int| 0 <= k < earlier.len() implies #[trigger] earlier[k]
        != typed.generation by {
        assert(earlier[k] == stamps[k]);
    }
    lemma_superseded_timers_start_nothing(typed, earlier);
    assert(stamps.last() == typed.generation);
    lemma_debounce_keeps_wf(typed, stamps.last());
    lemma_pass_keeps_wf(after_timers(typed, stamps), typed.generation);
}

/// Session settling, for typing after results were shown. From a settled
/// session, a burst of typed characters, none a space, always ends on a new
/// query: its timers start exactly one ranking pass.
pub proof fn lemma_typing_runs_one_pass(s: SessionView, edits: Seq<Command>)
    requires
        s.wf(),
        s.phase is Settled,
        edits.len() > 0,
        forall|i: int|
            0 <= i < edits.len() ==> is_edit(#[trigger] edits[i]) && edits[i] is InsertChar,
    ensures
        after_commands(s, edits).query.len() == s.query.len() + edits.len(),
        passes_started(after_commands(s, edits), burst_stamps(s.generation, edits.len())) == 1,
{
    lemma_typing_grows_query(s, edits);
    lemma_edits_only_edit(s, edits);
    lemma_burst_runs_one_pass(s, edits);
}

/// Every typed character makes the query one longer.
proof fn lemma_typing_grows_query(s: SessionView, edits: Seq<Command>)
    requires
        forall|i: int|
            0 <= i < edits.len() ==> is_edit(#[trigger] edits[i]) && edits[i] is InsertChar,
    ensures
        after_commands(s, edits).query.len() == s.query.len() + edits.len(),
    decreases edits.len(),
{
    if edits.len() > 0 {
        let front = edits.drop_last();
        assert forall|i: int| 0 <= i < front.len() implies is_edit(#[trigger] front[i])
            && front[i] is InsertChar by {
            assert(front[i] == edits[i]);
        }
        lemma_typing_grows_query(s, front);
        assert(is_edit(edits[edits.len() - 1]) && edits[edits.len() - 1] is InsertChar);
    }
}

/// What a run of edits changes: the query, the generation and the phase.
proof fn lemma_edits_only_edit(s: SessionView, edits: Seq<Command>)
    requires
        s.wf(),
        forall|i: int| 0 <= i < edits.len() ==> is_edit(#[trigger] edits[i]),
    ensures
        after_commands(s, edits).wf(),
        after_commands(s, edits) == (SessionView {
            query: after_commands(s, edits).query,
            generation: s.generation + edits.len(),
            phase: if edits.len() == 0 {
                s.phase
            } else {
                Phase::PendingDebounce
            },
            ..s
        }),
    decreases edits.len(),
{
    if edits.len() > 0 {
        let front = edits.drop_last();
        assert forall|i: int| 0 <= i < front.len() implies is_edit(#[trigger] front[i]) by {
            assert(front[i] == edits[i]);
        }
        lemma_edits_only_edit(s, front);
        assert(is_edit(edits[edits.len() - 1]));
    }
}

/// The live state of one interactive search.
pub struct Session {
    files: Vec<Candidate>,
    directories: Vec<Candidate>,
    current_query: String,
    last_settled_query: Option<String>,
    shown_for: Ghost<Option<Seq<char>>>,
    file_results: Vec<String>,
    directory_results: Vec<String>,
    selection_cursor: usize,
    mode: SearchMode,
    phase: Phase,
    generation: u64,
    in_flight: Option<u64>,
}

impl View for Session {
    type V = SessionView;

    closed spec fn view(&self) -> SessionView {
        SessionView {
            files: self.files@,
            directories: self.directories@,
            query: self.current_query@,
            last_settled: match self.last_settled_query {
                Some(text) => Some(text@),
                None => None,
            },
            shown_for: self.shown_for@,
            file_results: self.file_results.deep_view(),
            directory_results: self.directory_results.deep_view(),
            cursor: self.selection_cursor as nat,
            mode: self.mode,
            phase: self.phase,
            generation: self.generation as nat,
            in_flight: match self.in_flight {
                Some(stamp) => Some(stamp as nat),
                None => None,
            },
        }
    }
}

impl Session {
    /// Starts a session over the two corpora: empty query, empty results, idle.
    pub fn new(files: Vec<Candidate>, directories: Vec<Candidate>) -> (session: Session)
        ensures
            session@.wf(),
            session@ == (SessionView {
                files: files@,
                directories: directories@,
                query: Seq::<char>::empty(),
                last_settled: None,
                shown_for: None,
                file_results: Seq::<Seq<char>>::empty(),
                directory_results: Seq::<Seq<char>>::empty(),
                cursor: 0,
                mode: SearchMode::Files,
                phase: Phase::Idle,
                generation: 0,
                in_flight: None,
            }),
    {
        let session = Session {
            files,
            directories,
            current_query: String::new(),
            last_settled_query: None,
            shown_for: Ghost(None),
            file_results: Vec::new(),
            directory_results: Vec::new(),
            selection_cursor: 0,
            mode: SearchMode::Files,
            phase: Phase::Idle,
            generation: 0,
            in_flight: None,
        };
        assert(session.file_results.deep_view() =~= Seq::<Seq<char>>::empty());
        assert(session.directory_results.deep_view() =~= Seq::<Seq<char>>::empty());
        session
    }

    /// Applies one input command. Edits change the query, advance the
    /// generation and ask for the debounce timer; they never touch the results.
    /// Navigation moves the cursor or switches the displayed list. `Quit`
    /// changes nothing and asks the host to end the session.
    pub fn handle_command(&mut self, command: Command) -> (action: Action)
        requires
            old(self)@.wf(),
            is_edit(command) ==> old(self)@.generation < u64::MAX,
        ensures
            final(self)@.wf(),
            final(self)@ == after_command(old(self)@, command),
            action == action_for(old(self)@, command),
    {
        match command {
            Command::Quit => Action::Quit,
            Command::InsertChar(c) => {
                if c == ' ' {
                    Action::Redraw
                } else {
                    self.current_query.push(c);
                    self.note_edit()
                }
            },
            Command::Backspace => {
                self.current_query.pop();
                self.note_edit()
            },
            Command::MoveUp => {
                if self.selection_cursor > 0 {
                    self.selection_cursor = self.selection_cursor - 1;
                }
                Action::Redraw
            },
            Command::MoveDown => {
                let shown = match self.mode {
                    SearchMode::Files => self.file_results.len(),
                    SearchMode::Directories => self.directory_results.len(),
                };
                if self.selection_cursor < usize::MAX && self.selection_cursor + 1 < shown {
                    self.selection_cursor = self.selection_cursor + 1;
                }
                Action::Redraw
            },
            Command::SwitchMode => {
                self.mode = match self.mode {
                    SearchMode::Files => SearchMode::Directories,
                    SearchMode::Directories => SearchMode::Files,
                };
                self.clamp_selection();
                Action::Redraw
            },
        }
    }

    /// After the query text changed: a new generation, and the debounce
    /// timer is due.
    fn note_edit(&mut self) -> (action: Action)
        requires
            old(self).generation < u64::MAX,
        ensures
            *final(self) == (Session {
                generation: (old(self).generation + 1) as u64,
                phase: Phase::PendingDebounce,
                ..*old(self)
            }),
            action == (Action::ArmDebounce { generation: (old(self).generation + 1) as u64 }),
    {
        self.generation = self.generation + 1;
        self.phase = Phase::PendingDebounce;
        Action::ArmDebounce { generation: self.generation }
    }

    /// Brings the cursor back into the displayed list.
    fn clamp_selection(&mut self)
        ensures
            *final(self) == (Session {
                selection_cursor: clamp_cursor(
                    old(self).selection_cursor as nat,
                    old(self)@.results().len(),
                ) as usize,
                ..*old(self)
            }),
    {
        let shown = match self.mode {
            SearchMode::Files => self.file_results.len(),
            SearchMode::Directories => self.directory_results.len(),
        };
        if self.selection_cursor >= shown {
            self.selection_cursor = if shown == 0 {
                0
            } else {
                shown - 1
            };
        }
    }

    /// The debounce timer that `ArmDebounce { generation: armed_for }` asked
    /// for has fired. Returns the stamp of the ranking pass that this starts,
    /// to be handed to `complete_pass`, or `None` where no pass is due.
    pub fn debounce_elapsed(&mut self, armed_for: u64) -> (started: Option<u64>)
        requires
            old(self)@.wf(),
        ensures
            final(self)@.wf(),
            final(self)@ == after_debounce(old(self)@, armed_for as nat),
            started == if pass_is_due(old(self)@, armed_for as nat) {
                Some(armed_for)
            } else {
                None
            },
    {
        let pending = match self.phase {
            Phase::PendingDebounce => true,
            _ => false,
        };
        if !pending || armed_for != self.generation {
            return None;
        }
        let unchanged = match &self.last_settled_query {
            Some(text) => *text == self.current_query,
            None => false,
        };
        if unchanged {
            self.phase = match self.in_flight {
                Some(_) => Phase::Ranking,
                None => Phase::Settled,
            };
            None
        } else {
            self.last_settled_query = Some(self.current_query.clone());
            self.in_flight = Some(self.generation);
            self.phase = Phase::Ranking;
            Some(armed_for)
        }
    }

    /// Runs and commits the ranking pass stamped `stamp`, unless a later pass
    /// has superseded it. Returns whether the results were replaced.
    pub fn complete_pass(&mut self, stamp: u64) -> (committed: bool)
        requires
            old(self)@.wf(),
        ensures
            final(self)@.wf(),
            final(self)@ == after_pass(old(self)@, stamp as nat),
            committed <==> old(self)@.in_flight == Some(stamp as nat),
    {
        let current = match self.in_flight {
            Some(started) => started == stamp,
            None => false,
        };
        if !current {
            return false;
        }
        let key = match &self.last_settled_query {
            Some(text) => prepare_fuzzy_target(text.as_str()),
            None => {
                return false;
            },
        };
        let for_directories = key.clone();
        self.file_results = greedy_match_filter(key, self.files.as_slice());
        self.directory_results = greedy_match_filter(for_directories, self.directories.as_slice());
        proof {
            self.shown_for = Ghost(old(self)@.last_settled);
        }
        self.in_flight = None;
        self.phase = match self.phase {
            Phase::Ranking => Phase::Settled,
            other => other,
        };
        self.clamp_selection();
        true
    }

    /// The live query text.
    pub fn current_query(&self) -> (text: &str)
        ensures
            text@ == self@.query,
    {
        self.current_query.as_str()
    }

    /// The query that the last ranking pass was started for, if any was.
    pub fn last_settled_query(&self) -> (text: Option<&str>)
        ensures
            match text {
                Some(t) => self@.last_settled == Some(t@),
                None => self@.last_settled is None,
            },
    {
        match &self.last_settled_query {
            Some(text) => Some(text.as_str()),
            None => None,
        }
    }

    /// The result list that the current mode displays, best match first.
    pub fn ranked_results(&self) -> (results: &Vec<String>)
        ensures
            results.deep_view() == self@.results(),
    {
        match self.mode {
            SearchMode::Files => &self.file_results,
            SearchMode::Directories => &self.directory_results,
        }
    }

    /// The part of the displayed list that fits a page of `limit` entries.
    pub fn page(&self, limit: usize) -> (shown: Vec<String>)
        ensures
            shown.deep_view() == first_page(self@.results(), limit as nat),
    {
        let results = self.ranked_results();
        let count = if limit < results.len() {
            limit
        } else {
            results.len()
        };
        let mut shown: Vec<String> = Vec::new();
        let mut i: usize = 0;
        while i < count
            invariant
                i <= count <= results@.len(),
                shown@.len() == i,
                forall|j: int| 0 <= j < i ==> (#[trigger] shown@[j])@ == results@[j]@,
            decreases count - i,
        {
            shown.push(results[i].clone());
            i += 1;
        }
        assert(shown.deep_view() =~= first_page(results.deep_view(), limit as nat));
        shown
    }

    /// Position of the selected entry in the displayed list.
    pub fn selection_cursor(&self) -> (cursor: usize)
        ensures
            cursor == self@.cursor,
    {
        self.selection_cursor
    }

    /// Which list is displayed.
    pub fn mode(&self) -> (mode: SearchMode)
        ensures
            mode == self@.mode,
    {
        self.mode
    }

    /// Where the controller stands.
    pub fn phase(&self) -> (phase: Phase)
        ensures
            phase == self@.phase,
    {
        self.phase
    }

    /// The number of edits so far: the tag of the current query state.
    pub fn generation(&self) -> (generation: u64)
        ensures
            generation == self@.generation,
    {
        self.generation
    }
}

} // verus!
