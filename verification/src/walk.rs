//! The corpus indexer: which directories a walk skips, the work list that
//! drives the walk, and the distinct parent directories of what it found.
//! Listing a directory is the host's part; every decision is made here.

use std::path::Path;
use vstd::prelude::*;

verus! {

/// Whether `Path::starts_with` of the standard library finds `prefix` to be a
/// leading run of whole components of `path`.
pub uninterp spec fn path_has_prefix(path: Seq<char>, prefix: Seq<char>) -> bool;

/// The parent that `Path::parent` of the standard library gives for `path`;
/// `None` for a root or an empty path.
pub uninterp spec fn parent_text(path: Seq<char>) -> Option<Seq<char>>;

/// `Path::starts_with`, on paths given as text: the answer is the one named by
/// `path_has_prefix`.
#[verifier::external_body]
fn path_starts_with(path: &str, prefix: &str) -> (under: bool)
    ensures
        under == path_has_prefix(path@, prefix@),
{
    Path::new(path).starts_with(prefix)
}

/// `Path::parent`, on a path given as text: the parent named by `parent_text`,
/// as text again.
#[verifier::external_body]
fn parent_of(path: &str) -> (parent: Option<String>)
    ensures
        match parent {
            Some(text) => parent_text(path@) == Some(text@),
            None => parent_text(path@) is None,
        },
{
    Path::new(path).parent().map(|parent| parent.to_string_lossy().into_owned())
}

/// The texts of a list of strings.
pub open spec fn texts(items: Seq<String>) -> Seq<Seq<char>> {
    Seq::new(items.len(), |i: int| items[i]@)
}

/// `path` lies under one of the excluded subtree prefixes.
pub open spec fn is_excluded(path: Seq<char>, excluded: Seq<Seq<char>>) -> bool {
    exists|i: int| 0 <= i < excluded.len() && path_has_prefix(path, #[trigger] excluded[i])
}

/// Decides whether a walk leaves `path` out: it does when the path lies under
/// one of the prefixes in `excluded`.
pub fn should_ignore(path: &str, excluded: &[String]) -> (ignored: bool)
    ensures
        ignored == is_excluded(path@, texts(excluded@)),
{
    let mut i: usize = 0;
    while i < excluded.len()
        invariant
            i <= excluded@.len(),
            forall|j: int| 0 <= j < i ==> !path_has_prefix(path@, #[trigger] texts(excluded@)[j]),
        decreases excluded@.len() - i,
    {
        if path_starts_with(path, excluded[i].as_str()) {
            assert(path_has_prefix(path@, texts(excluded@)[i as int]));
            return true;
        }
        i += 1;
    }
    false
}

/// The distinct parent directories of `paths`, each where it first occurs.
pub open spec fn unique_parents(paths: Seq<Seq<char>>) -> Seq<Seq<char>>
    decreases paths.len(),
{
    if paths.len() == 0 {
        Seq::empty()
    } else {
        let front = unique_parents(paths.drop_last());
        match parent_text(paths.last()) {
            Some(parent) => if front.contains(parent) {
                front
            } else {
                front.push(parent)
            },
            None => front,
        }
    }
}

/// No directory is listed twice, and the directories listed are exactly the
/// parents of the paths.
pub proof fn lemma_unique_parents(paths: Seq<Seq<char>>)
    ensures
        unique_parents(paths).no_duplicates(),
        forall|dir: Seq<char>|
            unique_parents(paths).contains(dir) <==> exists|i: int|
                0 <= i < paths.len() && parent_text(#[trigger] paths[i]) == Some(dir),
    decreases paths.len(),
{
    if paths.len() > 0 {
        let front_paths = paths.drop_last();
        let front = unique_parents(front_paths);
        let all = unique_parents(paths);
        lemma_unique_parents(front_paths);
        assert forall|dir: Seq<char>| all.contains(dir) <==> exists|i: int|
            0 <= i < paths.len() && parent_text(#[trigger] paths[i]) == Some(dir) by {
            if all.contains(dir) {
                let k = choose|k: int| 0 <= k < all.len() && all[k] == dir;
                if k < front.len() {
                    assert(front[k] == dir);
                    assert(front.contains(dir));
                    let i = choose|i: int|
                        0 <= i < front_paths.len() && parent_text(#[trigger] front_paths[i])
                            == Some(dir);
                    assert(paths[i] == front_paths[i]);
                } else {
                    assert(parent_text(paths[paths.len() - 1]) == Some(dir));
                }
            }
            if exists|i: int| 0 <= i < paths.len() && parent_text(#[trigger] paths[i]) == Some(dir) {
                let i = choose|i: int|
                    0 <= i < paths.len() && parent_text(#[trigger] paths[i]) == Some(dir);
                if i < front_paths.len() {
                    assert(front_paths[i] == paths[i]);
                    assert(front.contains(dir));
                    let k = choose|k: int| 0 <= k < front.len() && front[k] == dir;
                    assert(all[k] == dir);
                } else if !front.contains(dir) {
                    assert(all[all.len() - 1] == dir);
                } else {
                    let k = choose|k: int| 0 <= k < front.len() && front[k] == dir;
                    assert(all[k] == dir);
                }
            }
        }
    }
}

/// Whether `wanted` is among `items`.
fn contains_text(items: &Vec<String>, wanted: &String) -> (found: bool)
    ensures
        found == items.deep_view().contains(wanted@),
{
    let mut i: usize = items.len();
    while i > 0
        invariant
            i <= items@.len(),
            forall|j: int| i <= j < items@.len() ==> (#[trigger] items@[j])@ != wanted@,
        decreases i,
    {
        i -= 1;
        if items[i] == *wanted {
            assert(items.deep_view()[i as int] == wanted@);
            return true;
        }
    }
    assert forall|j: int| 0 <= j < items.deep_view().len() implies items.deep_view()[j]
        != wanted@ by {
        assert(items.deep_view()[j] == items@[j]@);
    }
    false
}

/// The set of directories that contain the indexed files: the candidates of
/// the directory search. Each directory is listed once, at the place of its
/// first file. Directories are told apart by their text: two spellings of one
/// directory, such as `/a/b` and `/a//b`, are two entries. The paths of one
/// walk spell a directory in one way. The work grows with the number of paths
/// times the number of distinct directories.
pub fn unique_parent_dirs(paths: &[String]) -> (dirs: Vec<String>)
    ensures
        dirs.deep_view() == unique_parents(texts(paths@)),
{
    let ghost all = texts(paths@);
    let mut dirs: Vec<String> = Vec::new();
    let mut i: usize = 0;
    assert(all.take(0) =~= Seq::<Seq<char>>::empty());
    assert(dirs.deep_view() =~= Seq::<Seq<char>>::empty());
    while i < paths.len()
        invariant
            i <= paths@.len(),
            all == texts(paths@),
            dirs.deep_view() == unique_parents(all.take(i as int)),
        decreases paths@.len() - i,
    {
        proof {
            assert(all.take(i + 1).drop_last() =~= all.take(i as int));
            assert(all.take(i + 1).last() == paths@[i as int]@);
        }
        let ghost before = dirs.deep_view();
        match parent_of(paths[i].as_str()) {
            Some(parent) => {
                if !contains_text(&dirs, &parent) {
                    dirs.push(parent);
                    assert(dirs.deep_view() =~= before.push(parent@));
                }
            },
            None => {},
        }
        i += 1;
    }
    assert(all.take(i as int) =~= all);
    dirs
}

/// What a directory entry is, as far as the walk cares.
#[derive(Clone, Copy, Debug, PartialEq, Eq)]
pub enum EntryKind {
    /// A regular file: it joins the corpus.
    File,
    /// A directory: it is walked in turn, unless excluded or too deep.
    Directory,
    /// Anything else, or an entry whose kind could not be read: it is skipped.
    Other,
}

/// One entry of a directory listing, as the host read it.
#[derive(Clone, Debug)]
pub struct DirEntryInfo {
    pub path: String,
    pub kind: EntryKind,
}

/// A directory entry as contracts see it.
pub struct EntryView {
    pub path: Seq<char>,
    pub kind: EntryKind,
}

impl View for DirEntryInfo {
    type V = EntryView;

    open spec fn view(&self) -> EntryView {
        EntryView { path: self.path@, kind: self.kind }
    }
}

/// A directory that waits to be listed, and how far below the root it lies.
#[derive(Clone, Debug)]
pub struct PendingDir {
    pub path: String,
    pub depth: usize,
}

/// A waiting directory as contracts see it.
pub struct PendingView {
    pub path: Seq<char>,
    pub depth: nat,
}

impl View for PendingDir {
    type V = PendingView;

    open spec fn view(&self) -> PendingView {
        PendingView { path: self.path@, depth: self.depth as nat }
    }
}

/// What came of listing one directory.
#[derive(Clone, Debug)]
pub enum Listing {
    /// The entries of the directory, unreadable ones left out.
    Entries(Vec<DirEntryInfo>),
    /// The directory could not be opened.
    Unreadable,
}

/// The views of a list of directory entries.
pub open spec fn entry_views(entries: Seq<DirEntryInfo>) -> Seq<EntryView> {
    Seq::new(entries.len(), |i: int| entries[i]@)
}

/// The views of a list of waiting directories.
pub open spec fn pending_views(pending: Seq<PendingDir>) -> Seq<PendingView> {
    Seq::new(pending.len(), |i: int| pending[i]@)
}

impl View for Listing {
    type V = Option<Seq<EntryView>>;

    open spec fn view(&self) -> Option<Seq<EntryView>> {
        match self {
            Listing::Entries(entries) => Some(entry_views(entries@)),
            Listing::Unreadable => None,
        }
    }
}

/// The paths of the regular files among `entries`, in order.
pub open spec fn files_among(entries: Seq<EntryView>) -> Seq<Seq<char>>
    decreases entries.len(),
{
    if entries.len() == 0 {
        Seq::empty()
    } else if entries.last().kind is File {
        files_among(entries.drop_last()).push(entries.last().path)
    } else {
        files_among(entries.drop_last())
    }
}

/// The directories among `entries` that the walk descends into, in order, each
/// at `depth`: those that lie under no excluded prefix.
pub open spec fn subdirs_among(entries: Seq<EntryView>, excluded: Seq<Seq<char>>, depth: nat) -> Seq<
    PendingView,
>
    decreases entries.len(),
{
    if entries.len() == 0 {
        Seq::empty()
    } else if entries.last().kind is Directory && !is_excluded(entries.last().path, excluded) {
        subdirs_among(entries.drop_last(), excluded, depth).push(
            PendingView { path: entries.last().path, depth },
        )
    } else {
        subdirs_among(entries.drop_last(), excluded, depth)
    }
}

/// The walk as contracts see it.
pub struct WalkerView {
    pub pending: Seq<PendingView>,
    pub files: Seq<Seq<char>>,
    pub excluded: Seq<Seq<char>>,
    pub max_depth: nat,
}

/// The walk after the listing of a directory that lies `depth` levels below
/// the root. A directory that could not be opened changes nothing: the walk
/// goes on with what is pending. Of a listing, the files are added to those
/// found, and the directories to descend into are added to the pending ones
/// unless the depth cap is reached.
pub open spec fn after_listing(w: WalkerView, depth: nat, listing: Option<Seq<EntryView>>) -> WalkerView {
    match listing {
        None => w,
        Some(entries) => WalkerView {
            files: w.files + files_among(entries),
            pending: if depth < w.max_depth {
                w.pending + subdirs_among(entries, w.excluded, depth + 1)
            } else {
                w.pending
            },
            ..w
        },
    }
}

/// Nothing that was found is lost, whatever a later listing brings, and
/// nothing that waits is dropped.
pub proof fn lemma_listing_keeps_progress(w: WalkerView, depth: nat, listing: Option<Seq<EntryView>>)
    ensures
        w.files.is_prefix_of(after_listing(w, depth, listing).files),
        w.pending.is_prefix_of(after_listing(w, depth, listing).pending),
        listing is None ==> after_listing(w, depth, listing) == w,
{
}

/// A directory tree as a walk meets it: the listing of every directory that
/// can be opened. A directory that is not in the map cannot be opened.
pub open spec fn listing_in(tree: Map<Seq<char>, Seq<EntryView>>, dir: Seq<char>) -> Option<
    Seq<EntryView>,
> {
    if tree.dom().contains(dir) {
        Some(tree[dir])
    } else {
        None
    }
}

/// Directory `dir` can be opened and lists an entry `path` of kind `kind`.
pub open spec fn lists(
    tree: Map<Seq<char>, Seq<EntryView>>,
    dir: Seq<char>,
    path: Seq<char>,
    kind: EntryKind,
) -> bool {
    tree.dom().contains(dir) && exists|j: int|
        0 <= j < tree[dir].len() && (#[trigger] tree[dir][j]).path == path && tree[dir][j].kind
            == kind
}

/// `route` leads down the tree: each directory on it can be opened and lists
/// the next one, which lies under no excluded prefix and within the depth cap.
pub open spec fn is_route(
    tree: Map<Seq<char>, Seq<EntryView>>,
    excluded: Seq<Seq<char>>,
    max_depth: nat,
    route: Seq<Seq<char>>,
) -> bool {
    &&& route.len() > 0
    &&& forall|i: int|
        0 <= i < route.len() - 1 ==> i < max_depth && lists(
            tree,
            #[trigger] route[i],
            route[i + 1],
            EntryKind::Directory,
        ) && !is_excluded(route[i + 1], excluded)
}

/// One turn of the walk: the directory that waits at position `at` is handed
/// out and its listing in `tree` is taken in. `next_directory` hands out the
/// one that waits last; a host that works through `take_pending` takes them
/// from the front.
pub open spec fn walk_step(w: WalkerView, tree: Map<Seq<char>, Seq<EntryView>>, at: int) -> WalkerView {
    after_listing(
        WalkerView { pending: w.pending.remove(at), ..w },
        w.pending[at].depth,
        listing_in(tree, w.pending[at].path),
    )
}

/// The walk after the turns that `picks` chooses, one waiting directory each,
/// ended early at a pick that names no waiting directory.
pub open spec fn walk_turns(w: WalkerView, tree: Map<Seq<char>, Seq<EntryView>>, picks: Seq<int>) -> WalkerView
    decreases picks.len(),
{
    if picks.len() == 0 || !(0 <= picks[0] < w.pending.len()) {
        w
    } else {
        walk_turns(walk_step(w, tree, picks[0]), tree, picks.drop_first())
    }
}

/// File `file` is found, or a directory of `route` still waits at its depth.
spec fn found_or_waits(w: WalkerView, route: Seq<Seq<char>>, file: Seq<char>) -> bool {
    w.files.contains(file) || exists|i: int|
        0 <= i < route.len() && w.pending.contains(
            PendingView { path: #[trigger] route[i], depth: i as nat },
        )
}

proof fn lemma_files_among_has(entries: Seq<EntryView>, j: int)
    requires
        0 <= j < entries.len(),
        entries[j].kind is File,
    ensures
        files_among(entries).contains(entries[j].path),
    decreases entries.len(),
{
    let front = files_among(entries.drop_last());
    if j == entries.len() - 1 {
        assert(front.push(entries.last().path)[front.len() as int] == entries[j].path);
    } else {
        lemma_files_among_has(entries.drop_last(), j);
        let k = choose|k: int| 0 <= k < front.len() && front[k] == entries[j].path;
        assert(files_among(entries)[k] == entries[j].path);
    }
}

proof fn lemma_subdirs_among_has(
    entries: Seq<EntryView>,
    excluded: Seq<Seq<char>>,
    depth: nat,
    j: int,
)
    requires
        0 <= j < entries.len(),
        entries[j].kind is Directory,
        !is_excluded(entries[j].path, excluded),
    ensures
        subdirs_among(entries, excluded, depth).contains(
            PendingView { path: entries[j].path, depth },
        ),
    decreases entries.len(),
{
    let wanted = PendingView { path: entries[j].path, depth };
    let front = subdirs_among(entries.drop_last(), excluded, depth);
    if j == entries.len() - 1 {
        assert(front.push(wanted)[front.len() as int] == wanted);
    } else {
        lemma_subdirs_among_has(entries.drop_last(), excluded, depth, j);
        let k = choose|k: int| 0 <= k < front.len() && front[k] == wanted;
        assert(subdirs_among(entries, excluded, depth)[k] == wanted);
    }
}

proof fn lemma_turn_keeps_route(
    w: WalkerView,
    tree: Map<Seq<char>, Seq<EntryView>>,
    pick: int,
    route: Seq<Seq<char>>,
    file: Seq<char>,
)
    requires
        0 <= pick < w.pending.len(),
        is_route(tree, w.excluded, w.max_depth, route),
        lists(tree, route.last(), file, EntryKind::File),
        found_or_waits(w, route, file),
    ensures
        found_or_waits(walk_step(w, tree, pick), route, file),
{
    let next = walk_step(w, tree, pick);
    let handed = w.pending[pick];
    let left = w.pending.remove(pick);
    lemma_listing_keeps_progress(
        WalkerView { pending: left, ..w },
        handed.depth,
        listing_in(tree, handed.path),
    );
    if w.files.contains(file) {
        let k = choose|k: int| 0 <= k < w.files.len() && w.files[k] == file;
        assert(next.files[k] == file);
    } else {
        let i = choose|i: int|
            0 <= i < route.len() && w.pending.contains(
                PendingView { path: #[trigger] route[i], depth: i as nat },
            );
        let waiting = PendingView { path: route[i], depth: i as nat };
        let at = choose|at: int| 0 <= at < w.pending.len() && w.pending[at] == waiting;
        if at != pick {
            let kept = if at < pick {
                at
            } else {
                at - 1
            };
            assert(left[kept] == waiting);
            assert(next.pending[kept] == waiting);
            assert(next.pending.contains(PendingView { path: route[i], depth: i as nat }));
        } else {
            assert(handed == waiting);
            if i == route.len() - 1 {
                let entries = tree[route[i]];
                let j = choose|j: int|
                    0 <= j < entries.len() && (#[trigger] entries[j]).path == file
                        && entries[j].kind == EntryKind::File;
                lemma_files_among_has(entries, j);
                let found = files_among(entries);
                let k = choose|k: int| 0 <= k < found.len() && found[k] == file;
                assert(next.files[w.files.len() + k] == file);
            } else {
                assert(lists(tree, route[i], route[i + 1], EntryKind::Directory));
                let entries = tree[route[i]];
                let j = choose|j: int|
                    0 <= j < entries.len() && (#[trigger] entries[j]).path == route[i + 1]
                        && entries[j].kind == EntryKind::Directory;
                lemma_subdirs_among_has(entries, w.excluded, (i + 1) as nat, j);
                let below = subdirs_among(entries, w.excluded, (i + 1) as nat);
                let wanted = PendingView { path: route[i + 1], depth: (i + 1) as nat };
                let k = choose|k: int| 0 <= k < below.len() && below[k] == wanted;
                assert(next.pending[left.len() + k] == wanted);
                assert(next.pending.contains(
                    PendingView { path: route[i + 1], depth: (i + 1) as nat },
                ));
            }
        }
    }
}

proof fn lemma_turns_keep_route(
    w: WalkerView,
    tree: Map<Seq<char>, Seq<EntryView>>,
    picks: Seq<int>,
    route: Seq<Seq<char>>,
    file: Seq<char>,
)
    requires
        is_route(tree, w.excluded, w.max_depth, route),
        lists(tree, route.last(), file, EntryKind::File),
        found_or_waits(w, route, file),
    ensures
        found_or_waits(walk_turns(w, tree, picks), route, file),
    decreases picks.len(),
{
    if picks.len() > 0 && 0 <= picks[0] < w.pending.len() {
        lemma_turn_keeps_route(w, tree, picks[0], route, file);
        lemma_turns_keep_route(walk_step(w, tree, picks[0]), tree, picks.drop_first(), route, file);
    }
}

/// The walk at its start: the root waits, nothing is found.
pub open spec fn walk_start(root: Seq<char>, excluded: Seq<Seq<char>>, max_depth: nat) -> WalkerView {
    WalkerView {
        pending: seq![PendingView { path: root, depth: 0 }],
        files: Seq::empty(),
        excluded,
        max_depth,
    }
}

/// Indexer resilience. Whatever directories of the tree cannot be opened, and
/// in whatever order the waiting directories are taken, a walk that has come
/// to its end has found every file that a directory lists which is reached
/// from the root through directories that can be opened, are not excluded and
/// lie within the depth cap. No file of a readable subtree is missing because
/// another subtree could not be read.
pub proof fn lemma_walk_finds_readable_files(
    root: Seq<char>,
    excluded: Seq<Seq<char>>,
    max_depth: nat,
    tree: Map<Seq<char>, Seq<EntryView>>,
    picks: Seq<int>,
    route: Seq<Seq<char>>,
    file: Seq<char>,
)
    requires
        walk_turns(walk_start(root, excluded, max_depth), tree, picks).pending.len() == 0,
        is_route(tree, excluded, max_depth, route),
        route[0] == root,
        lists(tree, route.last(), file, EntryKind::File),
    ensures
        walk_turns(walk_start(root, excluded, max_depth), tree, picks).files.contains(file),
{
    let start = walk_start(root, excluded, max_depth);
    assert(start.pending[0] == PendingView { path: route[0], depth: 0 });
    assert(start.pending.contains(PendingView { path: route[0], depth: 0 }));
    lemma_turns_keep_route(start, tree, picks, route, file);
    let end = walk_turns(start, tree, picks);
    if !end.files.contains(file) {
        let i = choose|i: int|
            0 <= i < route.len() && end.pending.contains(
                PendingView { path: #[trigger] route[i], depth: i as nat },
            );
        let waiting = PendingView { path: route[i], depth: i as nat };
        let at = choose|at: int| 0 <= at < end.pending.len() && end.pending[at] == waiting;
    }
}

/// The walk after the listings in `tree` of the directories of `batch` were
/// taken in, in order.
pub open spec fn after_batch(
    w: WalkerView,
    tree: Map<Seq<char>, Seq<EntryView>>,
    batch: Seq<PendingView>,
) -> WalkerView
    decreases batch.len(),
{
    if batch.len() == 0 {
        w
    } else {
        after_batch(
            after_listing(w, batch[0].depth, listing_in(tree, batch[0].path)),
            tree,
            batch.drop_first(),
        )
    }
}

/// Picks that take the directory at the front, `count` times.
pub open spec fn front_picks(count: nat) -> Seq<int> {
    Seq::new(count, |k: int| 0int)
}

proof fn lemma_front_turns_are_batch(
    w: WalkerView,
    tree: Map<Seq<char>, Seq<EntryView>>,
    rest: Seq<PendingView>,
    extra: Seq<PendingView>,
)
    requires
        w.pending == rest + extra,
    ensures
        walk_turns(w, tree, front_picks(rest.len())) == after_batch(
            WalkerView { pending: extra, ..w },
            tree,
            rest,
        ),
    decreases rest.len(),
{
    if rest.len() == 0 {
        assert(rest + extra =~= extra);
    } else {
        let picks = front_picks(rest.len());
        let turned = walk_step(w, tree, 0);
        let absorbed = after_listing(
            WalkerView { pending: extra, ..w },
            rest[0].depth,
            listing_in(tree, rest[0].path),
        );
        assert(w.pending[0] == rest[0]);
        assert(w.pending.remove(0) =~= rest.drop_first() + extra);
        assert(turned.pending =~= rest.drop_first() + absorbed.pending);
        assert(absorbed == (WalkerView { pending: absorbed.pending, ..turned }));
        assert(picks.drop_first() =~= front_picks((rest.len() - 1) as nat));
        lemma_front_turns_are_batch(turned, tree, rest.drop_first(), absorbed.pending);
    }
}

/// Taking in the listings of everything that waits, in order, as a host does
/// that works through `take_pending`, is a run of turns from the front.
pub proof fn lemma_batch_is_turns(w: WalkerView, tree: Map<Seq<char>, Seq<EntryView>>)
    ensures
        after_batch(
            WalkerView { pending: Seq::<PendingView>::empty(), ..w },
            tree,
            w.pending,
        ) == walk_turns(w, tree, front_picks(w.pending.len())),
{
    assert(w.pending + Seq::<PendingView>::empty() =~= w.pending);
    lemma_front_turns_are_batch(w, tree, w.pending, Seq::<PendingView>::empty());
}

/// Handing out the directory that waits last and taking in its listing, as
/// `next_directory` and `absorb` do, is the turn at the last position.
pub proof fn lemma_last_turn(w: WalkerView, tree: Map<Seq<char>, Seq<EntryView>>)
    requires
        w.pending.len() > 0,
    ensures
        walk_step(w, tree, w.pending.len() - 1) == after_listing(
            WalkerView { pending: w.pending.drop_last(), ..w },
            w.pending.last().depth,
            listing_in(tree, w.pending.last().path),
        ),
{
    assert(w.pending.remove(w.pending.len() - 1) =~= w.pending.drop_last());
}

/// A directory that cannot be opened costs a turn and nothing else: the walk
/// goes on with the directories that wait, and keeps the files it has found.
pub proof fn lemma_unreadable_directory_is_skipped(
    w: WalkerView,
    tree: Map<Seq<char>, Seq<EntryView>>,
    at: int,
)
    requires
        0 <= at < w.pending.len(),
        !tree.dom().contains(w.pending[at].path),
    ensures
        walk_step(w, tree, at) == (WalkerView { pending: w.pending.remove(at), ..w }),
{
}

/// The state of one walk over a directory tree: the directories still to be
/// listed and the files found so far.
pub struct Walker {
    pending: Vec<PendingDir>,
    files: Vec<String>,
    excluded: Vec<String>,
    max_depth: usize,
}

impl View for Walker {
    type V = WalkerView;

    closed spec fn view(&self) -> WalkerView {
        WalkerView {
            pending: pending_views(self.pending@),
            files: self.files.deep_view(),
            excluded: texts(self.excluded@),
            max_depth: self.max_depth as nat,
        }
    }
}

impl Walker {
    /// Starts a walk at `root`. Directories under a prefix in `excluded` are
    /// not entered, nor those more than `max_depth` levels below the root.
    pub fn new(root: String, excluded: Vec<String>, max_depth: usize) -> (walker: Walker)
        ensures
            walker@ == (WalkerView {
                pending: seq![PendingView { path: root@, depth: 0 }],
                files: Seq::<Seq<char>>::empty(),
                excluded: texts(excluded@),
                max_depth: max_depth as nat,
            }),
    {
        let mut pending: Vec<PendingDir> = Vec::new();
        pending.push(PendingDir { path: root, depth: 0 });
        let walker = Walker { pending, files: Vec::new(), excluded, max_depth };
        assert(walker@.pending =~= seq![PendingView { path: root@, depth: 0 }]);
        assert(walker@.files =~= Seq::<Seq<char>>::empty());
        walker
    }

    /// Hands out the directory to list next, or `None` when the walk is over.
    /// Each pending directory is handed out once.
    pub fn next_directory(&mut self) -> (next: Option<PendingDir>)
        ensures
            match next {
                Some(dir) => old(self)@.pending.len() > 0 && dir@ == old(self)@.pending.last()
                    && final(self)@ == (WalkerView {
                    pending: old(self)@.pending.drop_last(),
                    ..old(self)@
                }),
                None => old(self)@.pending.len() == 0 && final(self)@ == old(self)@,
            },
    {
        let next = self.pending.pop();
        proof {
            if next is Some {
                assert(final(self)@.pending =~= old(self)@.pending.drop_last());
            }
        }
        next
    }

    /// Hands out every pending directory at once, for a host that lists them
    /// side by side.
    pub fn take_pending(&mut self) -> (batch: Vec<PendingDir>)
        ensures
            pending_views(batch@) == old(self)@.pending,
            final(self)@ == (WalkerView { pending: Seq::<PendingView>::empty(), ..old(self)@ }),
    {
        let mut batch: Vec<PendingDir> = Vec::new();
        std::mem::swap(&mut self.pending, &mut batch);
        assert(final(self)@.pending =~= Seq::<PendingView>::empty());
        batch
    }

    /// Takes in the listing of a directory that was handed out at `depth`.
    pub fn absorb(&mut self, depth: usize, listing: &Listing)
        ensures
            final(self)@ == after_listing(old(self)@, depth as nat, listing@),
    {
        match listing {
            Listing::Unreadable => {},
            Listing::Entries(entries) => {
                let ghost all = entry_views(entries@);
                let descend = depth < self.max_depth;
                let mut i: usize = 0;
                assert(all.take(0) =~= Seq::<EntryView>::empty());
                assert(self@.files =~= old(self)@.files + files_among(all.take(0)));
                assert(self@.pending =~= old(self)@.pending + subdirs_among(
                    all.take(0),
                    old(self)@.excluded,
                    (depth + 1) as nat,
                ));
                while i < entries.len()
                    invariant
                        i <= entries@.len(),
                        all == entry_views(entries@),
                        descend == (depth < old(self)@.max_depth),
                        self@.excluded == old(self)@.excluded,
                        self@.max_depth == old(self)@.max_depth,
                        self@.files == old(self)@.files + files_among(all.take(i as int)),
                        self@.pending == if descend {
                            old(self)@.pending + subdirs_among(
                                all.take(i as int),
                                old(self)@.excluded,
                                (depth + 1) as nat,
                            )
                        } else {
                            old(self)@.pending
                        },
                    decreases entries@.len() - i,
                {
                    proof {
                        assert(all.take(i + 1).drop_last() =~= all.take(i as int));
                        assert(all.take(i + 1).last() == entries@[i as int]@);
                    }
                    let ghost files_before = self@.files;
                    let ghost pending_before = self@.pending;
                    let entry = &entries[i];
                    match entry.kind {
                        EntryKind::File => {
                            self.files.push(entry.path.clone());
                            assert(self@.files =~= files_before.push(entry.path@));
                        },
                        EntryKind::Directory => {
                            if descend && !should_ignore(
                                entry.path.as_str(),
                                self.excluded.as_slice(),
                            ) {
                                self.pending.push(
                                    PendingDir { path: entry.path.clone(), depth: depth + 1 },
                                );
                                assert(self@.pending =~= pending_before.push(
                                    PendingView { path: entry.path@, depth: (depth + 1) as nat },
                                ));
                            }
                        },
                        EntryKind::Other => {},
                    }
                    i += 1;
                }
                assert(all.take(i as int) =~= all);
            },
        }
    }

    /// Whether every directory has been handed out.
    pub fn is_done(&self) -> (done: bool)
        ensures
            done == (self@.pending.len() == 0),
    {
        self.pending.len() == 0
    }

    /// The files found so far, in the order in which they were listed.
    pub fn files(&self) -> (files: &Vec<String>)
        ensures
            files.deep_view() == self@.files,
    {
        &self.files
    }

    /// Ends the walk and gives up the files found.
    pub fn into_files(self) -> (files: Vec<String>)
        ensures
            files.deep_view() == self@.files,
    {
        self.files
    }
}

} // verus!
