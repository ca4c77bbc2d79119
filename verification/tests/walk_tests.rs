use lazy_find::walk::{
    should_ignore, unique_parent_dirs, DirEntryInfo, EntryKind, Listing, PendingDir, Walker,
};

fn strings(items: &[&str]) -> Vec<String> {
    items.iter().map(|p| String::from(*p)).collect()
}

fn entry(path: &str, kind: EntryKind) -> DirEntryInfo {
    DirEntryInfo { path: String::from(path), kind }
}

/// A tree held in memory: each directory with its listing; a directory that is
/// not in the table cannot be opened.
fn walk_table(root: &str, excluded: &[&str], max_depth: usize, table: &[(&str, Vec<DirEntryInfo>)]) -> Vec<String> {
    let mut walker = Walker::new(String::from(root), strings(excluded), max_depth);
    let mut steps = 0;
    while let Some(PendingDir { path, depth }) = walker.next_directory() {
        steps += 1;
        assert!(steps < 1000);
        let listing = match table.iter().find(|(dir, _)| *dir == path) {
            Some((_, entries)) => Listing::Entries(entries.clone()),
            None => Listing::Unreadable,
        };
        walker.absorb(depth, &listing);
    }
    assert!(walker.is_done());
    walker.into_files()
}

#[test]
fn path_under_an_excluded_prefix_is_ignored() {
    let excluded = strings(&["/$Recycle.Bin/", "/$SysReset", "/Windows"]);
    assert!(should_ignore("/Windows", &excluded));
    assert!(should_ignore("/Windows/System32/drivers", &excluded));
    assert!(should_ignore("/$Recycle.Bin/S-1-5", &excluded));
    assert!(should_ignore("/$SysReset/Logs", &excluded));
}

#[test]
fn prefix_matches_whole_components_only() {
    let excluded = strings(&["/Windows"]);
    assert!(!should_ignore("/WindowsApps/tool", &excluded));
    assert!(!should_ignore("/home/Windows", &excluded));
    assert!(!should_ignore("/Win", &excluded));
    assert!(!should_ignore("Windows", &excluded));
}

#[test]
fn nothing_is_ignored_without_excluded_prefixes() {
    assert!(!should_ignore("/Windows", &[]));
    assert!(!should_ignore("", &[]));
}

#[test]
fn later_prefixes_are_tried_too() {
    let excluded = strings(&["/a", "/b", "/c/d"]);
    assert!(should_ignore("/c/d/e", &excluded));
    assert!(!should_ignore("/c/e", &excluded));
}

#[test]
fn parents_are_listed_once_at_their_first_occurrence() {
    let paths = strings(&["/a/x.txt", "/b/y.txt", "/a/z.txt", "/b/c/w.txt", "/a/x.txt"]);
    assert_eq!(unique_parent_dirs(&paths), strings(&["/a", "/b", "/b/c"]));
}

#[test]
fn path_without_a_parent_adds_no_directory() {
    assert_eq!(unique_parent_dirs(&strings(&["/", "", "/a"])), strings(&["/"]));
    assert_eq!(unique_parent_dirs(&strings(&["file.txt"])), strings(&[""]));
    assert!(unique_parent_dirs(&[]).is_empty());
}

#[test]
fn walker_hands_out_the_root_first_and_once() {
    let mut walker = Walker::new(String::from("/root"), Vec::new(), 8);
    assert!(!walker.is_done());
    let first = walker.next_directory().unwrap();
    assert_eq!(first.path, "/root");
    assert_eq!(first.depth, 0);
    assert!(walker.is_done());
    assert!(walker.next_directory().is_none());
    assert!(walker.files().is_empty());
}

#[test]
fn listing_adds_files_and_queues_directories() {
    let mut walker = Walker::new(String::from("/r"), strings(&["/r/skip"]), 8);
    let root = walker.next_directory().unwrap();
    walker.absorb(
        root.depth,
        &Listing::Entries(vec![
            entry("/r/a.txt", EntryKind::File),
            entry("/r/sub", EntryKind::Directory),
            entry("/r/link", EntryKind::Other),
            entry("/r/skip", EntryKind::Directory),
            entry("/r/b.txt", EntryKind::File),
        ]),
    );
    assert_eq!(walker.files(), &strings(&["/r/a.txt", "/r/b.txt"]));
    let next = walker.next_directory().unwrap();
    assert_eq!(next.path, "/r/sub");
    assert_eq!(next.depth, 1);
    assert!(walker.next_directory().is_none());
}

#[test]
fn unreadable_directory_changes_nothing() {
    let mut walker = Walker::new(String::from("/r"), Vec::new(), 8);
    let root = walker.next_directory().unwrap();
    walker.absorb(root.depth, &Listing::Entries(vec![
        entry("/r/a.txt", EntryKind::File),
        entry("/r/locked", EntryKind::Directory),
        entry("/r/open", EntryKind::Directory),
    ]));
    let open = walker.next_directory().unwrap();
    assert_eq!(open.path, "/r/open");
    walker.absorb(open.depth, &Listing::Unreadable);
    assert_eq!(walker.files(), &strings(&["/r/a.txt"]));
    assert_eq!(walker.next_directory().unwrap().path, "/r/locked");
}

#[test]
fn indexer_returns_the_files_of_readable_subtrees_beside_an_unreadable_one() {
    let table = vec![
        ("/r", vec![
            entry("/r/one", EntryKind::Directory),
            entry("/r/locked", EntryKind::Directory),
            entry("/r/two", EntryKind::Directory),
            entry("/r/top.txt", EntryKind::File),
        ]),
        ("/r/one", vec![entry("/r/one/a.txt", EntryKind::File), entry("/r/one/deep", EntryKind::Directory)]),
        ("/r/one/deep", vec![entry("/r/one/deep/b.txt", EntryKind::File)]),
        ("/r/two", vec![entry("/r/two/c.txt", EntryKind::File)]),
    ];
    let mut files = walk_table("/r", &[], 16, &table);
    files.sort();
    assert_eq!(files, strings(&["/r/one/a.txt", "/r/one/deep/b.txt", "/r/top.txt", "/r/two/c.txt"]));
}

#[test]
fn unreadable_root_gives_an_empty_corpus() {
    assert!(walk_table("/nowhere", &[], 16, &[]).is_empty());
}

#[test]
fn excluded_subtree_is_not_entered() {
    let table = vec![
        ("/", vec![
            entry("/Windows", EntryKind::Directory),
            entry("/home", EntryKind::Directory),
        ]),
        ("/Windows", vec![entry("/Windows/win.ini", EntryKind::File)]),
        ("/home", vec![entry("/home/notes.txt", EntryKind::File)]),
    ];
    assert_eq!(walk_table("/", &["/Windows"], 16, &table), strings(&["/home/notes.txt"]));
}

#[test]
fn depth_cap_stops_the_descent() {
    let table = vec![
        ("/r", vec![entry("/r/f0", EntryKind::File), entry("/r/d1", EntryKind::Directory)]),
        ("/r/d1", vec![entry("/r/d1/f1", EntryKind::File), entry("/r/d1/d2", EntryKind::Directory)]),
        ("/r/d1/d2", vec![entry("/r/d1/d2/f2", EntryKind::File)]),
    ];
    assert_eq!(walk_table("/r", &[], 0, &table), strings(&["/r/f0"]));
    assert_eq!(walk_table("/r", &[], 1, &table), strings(&["/r/f0", "/r/d1/f1"]));
    assert_eq!(walk_table("/r", &[], 2, &table), strings(&["/r/f0", "/r/d1/f1", "/r/d1/d2/f2"]));
}

#[test]
fn cyclic_listing_ends_at_the_depth_cap() {
    let table = vec![("/loop", vec![
        entry("/loop", EntryKind::Directory),
        entry("/loop/f", EntryKind::File),
    ])];
    let files = walk_table("/loop", &[], 5, &table);
    assert_eq!(files.len(), 6);
}

#[test]
fn take_pending_hands_out_everything_that_waits() {
    let mut walker = Walker::new(String::from("/r"), Vec::new(), 8);
    let root = walker.next_directory().unwrap();
    walker.absorb(root.depth, &Listing::Entries(vec![
        entry("/r/a", EntryKind::Directory),
        entry("/r/b", EntryKind::Directory),
    ]));
    let batch = walker.take_pending();
    assert_eq!(batch.len(), 2);
    assert_eq!(batch[0].path, "/r/a");
    assert_eq!(batch[1].path, "/r/b");
    assert_eq!(batch[0].depth, 1);
    assert!(walker.is_done());
    assert!(walker.take_pending().is_empty());
}

#[test]
fn walk_level_by_level_finds_the_same_files_beside_an_unreadable_directory() {
    let table = vec![
        ("/r", vec![
            entry("/r/one", EntryKind::Directory),
            entry("/r/locked", EntryKind::Directory),
            entry("/r/two", EntryKind::Directory),
            entry("/r/top.txt", EntryKind::File),
        ]),
        ("/r/one", vec![entry("/r/one/a.txt", EntryKind::File), entry("/r/one/deep", EntryKind::Directory)]),
        ("/r/one/deep", vec![entry("/r/one/deep/b.txt", EntryKind::File)]),
        ("/r/two", vec![entry("/r/two/c.txt", EntryKind::File)]),
    ];
    let mut walker = Walker::new(String::from("/r"), Vec::new(), 16);
    let mut levels = 0;
    while !walker.is_done() {
        levels += 1;
        assert!(levels < 100);
        for PendingDir { path, depth } in walker.take_pending() {
            let listing = match table.iter().find(|(dir, _)| *dir == path) {
                Some((_, entries)) => Listing::Entries(entries.clone()),
                None => Listing::Unreadable,
            };
            walker.absorb(depth, &listing);
        }
    }
    assert_eq!(levels, 3);
    let mut by_level = walker.into_files();
    let mut last_first = walk_table("/r", &[], 16, &table);
    assert_eq!(by_level, strings(&["/r/top.txt", "/r/one/a.txt", "/r/two/c.txt", "/r/one/deep/b.txt"]));
    by_level.sort();
    last_first.sort();
    assert_eq!(by_level, last_first);
}
