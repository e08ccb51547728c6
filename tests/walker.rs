use rust_find::errors::{Failure, FailureKind, FindError};
use rust_find::finder::entry::{Entry, EntryKind};
use rust_find::finder::filter::{Filter, NameFilter};
use rust_find::finder::options::FindOptions;
use rust_find::finder::pool::WorkPool;
use rust_find::finder::sequential::{FileWalker, SequentialWalk};
use rust_find::finder::walker::{Child, FileId, Listing, ListingItem, PendingDir};
use rust_find::finder::{Finder, count_directories};

fn child(parent: &str, name: &str, kind: EntryKind, target_kind: EntryKind, inode: Option<u64>) -> ListingItem {
    Ok(Child {
        name: name.to_string(),
        path: format!("{}/{}", parent, name),
        kind,
        target_kind,
        id: inode.map(|inode| FileId { device: 1, inode }),
    })
}

fn file(parent: &str, name: &str) -> ListingItem {
    child(parent, name, EntryKind::Regular, EntryKind::Regular, None)
}

fn dir(parent: &str, name: &str, inode: u64) -> ListingItem {
    child(parent, name, EntryKind::Directory, EntryKind::Directory, Some(inode))
}

fn failure(kind: FailureKind, path: &str) -> Failure {
    Failure { kind, path: path.to_string(), message: "refused".to_string() }
}

/// root/{file1.txt, file2.txt, dir1/file3.txt}
fn small_tree(path: &str) -> Listing {
    match path {
        "root" => Ok(vec![file("root", "file1.txt"), file("root", "file2.txt"), dir("root", "dir1", 2)]),
        "root/dir1" => Ok(vec![file("root/dir1", "file3.txt")]),
        _ => Err(failure(FailureKind::NotFound, path)),
    }
}

/// A deeper tree with a hidden file, a hidden directory, an unreadable
/// directory, a link to a directory and a link back to the root.
fn big_tree(path: &str) -> Listing {
    match path {
        "root" => Ok(vec![
            file("root", "a.txt"),
            file("root", ".hidden.txt"),
            dir("root", ".git", 9),
            dir("root", "src", 2),
            dir("root", "locked", 3),
            child("root", "link", EntryKind::Symlink, EntryKind::Directory, Some(2)),
        ]),
        "root/.git" => Ok(vec![file("root/.git", "config")]),
        "root/src" => Ok(vec![
            file("root/src", "main.rs"),
            dir("root/src", "deep", 4),
            child("root/src", "up", EntryKind::Symlink, EntryKind::Directory, Some(1)),
        ]),
        "root/src/deep" => Ok(vec![file("root/src/deep", "x.rs"), dir("root/src/deep", "deeper", 5)]),
        "root/src/deep/deeper" => Ok(vec![file("root/src/deep/deeper", "y.rs")]),
        "root/link" => Ok(vec![file("root/link", "main.rs"), dir("root/link", "deep", 4)]),
        "root/link/deep" => Ok(vec![file("root/link/deep", "x.rs"), dir("root/link/deep", "deeper", 5)]),
        "root/link/deep/deeper" => Ok(vec![file("root/link/deep/deeper", "y.rs")]),
        "root/locked" => Err(failure(FailureKind::PermissionDenied, "root/locked")),
        _ => Err(failure(FailureKind::NotFound, path)),
    }
}

fn root() -> PendingDir {
    PendingDir::root("root".to_string(), Some(FileId { device: 1, inode: 1 }))
}

fn run_sequential(options: FindOptions, tree: fn(&str) -> Listing) -> Result<Vec<Entry>, FindError> {
    let mut walk = SequentialWalk::new(root(), options);
    loop {
        let path = match walk.next_directory() {
            Some(d) => d.path.clone(),
            None => break,
        };
        walk.supply(tree(&path))?;
    }
    Ok(walk.into_results())
}

/// Takes every waiting directory at once and hands the listings back in
/// the order that `reverse` picks, imitating workers finishing out of order.
fn run_pool(options: FindOptions, tree: fn(&str) -> Listing, reverse: bool) -> Result<Vec<Entry>, FindError> {
    let mut pool = WorkPool::new(root(), options);
    while !pool.is_idle_now() {
        let mut taken = Vec::new();
        while let Some(t) = pool.take() {
            taken.push(t);
        }
        if reverse {
            taken.reverse();
        }
        for (ticket, path) in taken {
            pool.complete(ticket, tree(&path))?;
        }
    }
    Ok(pool.into_results())
}

fn paths(entries: &[Entry]) -> Vec<String> {
    let mut v: Vec<String> = entries.iter().map(|e| e.path.clone()).collect();
    v.sort();
    v
}

#[test]
fn test_file_walker() {
    fn tree(path: &str) -> Listing {
        match path {
            "root" => Ok(vec![file("root", "file1.txt"), dir("root", "dir1", 2)]),
            "root/dir1" => Ok(vec![file("root/dir1", "file2.txt")]),
            _ => Err(failure(FailureKind::NotFound, path)),
        }
    }
    let options = FindOptions::new();
    let walker = FileWalker::new(&options);
    let mut walk = walker.start(root());
    while let Some(d) = walk.next_directory() {
        let p = d.path.clone();
        walk.supply(tree(&p)).unwrap();
    }
    assert_eq!(walk.results().len(), 3);
}

#[test]
fn small_tree_unbounded_gives_four_entries() {
    let options = FindOptions::new().with_max_depth(None).with_follow_links(false);
    let entries = run_sequential(options, small_tree).unwrap();
    assert_eq!(paths(&entries), vec!["root/dir1", "root/dir1/file3.txt", "root/file1.txt", "root/file2.txt"]);
}

#[test]
fn sequential_order_is_pre_order() {
    let entries = run_sequential(FindOptions::new(), small_tree).unwrap();
    let order: Vec<&str> = entries.iter().map(|e| e.path.as_str()).collect();
    assert_eq!(order, vec!["root/file1.txt", "root/file2.txt", "root/dir1", "root/dir1/file3.txt"]);
    let depths: Vec<usize> = entries.iter().map(|e| e.depth).collect();
    assert_eq!(depths, vec![1, 1, 1, 2]);
}

#[test]
fn max_depth_one_lists_the_first_level_directories() {
    let options = FindOptions::new().with_max_depth(Some(1));
    let entries = run_sequential(options, small_tree).unwrap();
    assert_eq!(paths(&entries), vec!["root/dir1", "root/dir1/file3.txt", "root/file1.txt", "root/file2.txt"]);
    assert!(entries.iter().all(|e| e.depth <= 2));
}

#[test]
fn max_depth_zero_gives_the_roots_children() {
    let options = FindOptions::new().with_max_depth(Some(0));
    let entries = run_sequential(options, small_tree).unwrap();
    assert_eq!(paths(&entries), vec!["root/dir1", "root/file1.txt", "root/file2.txt"]);
    assert!(entries.iter().all(|e| e.depth == 1));
    let entries = run_pool(options, small_tree, true).unwrap();
    assert_eq!(paths(&entries), vec!["root/dir1", "root/file1.txt", "root/file2.txt"]);
}

#[test]
fn root_is_never_reported() {
    for options in [FindOptions::new(), FindOptions::new().with_max_depth(Some(0)), FindOptions::new().with_follow_links(true)] {
        let s = run_sequential(options, big_tree).unwrap();
        let p = run_pool(options, big_tree, false).unwrap();
        assert!(s.iter().chain(p.iter()).all(|e| e.path != "root" && e.depth >= 1));
    }
}

#[test]
fn test_parallel_vs_serial() {
    let variants = [
        FindOptions::new(),
        FindOptions::new().with_follow_links(true),
        FindOptions::new().with_ignore_hidden(false),
        FindOptions::new().with_max_depth(Some(1)),
        FindOptions::new().with_follow_links(true).with_ignore_hidden(false).with_max_depth(Some(2)),
    ];
    for options in variants {
        let s = run_sequential(options, big_tree).unwrap();
        for reverse in [false, true] {
            let p = run_pool(options, big_tree, reverse).unwrap();
            assert_eq!(paths(&s), paths(&p));
        }
    }
}

#[test]
fn unreadable_directory_is_skipped_when_permission_errors_are_ignored() {
    let options = FindOptions::new().with_ignore_permission_errors(true);
    let entries = run_sequential(options, big_tree).unwrap();
    let ps = paths(&entries);
    assert!(ps.contains(&"root/locked".to_string()));
    assert!(!ps.iter().any(|p| p.starts_with("root/locked/")));
    assert!(run_pool(options, big_tree, true).is_ok());
}

#[test]
fn unreadable_directory_is_fatal_otherwise() {
    let options = FindOptions::new().with_ignore_permission_errors(false);
    match run_sequential(options, big_tree) {
        Err(FindError::PermissionDenied(p)) => assert_eq!(p, "root/locked"),
        other => panic!("unexpected: {:?}", other.map(|v| v.len())),
    }
    assert!(matches!(run_pool(options, big_tree, false), Err(FindError::PermissionDenied(_))));
}

#[test]
fn hidden_entries_and_links() {
    let entries = run_sequential(FindOptions::new(), big_tree).unwrap();
    let ps = paths(&entries);
    assert!(!ps.iter().any(|p| p.contains("/.")));
    assert!(ps.contains(&"root/link".to_string()));
    assert!(!ps.iter().any(|p| p.starts_with("root/link/")));
    let link = entries.iter().find(|e| e.path == "root/link").unwrap();
    assert_eq!(link.kind, EntryKind::Symlink);

    let shown = run_sequential(FindOptions::new().with_ignore_hidden(false), big_tree).unwrap();
    let ps = paths(&shown);
    assert!(ps.contains(&"root/.hidden.txt".to_string()));
    assert!(ps.contains(&"root/.git/config".to_string()));
}

#[test]
fn followed_links_are_descended_once_and_cycles_stop() {
    let entries = run_sequential(FindOptions::new().with_follow_links(true), big_tree).unwrap();
    let ps = paths(&entries);
    assert!(ps.contains(&"root/link/deep/deeper/y.rs".to_string()));
    assert!(ps.contains(&"root/src/up".to_string()));
    assert!(!ps.iter().any(|p| p.starts_with("root/src/up/")));
    let link = entries.iter().find(|e| e.path == "root/link").unwrap();
    assert_eq!(link.kind, EntryKind::Directory);
}

#[test]
fn failed_items_follow_the_io_flag() {
    fn tree(path: &str) -> Listing {
        match path {
            "root" => Ok(vec![file("root", "a"), Err(failure(FailureKind::Filesystem, "root/b")), file("root", "c")]),
            _ => Err(failure(FailureKind::NotFound, path)),
        }
    }
    match run_sequential(FindOptions::new(), tree) {
        Err(FindError::FilesystemError { source, path }) => {
            assert_eq!(source, "refused");
            assert_eq!(path, "root/b");
        },
        other => panic!("unexpected: {:?}", other.map(|v| v.len())),
    }
    let entries = run_sequential(FindOptions::new().with_ignore_io_errors(true), tree).unwrap();
    assert_eq!(paths(&entries), vec!["root/a", "root/c"]);
    let entries = run_pool(FindOptions::new().with_ignore_io_errors(true), tree, false).unwrap();
    assert_eq!(paths(&entries), vec!["root/a", "root/c"]);
}

#[test]
fn missing_root_is_reported() {
    fn tree(path: &str) -> Listing {
        Err(failure(FailureKind::NotFound, path))
    }
    assert!(matches!(run_sequential(FindOptions::new(), tree), Err(FindError::FileNotFound(p)) if p == "root"));
    assert!(run_sequential(FindOptions::new().with_ignore_io_errors(true), tree).unwrap().is_empty());
}

#[test]
fn pool_ignores_unknown_tickets() {
    let mut pool = WorkPool::new(root(), FindOptions::new());
    assert!(pool.complete(7, small_tree("root")).is_ok());
    let (t, path) = pool.take().unwrap();
    assert_eq!(path, "root");
    pool.complete(t, small_tree(&path)).unwrap();
    assert_eq!(pool.results().len(), 3);
    assert!(pool.complete(t, small_tree(&path)).is_ok());
    assert_eq!(pool.results().len(), 3);
    assert!(!pool.aborted());
}

#[test]
fn finder_selects_counts_and_sizes() {
    let options = FindOptions::new().with_min_threads(1).with_max_threads(4).with_dirs_per_thread(1);
    let mut finder = Finder::new(options).with_filter(Filter::Name(NameFilter::new("*.rs").unwrap()));
    let mut walk = finder.sequential_walk(root());
    while let Some(d) = walk.next_directory() {
        let p = d.path.clone();
        walk.supply(big_tree(&p)).unwrap();
    }
    let all = walk.into_results();
    assert_eq!(count_directories(&all), 4);
    let n = finder.plan_threads(count_directories(&all));
    assert!(n >= 1 && n <= 4);
    let chosen = finder.select(all);
    assert_eq!(paths(&chosen), vec!["root/src/deep/deeper/y.rs", "root/src/deep/x.rs", "root/src/main.rs"]);
    assert_eq!(finder.filters().len(), 1);
    assert_eq!(finder.plan_threads(0), 1);
}

fn run_finder(finder: &Finder, tree: fn(&str) -> Listing) -> Vec<Entry> {
    let mut walk = finder.sequential_walk(root());
    while let Some(d) = walk.next_directory() {
        let p = d.path.clone();
        walk.supply(tree(&p)).unwrap();
    }
    finder.select(walk.into_results())
}

#[test]
fn test_find_files_in_empty_dir() {
    fn tree(path: &str) -> Listing {
        match path {
            "root" => Ok(vec![]),
            _ => Err(failure(FailureKind::NotFound, path)),
        }
    }
    let result = run_sequential(FindOptions::default(), tree).unwrap();
    assert_eq!(result.len(), 0);
}

#[test]
fn test_finder_basic() {
    fn tree(path: &str) -> Listing {
        match path {
            "root" => Ok(vec![dir("root", "dir1", 2), dir("root", "dir2", 3)]),
            "root/dir1" => Ok(vec![file("root/dir1", "test1.txt")]),
            "root/dir2" => Ok(vec![file("root/dir2", "test2.txt")]),
            _ => Err(failure(FailureKind::NotFound, path)),
        }
    }
    let finder = Finder::new(FindOptions::default()).with_filter(Filter::Name(NameFilter::new("*.txt").unwrap()));
    let results = run_finder(&finder, tree);
    assert_eq!(results.len(), 2);
    assert!(results.iter().any(|e| e.path.ends_with("test1.txt")));
    assert!(results.iter().any(|e| e.path.ends_with("test2.txt")));
}

#[test]
fn test_finder_hidden_files() {
    fn tree(path: &str) -> Listing {
        match path {
            "root" => Ok(vec![file("root", ".hidden.txt"), file("root", "normal.txt")]),
            _ => Err(failure(FailureKind::NotFound, path)),
        }
    }
    let finder = Finder::new(FindOptions::default()).with_filter(Filter::Name(NameFilter::new("*.txt").unwrap()));
    let results = run_finder(&finder, tree);
    assert_eq!(results.len(), 1);
    assert!(results[0].path.ends_with("normal.txt"));

    let mut options = FindOptions::default();
    options.ignore_hidden = false;
    let finder = Finder::new(options).with_filter(Filter::Name(NameFilter::new("*.txt").unwrap()));
    let results = run_finder(&finder, tree);
    assert_eq!(results.len(), 2);
}

#[test]
fn each_object_is_reported_once() {
    for options in [FindOptions::new(), FindOptions::new().with_follow_links(true).with_ignore_hidden(false)] {
        let s = run_sequential(options, big_tree).unwrap();
        let mut ps: Vec<String> = s.iter().map(|e| e.path.clone()).collect();
        let n = ps.len();
        ps.sort();
        ps.dedup();
        assert_eq!(ps.len(), n);
        let p = run_pool(options, big_tree, true).unwrap();
        assert_eq!(p.len(), n);
    }
}

#[test]
fn first_fatal_item_is_reported() {
    fn tree(path: &str) -> Listing {
        match path {
            "root" => Ok(vec![
                Err(failure(FailureKind::PermissionDenied, "root/p")),
                Err(failure(FailureKind::Filesystem, "root/first")),
                Err(failure(FailureKind::NotFound, "root/second")),
            ]),
            _ => Err(failure(FailureKind::NotFound, path)),
        }
    }
    assert!(matches!(run_sequential(FindOptions::new(), tree),
        Err(FindError::FilesystemError { path, .. }) if path == "root/first"));
    assert!(matches!(run_pool(FindOptions::new(), tree, false),
        Err(FindError::FilesystemError { path, .. }) if path == "root/first"));
}

#[test]
fn parents_come_before_children() {
    let entries = run_sequential(FindOptions::new().with_follow_links(true), big_tree).unwrap();
    for (n, e) in entries.iter().enumerate() {
        if e.depth > 1 {
            let parent = &e.path[..e.path.rfind('/').unwrap()];
            assert!(entries[..n].iter().any(|p| p.path == parent));
        }
    }
}
