use dirsize::file_util::{DirEntry, EntryKind, ItemView, Scanner};
use dirsize::size_cache::SizeCache;
use std::collections::HashMap;

/// An in-memory directory tree: each directory path maps to its entries.
struct Tree {
    dirs: HashMap<String, Vec<(String, EntryKind, u64)>>,
}

impl Tree {
    fn new() -> Tree {
        Tree { dirs: HashMap::new() }
    }

    fn dir(&mut self, path: &str) {
        self.dirs.entry(path.to_string()).or_default();
        if let Some(pos) = path.rfind('/') {
            let parent = &path[..pos];
            if !parent.is_empty() {
                self.dir(parent);
                let list = self.dirs.get_mut(parent).unwrap();
                if !list.iter().any(|(p, _, _)| p == path) {
                    list.push((path.to_string(), EntryKind::Directory, 0));
                }
            }
        }
    }

    fn file(&mut self, path: &str, size: u64) {
        let pos = path.rfind('/').unwrap();
        let parent = &path[..pos];
        self.dir(parent);
        self.dirs
            .get_mut(parent)
            .unwrap()
            .push((path.to_string(), EntryKind::File, size));
    }

    fn listing(&self, path: &str) -> Option<Vec<DirEntry>> {
        self.dirs.get(path).map(|list| {
            list.iter()
                .map(|(p, k, s)| DirEntry { path: p.clone(), kind: *k, size: *s })
                .collect()
        })
    }
}

/// Runs a scan with `workers` virtual workers taking turns, one directory read per
/// turn; returns the scanner and how many times each directory was read.
fn run_scan(tree: &Tree, root: &str, cache: SizeCache, workers: usize) -> (Scanner, HashMap<String, usize>) {
    let mut scanner = Scanner::new(root.to_string(), cache);
    let mut reads: HashMap<String, usize> = HashMap::new();
    let mut current: Vec<Option<usize>> = vec![None; workers];
    let mut now: u64 = 0;
    loop {
        let mut progressed = false;
        for w in 0..workers {
            now += 1;
            let task = match current[w] {
                Some(t) => Some(t),
                None => scanner.get_message(),
            };
            let Some(t) = task else { continue };
            progressed = true;
            let path = scanner.task_path(t).unwrap();
            *reads.entry(path.clone()).or_default() += 1;
            match tree.listing(&path) {
                Some(entries) => {
                    current[w] = scanner.apply_listing(t, &entries, now);
                    scanner.finish_traversal(t, now);
                }
                None => {
                    scanner.finish_traversal(t, now);
                    current[w] = None;
                }
            }
            if current[w].is_none() {
                scanner.on_message_processed();
            }
        }
        if !progressed && scanner.is_stopped() {
            break;
        }
        assert!(progressed || scanner.is_stopped(), "scan stalled");
    }
    (scanner, reads)
}

fn sample_tree() -> Tree {
    let mut tree = Tree::new();
    tree.file("/r/a.txt", 100);
    tree.file("/r/b/c.txt", 7);
    tree.file("/r/b/d/e.bin", 1000);
    tree.file("/r/b/d/f.bin", 3);
    tree.file("/r/g/h.txt", 50);
    tree.dir("/r/g/empty");
    tree.file("/r/i/j/k/l.txt", 11);
    tree.file("/r/i/m.txt", 13);
    tree.dirs.get_mut("/r").unwrap().push(("/r/sock".to_string(), EntryKind::Other, 999));
    tree
}

#[test]
fn root_size_is_sum_of_files_for_any_pool_size() {
    let tree = sample_tree();
    for workers in 1..=5 {
        let (scanner, reads) = run_scan(&tree, "/r", SizeCache::new(), workers);
        assert_eq!(scanner.task_size(0), Some(100 + 7 + 1000 + 3 + 50 + 11 + 13));
        assert!(reads.values().all(|n| *n == 1));
        assert_eq!(reads.len(), tree.dirs.len());
    }
}

#[test]
fn subdirectory_sizes_are_sums_beneath_them() {
    let tree = sample_tree();
    let (scanner, _) = run_scan(&tree, "/r", SizeCache::new(), 3);
    let mut sizes: HashMap<String, u64> = HashMap::new();
    for view in scanner.views() {
        match view {
            ItemView::Directory(p, progress) => {
                assert!(progress.completed_time.is_some());
                sizes.insert(p.clone(), progress.size);
            }
            ItemView::File(p, s) => {
                sizes.insert(p.clone(), *s);
            }
        }
    }
    assert_eq!(sizes.get("/r/a.txt"), Some(&100));
    assert_eq!(sizes.get("/r/b"), Some(&1010));
    assert_eq!(sizes.get("/r/g"), Some(&50));
    assert_eq!(sizes.get("/r/i"), Some(&24));
    assert_eq!(sizes.len(), 4);
}

#[test]
fn unreadable_directory_contributes_nothing() {
    let mut tree = sample_tree();
    tree.dirs.remove("/r/b/d");
    let (scanner, _) = run_scan(&tree, "/r", SizeCache::new(), 2);
    assert_eq!(scanner.task_size(0), Some(100 + 7 + 50 + 11 + 13));
}

#[test]
fn empty_root_scans_to_zero() {
    let mut tree = Tree::new();
    tree.dir("/e");
    let (scanner, _) = run_scan(&tree, "/e", SizeCache::new(), 2);
    assert_eq!(scanner.task_size(0), Some(0));
    assert!(scanner.views().is_empty());
    assert!(scanner.is_stopped());
}

fn big_tree() -> Tree {
    let mut tree = Tree::new();
    tree.file("/s/big/x/part1", 1_200_000_000);
    tree.file("/s/big/part2", 800_000_000);
    tree.file("/s/small/f", 5);
    tree.file("/s/top", 1);
    tree
}

#[test]
fn rescan_uses_cache_for_large_subtree() {
    let tree = big_tree();
    let (first, reads1) = run_scan(&tree, "/s", SizeCache::new(), 2);
    assert_eq!(first.task_size(0), Some(2_000_000_006));
    assert_eq!(reads1.get("/s/big"), Some(&1));
    assert_eq!(reads1.get("/s/big/x"), Some(&1));
    let cache = first.into_cache();
    assert_eq!(cache.lookup(&"/s/big".to_string()), Some(2_000_000_000));
    assert_eq!(cache.lookup(&"/s".to_string()), Some(2_000_000_006));
    assert_eq!(cache.lookup(&"/s/small".to_string()), None);

    let (second, reads2) = run_scan(&tree, "/s", cache, 2);
    assert_eq!(second.task_size(0), Some(2_000_000_006));
    assert_eq!(reads2.get("/s"), Some(&1));
    assert_eq!(reads2.get("/s/big"), None);
    assert_eq!(reads2.get("/s/big/x"), None);
    assert_eq!(reads2.get("/s/small"), Some(&1));
}

#[test]
fn cached_root_is_still_traversed() {
    let tree = big_tree();
    let (first, _) = run_scan(&tree, "/s/big", SizeCache::new(), 1);
    let cache = first.into_cache();
    assert_eq!(cache.lookup(&"/s/big".to_string()), Some(2_000_000_000));
    let (second, reads) = run_scan(&tree, "/s/big", cache, 1);
    assert_eq!(reads.get("/s/big"), Some(&1));
    assert_eq!(reads.get("/s/big/x"), None);
    assert_eq!(second.task_size(0), Some(2_000_000_000));
}

#[test]
fn quiescence_is_reached_only_when_queue_empty_and_no_worker_active() {
    let mut scanner = Scanner::new("/q".to_string(), SizeCache::new());
    assert!(!scanner.is_stopped());
    let t = scanner.get_message();
    assert_eq!(t, Some(0));
    assert_eq!(scanner.get_message(), None);
    let entries = vec![
        DirEntry { path: "/q/a".to_string(), kind: EntryKind::Directory, size: 0 },
        DirEntry { path: "/q/b".to_string(), kind: EntryKind::Directory, size: 0 },
        DirEntry { path: "/q/c".to_string(), kind: EntryKind::Directory, size: 0 },
    ];
    let greedy = scanner.apply_listing(0, &entries, 1);
    scanner.finish_traversal(0, 1);
    assert_eq!(greedy, Some(1));
    assert_eq!(scanner.task_path(1), Some("/q/a".to_string()));
    assert_eq!(scanner.apply_listing(1, &vec![], 2), None);
    scanner.finish_traversal(1, 2);
    scanner.on_message_processed();
    assert!(!scanner.is_stopped());
    assert_eq!(scanner.get_message(), Some(2));
    assert_eq!(scanner.get_message(), Some(3));
    assert_eq!(scanner.apply_listing(2, &vec![], 3), None);
    scanner.finish_traversal(2, 3);
    scanner.on_message_processed();
    assert!(!scanner.is_stopped());
    assert_eq!(scanner.apply_listing(3, &vec![], 4), None);
    scanner.finish_traversal(3, 4);
    scanner.on_message_processed();
    assert!(scanner.is_stopped());
}

#[test]
fn applying_a_listing_twice_changes_nothing() {
    let mut scanner = Scanner::new("/q".to_string(), SizeCache::new());
    let entries = vec![DirEntry { path: "/q/f".to_string(), kind: EntryKind::File, size: 9 }];
    assert_eq!(scanner.apply_listing(0, &entries, 1), None);
    assert_eq!(scanner.apply_listing(0, &entries, 2), None);
    assert_eq!(scanner.apply_listing(5, &entries, 2), None);
    assert_eq!(scanner.task_size(0), Some(9));
    assert_eq!(scanner.task_size(5), None);
    assert_eq!(scanner.views().len(), 1);
}

#[test]
fn size_cache_keeps_latest_record() {
    let mut cache = SizeCache::new();
    assert_eq!(cache.lookup(&"/a".to_string()), None);
    cache.record("/a".to_string(), 5);
    cache.record("/b".to_string(), 6);
    cache.record("/a".to_string(), 7);
    assert_eq!(cache.lookup(&"/a".to_string()), Some(7));
    assert_eq!(cache.lookup(&"/b".to_string()), Some(6));
    assert_eq!(cache.lookup(&"/c".to_string()), None);
}

#[test]
fn small_scan_leaves_cache_empty_and_stamps_entries() {
    let mut tree = Tree::new();
    tree.file("/t/a", 10);
    tree.file("/t/b", 20);
    tree.file("/t/c", 30);
    tree.dir("/t/e");
    let (scanner, _) = run_scan(&tree, "/t", SizeCache::new(), 2);
    assert_eq!(scanner.task_size(0), Some(60));
    assert_eq!(scanner.views().len(), 4);
    for view in scanner.views() {
        if let ItemView::Directory(_, progress) = view {
            assert!(progress.completed_time.is_some());
        }
    }
    let cache = scanner.into_cache();
    assert_eq!(cache.lookup(&"/t".to_string()), None);
    assert_eq!(cache.lookup(&"/t/e".to_string()), None);
}

#[test]
fn parent_completes_only_after_its_children() {
    let mut scanner = Scanner::new("/p".to_string(), SizeCache::new());
    scanner.get_message();
    let entries = vec![DirEntry { path: "/p/c".to_string(), kind: EntryKind::Directory, size: 0 }];
    let child = scanner.apply_listing(0, &entries, 1).unwrap();
    scanner.finish_traversal(0, 1);
    let big = vec![DirEntry { path: "/p/c/f".to_string(), kind: EntryKind::File, size: 1_500_000_000 }];
    scanner.apply_listing(child, &big, 2);
    scanner.finish_traversal(child, 3);
    match &scanner.views()[0] {
        ItemView::Directory(p, progress) => {
            assert_eq!(p, "/p/c");
            assert_eq!(progress.completed_time, Some(3));
            assert_eq!(progress.size, 1_500_000_000);
        }
        other => panic!("unexpected entry {:?}", other),
    }
    let cache = scanner.into_cache();
    assert_eq!(cache.lookup(&"/p/c".to_string()), Some(1_500_000_000));
    assert_eq!(cache.lookup(&"/p".to_string()), Some(1_500_000_000));
}
