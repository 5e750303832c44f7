use crate::size_cache::{SizeCache, MEMO_THRESHOLD};
use vstd::prelude::*;

verus! {

/// Progress of one directory as the render pipeline sees it.
#[derive(Clone, Copy, PartialEq, Eq, Debug, Structural)]
pub struct DirectoryScanProgress {
    /// Milliseconds on the caller's clock.
    pub start_time: u64,
    pub completed_time: Option<u64>,
    /// Bytes found beneath the directory so far.
    pub size: u64,
}

/// One entry of the progress model.
#[derive(Debug)]
pub enum ItemView {
    Directory(String, DirectoryScanProgress),
    File(String, u64),
}

/// What a directory entry is, as far as sizing goes (a symbolic link counts as a file).
#[derive(Clone, Copy, PartialEq, Eq, Debug, Structural)]
pub enum EntryKind {
    Directory,
    File,
    Other,
}

/// One entry of a directory listing, with the size that its metadata gave (zero
/// when the metadata could not be read).
#[derive(Debug)]
pub struct DirEntry {
    pub path: String,
    pub kind: EntryKind,
    pub size: u64,
}

/// One directory awaiting or undergoing traversal.
struct ScanTask {
    path: String,
    parent: Option<usize>,
    size: u64,
    view: Option<usize>,
    /// Own traversal (one) plus children that have not completed.
    pending: usize,
    /// Its listing has been applied.
    listed: bool,
    /// Its own traversal has ended.
    traversed: bool,
}

/// The state of one scan: tasks with their accumulators, the work queue with its
/// quiescence bookkeeping, the size cache and the progress model.
pub struct Scanner {
    tasks: Vec<ScanTask>,
    queue: Vec<usize>,
    n_active: usize,
    stop_flag: bool,
    cache: SizeCache,
    views: Vec<ItemView>,
    /// Every amount added to an accumulator, with the task it was found in.
    found: Ghost<Seq<(int, int)>>,
}

/// `a` is `t` or one of its ancestors.
pub open spec fn is_ancestor(parents: Seq<Option<usize>>, a: int, t: int) -> bool
    decreases t,
{
    if 0 <= t < parents.len() {
        t == a || match parents[t] {
            Some(p) => (p as int) < t && is_ancestor(parents, a, p as int),
            None => false,
        }
    } else {
        false
    }
}

/// Bytes of the amounts in `found` that were found beneath task `a`.
pub open spec fn bytes_beneath(parents: Seq<Option<usize>>, found: Seq<(int, int)>, a: int) -> int
    decreases found.len(),
{
    if found.len() == 0 {
        0
    } else {
        bytes_beneath(parents, found.drop_last(), a) + if is_ancestor(
            parents,
            a,
            found.last().0,
        ) {
            found.last().1
        } else {
            0
        }
    }
}

/// The task tree: one root without parent, every other task after its parent.
pub open spec fn parents_wf(parents: Seq<Option<usize>>) -> bool {
    &&& parents.len() >= 1
    &&& parents[0] is None
    &&& forall|t: int|
        0 < t < parents.len() ==> match #[trigger] parents[t] {
            Some(p) => (p as int) < t,
            None => false,
        }
}

pub proof fn lemma_ancestor_le(parents: Seq<Option<usize>>, a: int, t: int)
    requires
        is_ancestor(parents, a, t),
    ensures
        a <= t,
    decreases t,
{
    if t != a {
        lemma_ancestor_le(parents, a, parents[t].unwrap() as int);
    }
}

pub proof fn lemma_root_is_ancestor(parents: Seq<Option<usize>>, t: int)
    requires
        parents_wf(parents),
        0 <= t < parents.len(),
    ensures
        is_ancestor(parents, 0, t),
    decreases t,
{
    if t != 0 {
        lemma_root_is_ancestor(parents, parents[t].unwrap() as int);
    }
}

pub proof fn lemma_ancestor_trans(parents: Seq<Option<usize>>, a: int, b: int, t: int)
    requires
        is_ancestor(parents, a, b),
        is_ancestor(parents, b, t),
    ensures
        is_ancestor(parents, a, t),
    decreases t,
{
    if t != b {
        lemma_ancestor_trans(parents, a, b, parents[t].unwrap() as int);
    }
}

/// Appending tasks leaves the ancestry of earlier tasks as it was.
pub proof fn lemma_ancestor_extend(pa: Seq<Option<usize>>, pb: Seq<Option<usize>>, a: int, t: int)
    requires
        pa.len() <= pb.len(),
        forall|i: int| 0 <= i < pa.len() ==> pa[i] == pb[i],
        0 <= t < pa.len(),
    ensures
        is_ancestor(pa, a, t) == is_ancestor(pb, a, t),
    decreases t,
{
    if t != a {
        match pa[t] {
            Some(p) => {
                if (p as int) < t {
                    lemma_ancestor_extend(pa, pb, a, p as int);
                }
            },
            None => {},
        }
    }
}

pub proof fn lemma_bytes_extend(
    pa: Seq<Option<usize>>,
    pb: Seq<Option<usize>>,
    found: Seq<(int, int)>,
    a: int,
)
    requires
        pa.len() <= pb.len(),
        forall|i: int| 0 <= i < pa.len() ==> pa[i] == pb[i],
        forall|i: int| 0 <= i < found.len() ==> 0 <= (#[trigger] found[i]).0 < pa.len(),
    ensures
        bytes_beneath(pa, found, a) == bytes_beneath(pb, found, a),
    decreases found.len(),
{
    if found.len() > 0 {
        lemma_bytes_extend(pa, pb, found.drop_last(), a);
        lemma_ancestor_extend(pa, pb, a, found.last().0);
    }
}

/// Nothing was found beneath a task that is newer than every finding.
pub proof fn lemma_bytes_new_task(parents: Seq<Option<usize>>, found: Seq<(int, int)>, a: int)
    requires
        forall|i: int| 0 <= i < found.len() ==> (#[trigger] found[i]).0 < a,
    ensures
        bytes_beneath(parents, found, a) == 0,
    decreases found.len(),
{
    if found.len() > 0 {
        lemma_bytes_new_task(parents, found.drop_last(), a);
        if is_ancestor(parents, a, found.last().0) {
            lemma_ancestor_le(parents, a, found.last().0);
        }
    }
}

/// Paths of the subdirectories of a listing that the cache does not know, in order:
/// the directories that become tasks.
pub open spec fn new_dirs(entries: Seq<DirEntry>, cache: Map<Seq<char>, u64>) -> Seq<Seq<char>>
    decreases entries.len(),
{
    if entries.len() == 0 {
        Seq::empty()
    } else {
        let e = entries.last();
        let rest = new_dirs(entries.drop_last(), cache);
        if e.kind == EntryKind::Directory && !cache.contains_key(e.path@) {
            rest.push(e.path@)
        } else {
            rest
        }
    }
}

/// The amounts that a listing of task `t` adds: each file's size, and the cached size
/// of each subdirectory that the cache knows.
pub open spec fn listing_found(t: int, entries: Seq<DirEntry>, cache: Map<Seq<char>, u64>) -> Seq<
    (int, int),
>
    decreases entries.len(),
{
    if entries.len() == 0 {
        Seq::empty()
    } else {
        let e = entries.last();
        let rest = listing_found(t, entries.drop_last(), cache);
        if e.kind == EntryKind::Directory {
            if cache.contains_key(e.path@) {
                rest.push((t, cache[e.path@] as int))
            } else {
                rest
            }
        } else if e.kind == EntryKind::File {
            rest.push((t, e.size as int))
        } else {
            rest
        }
    }
}

/// The progress entries that a listing of the root adds.
pub open spec fn root_views(entries: Seq<DirEntry>, cache: Map<Seq<char>, u64>, now: u64) -> Seq<
    ItemView,
>
    decreases entries.len(),
{
    if entries.len() == 0 {
        Seq::empty()
    } else {
        let e = entries.last();
        let rest = root_views(entries.drop_last(), cache, now);
        if e.kind == EntryKind::Directory {
            if cache.contains_key(e.path@) {
                rest
            } else {
                rest.push(
                    ItemView::Directory(
                        e.path,
                        DirectoryScanProgress { start_time: now, completed_time: None, size: 0 },
                    ),
                )
            }
        } else if e.kind == EntryKind::File {
            rest.push(ItemView::File(e.path, e.size))
        } else {
            rest
        }
    }
}

/// Sum of the amounts of a sequence of findings.
pub open spec fn found_total(s: Seq<(int, int)>) -> int
    decreases s.len(),
{
    if s.len() == 0 {
        0
    } else {
        found_total(s.drop_last()) + s.last().1
    }
}

/// Task ids `a`, `a + 1`, ..., `b - 1`.
pub open spec fn id_range(a: int, b: int) -> Seq<usize> {
    Seq::new(if a <= b {
        (b - a) as nat
    } else {
        0
    }, |i: int| (a + i) as usize)
}

/// Every task's accumulator holds exactly the bytes found beneath it, whatever the
/// order in which workers took tasks and applied listings.
pub proof fn lemma_size_is_bytes_beneath(s: &Scanner, t: int)
    requires
        s.wf(),
        0 <= t < s.task_count(),
    ensures
        s.size_of(t) == bytes_beneath(s.parents(), s.findings(), t),
{
    assert(s.tasks@[t].size as int == bytes_beneath(s.parents(), s.findings(), t));
}

proof fn lemma_root_bytes(parents: Seq<Option<usize>>, found: Seq<(int, int)>)
    requires
        parents_wf(parents),
        forall|i: int| 0 <= i < found.len() ==> 0 <= (#[trigger] found[i]).0 < parents.len(),
    ensures
        bytes_beneath(parents, found, 0) == found_total(found),
    decreases found.len(),
{
    if found.len() > 0 {
        lemma_root_bytes(parents, found.drop_last());
        lemma_root_is_ancestor(parents, found.last().0);
    }
}

/// What a well-formed scan guarantees: a tree of tasks, findings in existing tasks,
/// and each task's progress entry, where it has one, showing its accumulator.
pub proof fn lemma_scan_shape(s: &Scanner)
    requires
        s.wf(),
    ensures
        s.parents().len() == s.task_count(),
        parents_wf(s.parents()),
        forall|i: int|
            0 <= i < s.findings().len() ==> 0 <= (#[trigger] s.findings()[i]).0 < s.task_count()
                && s.findings()[i].1 >= 0,
        forall|t: int|
            0 <= t < s.task_count() && (#[trigger] s.view_of(t)) is Some ==> {
                let v = s.view_of(t).unwrap() as int;
                &&& 0 <= v < s.view_count()
                &&& match s.views_seq()[v] {
                    ItemView::Directory(_, p) => p.size == s.size_of(t),
                    ItemView::File(_, _) => false,
                }
            },
        forall|t1: int, t2: int|
            0 <= t1 < s.task_count() && 0 <= t2 < s.task_count() && (#[trigger] s.view_of(t1)) is Some
                && s.view_of(t1) == #[trigger] s.view_of(t2) ==> t1 == t2,
{
    assert forall|t: int|
        0 <= t < s.task_count() && (#[trigger] s.view_of(t)) is Some implies {
            let v = s.view_of(t).unwrap() as int;
            &&& 0 <= v < s.view_count()
            &&& match s.views_seq()[v] {
                ItemView::Directory(_, p) => p.size == s.size_of(t),
                ItemView::File(_, _) => false,
            }
        } by {
        assert(s.tasks@[t].view is Some);
    };
    assert forall|t1: int, t2: int|
        0 <= t1 < s.task_count() && 0 <= t2 < s.task_count() && (#[trigger] s.view_of(t1)) is Some
            && s.view_of(t1) == #[trigger] s.view_of(t2) implies t1 == t2 by {
        assert(s.tasks@[t1].view == s.tasks@[t2].view);
    };
}

/// The root's accumulator holds the sum of every amount found in the scan.
pub proof fn lemma_root_holds_everything(s: &Scanner)
    requires
        s.wf(),
    ensures
        s.size_of(0) == found_total(s.findings()),
{
    lemma_root_bytes(s.parents(), s.findings());
    assert(s.tasks@[0].size as int == bytes_beneath(s.parents(), s.findings(), 0));
}

/// A subdirectory whose size the cache knows never becomes a task, so nothing
/// beneath it is read again; its cached size is what it adds.
pub proof fn lemma_cached_dirs_not_traversed(
    t: int,
    entries: Seq<DirEntry>,
    cache: Map<Seq<char>, u64>,
    path: Seq<char>,
)
    requires
        cache.contains_key(path),
    ensures
        !new_dirs(entries, cache).contains(path),
        (exists|i: int|
            0 <= i < entries.len() && entries[i].kind == EntryKind::Directory && entries[i].path@
                == path) ==> listing_found(t, entries, cache).contains((t, cache[path] as int)),
    decreases entries.len(),
{
    if entries.len() > 0 {
        let rest = entries.drop_last();
        lemma_cached_dirs_not_traversed(t, rest, cache, path);
        if exists|i: int|
            0 <= i < entries.len() && entries[i].kind == EntryKind::Directory && entries[i].path@
                == path {
            let i = choose|i: int|
                0 <= i < entries.len() && entries[i].kind == EntryKind::Directory && entries[i].path@
                    == path;
            if i < entries.len() - 1 {
                assert(rest[i] == entries[i]);
                let lf = listing_found(t, rest, cache);
                let k = choose|k: int| 0 <= k < lf.len() && lf[k] == (t, cache[path] as int);
                let e = entries.last();
                if e.kind == EntryKind::Directory && cache.contains_key(e.path@) {
                    assert(listing_found(t, entries, cache)[k] == lf[k]);
                } else if e.kind == EntryKind::File {
                    assert(listing_found(t, entries, cache)[k] == lf[k]);
                }
            } else {
                let lf1 = listing_found(t, entries, cache);
                assert(lf1[lf1.len() - 1] == (t, cache[path] as int));
            }
        }
    }
}

/// The tasks that ending the traversal of `c` completes, from `c` upward: a task
/// completes when nothing is pending on it any more.
pub open spec fn completion_chain(s: Scanner, c: int) -> Seq<int>
    decreases c,
{
    if 0 <= c < s.task_count() && s.pending_of(c) <= 1 {
        match s.parents()[c] {
            Some(p) => if 0 <= (p as int) < c {
                seq![c] + completion_chain(s, p as int)
            } else {
                seq![c]
            },
            None => seq![c],
        }
    } else {
        Seq::empty()
    }
}

/// The task, if any, whose pending count drops without completing when the
/// traversal of `c` ends.
pub open spec fn completion_stop(s: Scanner, c: int) -> Option<int>
    decreases c,
{
    if 0 <= c < s.task_count() {
        if s.pending_of(c) <= 1 {
            match s.parents()[c] {
                Some(p) => if 0 <= (p as int) < c {
                    completion_stop(s, p as int)
                } else {
                    None
                },
                None => None,
            }
        } else {
            Some(c)
        }
    } else {
        None
    }
}

/// The cache after the tasks of `chain` complete, in order: each one larger than the
/// memoization threshold records its size.
pub open spec fn cache_after(s: Scanner, chain: Seq<int>, m: Map<Seq<char>, u64>) -> Map<
    Seq<char>,
    u64,
>
    decreases chain.len(),
{
    if chain.len() == 0 {
        m
    } else {
        let before = cache_after(s, chain.drop_last(), m);
        let k = chain.last();
        if s.size_of(k) > MEMO_THRESHOLD {
            before.insert(s.path_of(k), s.size_of(k) as u64)
        } else {
            before
        }
    }
}

/// A progress entry with its completion time set to `now`.
pub open spec fn stamp(v: ItemView, now: u64) -> ItemView {
    match v {
        ItemView::Directory(p, g) => ItemView::Directory(
            p,
            DirectoryScanProgress { completed_time: Some(now), ..g },
        ),
        ItemView::File(p, n) => ItemView::File(p, n),
    }
}

/// Some task of `chain` owns progress entry `v`.
pub open spec fn owns_entry(s: Scanner, chain: Seq<int>, v: int) -> bool {
    exists|i: int| 0 <= i < chain.len() && s.view_of(#[trigger] chain[i]) == Some(v as usize)
}

/// `a` is `b` with, at most, another accumulated size.
pub open spec fn same_entry(a: ItemView, b: ItemView) -> bool {
    match (a, b) {
        (ItemView::Directory(pa, ga), ItemView::Directory(pb, gb)) => pa == pb && ga.start_time
            == gb.start_time && ga.completed_time == gb.completed_time,
        (ItemView::File(pa, na), ItemView::File(pb, nb)) => pa == pb && na == nb,
        _ => false,
    }
}

impl Scanner {
    /// Parent link of every task.
    pub closed spec fn parents(&self) -> Seq<Option<usize>> {
        Seq::new(self.tasks@.len(), |i: int| self.tasks@[i].parent)
    }

    pub closed spec fn task_count(&self) -> nat {
        self.tasks@.len()
    }

    pub closed spec fn path_of(&self, t: int) -> Seq<char> {
        self.tasks@[t].path@
    }

    pub closed spec fn size_of(&self, t: int) -> int {
        self.tasks@[t].size as int
    }

    /// Every amount added so far, with the task in which it was found.
    pub closed spec fn findings(&self) -> Seq<(int, int)> {
        self.found@
    }

    pub closed spec fn queued(&self) -> Seq<usize> {
        self.queue@
    }

    pub closed spec fn active(&self) -> int {
        self.n_active as int
    }

    pub closed spec fn stopped(&self) -> bool {
        self.stop_flag
    }

    pub closed spec fn cache_map(&self) -> Map<Seq<char>, u64> {
        self.cache@
    }

    /// Whether the listing of task `t` has been applied (or could not be read).
    pub closed spec fn traversed_of(&self, t: int) -> bool {
        self.tasks@[t].traversed
    }

    /// Whether the listing of task `t` has been applied.
    pub closed spec fn listed_of(&self, t: int) -> bool {
        self.tasks@[t].listed
    }

    /// What task `t` still waits for: its own traversal (one) and its children that
    /// have not completed.
    pub closed spec fn pending_of(&self, t: int) -> int {
        self.tasks@[t].pending as int
    }

    /// Where the progress entry of task `t` is, if it has one.
    pub closed spec fn view_of(&self, t: int) -> Option<usize> {
        self.tasks@[t].view
    }

    /// The progress model.
    pub closed spec fn views_seq(&self) -> Seq<ItemView> {
        self.views@
    }

    pub closed spec fn view_count(&self) -> nat {
        self.views@.len()
    }

    pub closed spec fn views_wf(&self) -> bool {
        &&& forall|t: int|
            0 <= t < self.tasks@.len() && (#[trigger] self.tasks@[t]).view is Some ==> {
                let v = self.tasks@[t].view.unwrap() as int;
                &&& 0 <= v < self.views@.len()
                &&& match self.views@[v] {
                    ItemView::Directory(_, p) => p.size == self.tasks@[t].size,
                    ItemView::File(_, _) => false,
                }
            }
        &&& forall|t1: int, t2: int|
            0 <= t1 < self.tasks@.len() && 0 <= t2 < self.tasks@.len() && (#[trigger] self.tasks@[t1]).view
                is Some && self.tasks@[t1].view == (#[trigger] self.tasks@[t2]).view ==> t1 == t2
    }

    /// The scan's invariant.
    pub closed spec fn wf(&self) -> bool {
        &&& parents_wf(self.parents())
        &&& forall|i: int|
            0 <= i < self.found@.len() ==> 0 <= (#[trigger] self.found@[i]).0 < self.tasks@.len()
                && self.found@[i].1 >= 0
        &&& forall|t: int|
            0 <= t < self.tasks@.len() ==> (#[trigger] self.tasks@[t]).size as int
                == bytes_beneath(self.parents(), self.found@, t)
        &&& forall|t: int|
            0 <= t < self.tasks@.len() ==> (#[trigger] self.tasks@[t]).size <= self.tasks@[0].size
        &&& forall|t: int|
            0 <= t < self.tasks@.len() ==> (#[trigger] self.tasks@[t]).pending <= self.tasks@.len()
        &&& forall|i: int| 0 <= i < self.queue@.len() ==> (#[trigger] self.queue@[i]) < self.tasks@.len()
        &&& self.n_active + self.queue@.len() <= self.tasks@.len()
        &&& self.views_wf()
        &&& self.tasks@[0].view is None
    }

    /// A scan of `root` that has not started: the root alone, queued, and always
    /// traversed even where the cache knows its size.
    pub fn new(root: String, cache: SizeCache) -> (r: Scanner)
        ensures
            r.wf(),
            r.task_count() == 1,
            r.path_of(0) == root@,
            r.size_of(0) == 0,
            r.queued() == seq![0usize],
            r.active() == 0,
            !r.stopped(),
            r.cache_map() == cache@,
            r.view_count() == 0,
            r.views_seq() == Seq::<ItemView>::empty(),
            r.findings() == Seq::<(int, int)>::empty(),
            r.pending_of(0) == 1,
            !r.listed_of(0),
            !r.traversed_of(0),
    {
        let mut tasks: Vec<ScanTask> = Vec::new();
        tasks.push(
            ScanTask { path: root, parent: None, size: 0, view: None, pending: 1, listed: false, traversed: false },
        );
        let mut queue: Vec<usize> = Vec::new();
        queue.push(0);
        let r = Scanner {
            tasks,
            queue,
            n_active: 0,
            stop_flag: false,
            cache,
            views: Vec::new(),
            found: Ghost(Seq::empty()),
        };
        assert(r.parents()[0] is None);
        r
    }

    /// Adds `amount` bytes found in task `k` to its accumulator and to those of all
    /// its ancestors, with their views.
    fn add_size(&mut self, k: usize, amount: u64)
        requires
            old(self).wf(),
            k < old(self).tasks@.len(),
            old(self).tasks@[0].size + amount <= u64::MAX,
        ensures
            final(self).wf(),
            final(self).found@ == old(self).found@.push((k as int, amount as int)),
            final(self).tasks@.len() == old(self).tasks@.len(),
            final(self).parents() == old(self).parents(),
            forall|t: int|
                0 <= t < old(self).tasks@.len() ==> {
                    &&& (#[trigger] final(self).tasks@[t]).path == old(self).tasks@[t].path
                    &&& final(self).tasks@[t].view == old(self).tasks@[t].view
                    &&& final(self).tasks@[t].pending == old(self).tasks@[t].pending
                    &&& final(self).tasks@[t].traversed == old(self).tasks@[t].traversed
                    &&& final(self).tasks@[t].listed == old(self).tasks@[t].listed
                    &&& final(self).tasks@[t].size == old(self).tasks@[t].size + if is_ancestor(
                        old(self).parents(),
                        t,
                        k as int,
                    ) {
                        amount as int
                    } else {
                        0
                    }
                },
            final(self).queue == old(self).queue,
            final(self).n_active == old(self).n_active,
            final(self).stop_flag == old(self).stop_flag,
            final(self).cache == old(self).cache,
            final(self).views@.len() == old(self).views@.len(),
            k == 0 ==> final(self).views == old(self).views,
            forall|v: int|
                0 <= v < old(self).views@.len() ==> same_entry(
                    #[trigger] final(self).views@[v],
                    old(self).views@[v],
                ),
    {
        let ghost parents = self.parents();
        let ghost old_tasks = self.tasks@;
        let ghost old_views = self.views@;
        proof {
            lemma_root_is_ancestor(parents, k as int);
        }
        let mut cur: Option<usize> = Some(k);
        while cur.is_some()
            invariant
                parents_wf(parents),
                k < old_tasks.len(),
                self.tasks@.len() == old_tasks.len(),
                self.views@.len() == old_views.len(),
                self.parents() == parents,
                old_tasks[0].size + amount <= u64::MAX,
                old_tasks == old(self).tasks@,
                forall|t: int| 0 <= t < old_tasks.len() ==> (#[trigger] old_tasks[t]).size <= old_tasks[0].size,
                self.queue == old(self).queue,
                self.n_active == old(self).n_active,
                self.stop_flag == old(self).stop_flag,
                self.cache == old(self).cache,
                self.found == old(self).found,
                old_tasks[0].view is None,
                k == 0 ==> self.views == old(self).views,
                k == 0 ==> cur is None || cur == Some(0usize),
                forall|v: int|
                    0 <= v < old_views.len() ==> same_entry(#[trigger] self.views@[v], old_views[v]),
                old_views == old(self).views@,
                match cur {
                    Some(c) => (c as int) < old_tasks.len() && is_ancestor(parents, c as int, k as int),
                    None => true,
                },
                forall|t: int|
                    0 <= t < old_tasks.len() ==> {
                        &&& (#[trigger] self.tasks@[t]).path == old_tasks[t].path
                        &&& self.tasks@[t].view == old_tasks[t].view
                        &&& self.tasks@[t].pending == old_tasks[t].pending
                        &&& self.tasks@[t].traversed == old_tasks[t].traversed
                        &&& self.tasks@[t].listed == old_tasks[t].listed
                        &&& self.tasks@[t].size == old_tasks[t].size + if is_ancestor(
                            parents,
                            t,
                            k as int,
                        ) && !(match cur {
                            Some(c) => is_ancestor(parents, t, c as int),
                            None => false,
                        }) {
                            amount as int
                        } else {
                            0
                        }
                    },
                forall|t: int|
                    0 <= t < old_tasks.len() && (#[trigger] old_tasks[t]).view is Some ==> {
                        let v = old_tasks[t].view.unwrap() as int;
                        &&& 0 <= v < self.views@.len()
                        &&& match self.views@[v] {
                            ItemView::Directory(_, p) => p.size == self.tasks@[t].size,
                            ItemView::File(_, _) => false,
                        }
                    },
                forall|t1: int, t2: int|
                    0 <= t1 < old_tasks.len() && 0 <= t2 < old_tasks.len() && (#[trigger] old_tasks[t1]).view
                        is Some && old_tasks[t1].view == (#[trigger] old_tasks[t2]).view ==> t1 == t2,
            decreases match cur {
                Some(c) => c as int + 1,
                None => 0,
            },
        {
            let c = cur.unwrap();
            proof {
                lemma_root_is_ancestor(parents, c as int);
                assert(is_ancestor(parents, c as int, c as int));
                assert(self.tasks@[c as int].size == old_tasks[c as int].size);
            }
            let new_size = self.tasks[c].size + amount;
            self.tasks[c].size = new_size;
            match self.tasks[c].view {
                Some(v) => {
                    let updated = match &self.views[v] {
                        ItemView::Directory(p, progress) => ItemView::Directory(
                            p.clone(),
                            DirectoryScanProgress { size: new_size, ..*progress },
                        ),
                        ItemView::File(p, s) => ItemView::File(p.clone(), *s),
                    };
                    self.views.set(v, updated);
                },
                None => {},
            }
            let next = self.tasks[c].parent;
            proof {
                assert forall|t: int| 0 <= t < old_tasks.len() implies is_ancestor(parents, t, c as int) == (t == c || match next {
                    Some(p) => is_ancestor(parents, t, p as int),
                    None => false,
                }) by {
                    assert(self.parents()[c as int] == next);
                };
                match next {
                    Some(p) => {
                        assert(self.parents()[c as int] == next);
                        assert(is_ancestor(parents, p as int, c as int));
                        lemma_ancestor_trans(parents, p as int, c as int, k as int);
                        if is_ancestor(parents, c as int, p as int) {
                            lemma_ancestor_le(parents, c as int, p as int);
                        }
                    },
                    None => {},
                }
            }
            cur = next;
        }
        proof {
            let new_found = self.found@.push((k as int, amount as int));
            assert(new_found.drop_last() =~= self.found@);
        }
        self.found = Ghost(self.found@.push((k as int, amount as int)));
        proof {
            assert forall|t: int| 0 <= t < self.tasks@.len() implies (#[trigger] self.tasks@[t]).size <= self.tasks@[0].size by {
                lemma_root_is_ancestor(parents, k as int);
            };
        }
    }

    /// Marks task `c` complete: stamps its view, and remembers its size when it
    /// exceeds the memoization threshold.
    fn complete(&mut self, c: usize, now: u64)
        requires
            old(self).wf(),
            c < old(self).tasks@.len(),
        ensures
            final(self).wf(),
            final(self).tasks == old(self).tasks,
            final(self).found == old(self).found,
            final(self).queue == old(self).queue,
            final(self).n_active == old(self).n_active,
            final(self).stop_flag == old(self).stop_flag,
            final(self).views@.len() == old(self).views@.len(),
            old(self).tasks@[c as int].view is None ==> final(self).views == old(self).views,
            old(self).tasks@[c as int].view matches Some(v) ==> final(self).views@ == old(self).views@.update(v as int, stamp(old(self).views@[v as int], now)),
            final(self).cache@ == (if old(self).tasks@[c as int].size > MEMO_THRESHOLD {
                old(self).cache@.insert(old(self).tasks@[c as int].path@, old(self).tasks@[c as int].size)
            } else {
                old(self).cache@
            }),
    {
        match self.tasks[c].view {
            Some(v) => {
                let updated = match &self.views[v] {
                    ItemView::Directory(p, progress) => ItemView::Directory(
                        p.clone(),
                        DirectoryScanProgress { completed_time: Some(now), ..*progress },
                    ),
                    ItemView::File(p, s) => ItemView::File(p.clone(), *s),
                };
                self.views.set(v, updated);
            },
            None => {},
        }
        let size = self.tasks[c].size;
        if size > MEMO_THRESHOLD {
            let path = self.tasks[c].path.clone();
            self.cache.record(path, size);
        }
    }

    /// Ends the traversal of task `t` (its listing has been applied, or could not be
    /// read): its own share of its pending count goes, and every task that nothing is
    /// pending on any more completes, from `t` upward. A completing task stamps its
    /// progress entry with `now` and, when larger than the memoization threshold,
    /// records its size in the cache. A task that does not exist or whose traversal
    /// already ended leaves everything as it was.
    pub fn finish_traversal(&mut self, t: usize, now: u64)
        requires
            old(self).wf(),
        ensures
            final(self).wf(),
            ((t as int) >= old(self).task_count() || old(self).traversed_of(t as int)) ==> *final(self) == *old(self),
            ((t as int) < old(self).task_count() && !old(self).traversed_of(t as int)) ==> ({
                let chain = completion_chain(*old(self), t as int);
                let stop = completion_stop(*old(self), t as int);
                &&& final(self).task_count() == old(self).task_count()
                &&& final(self).parents() == old(self).parents()
                &&& forall|k: int|
                    0 <= k < old(self).task_count() ==> {
                        &&& #[trigger] final(self).path_of(k) == old(self).path_of(k)
                        &&& final(self).size_of(k) == old(self).size_of(k)
                        &&& final(self).view_of(k) == old(self).view_of(k)
                        &&& final(self).listed_of(k) == old(self).listed_of(k)
                        &&& final(self).traversed_of(k) == (k == t || old(self).traversed_of(k))
                        &&& final(self).pending_of(k) == (if chain.contains(k) {
                            0
                        } else if stop == Some(k) {
                            old(self).pending_of(k) - 1
                        } else {
                            old(self).pending_of(k)
                        })
                    }
                &&& final(self).findings() == old(self).findings()
                &&& final(self).queued() == old(self).queued()
                &&& final(self).active() == old(self).active()
                &&& final(self).stopped() == old(self).stopped()
                &&& final(self).view_count() == old(self).view_count()
                &&& forall|v: int|
                    0 <= v < old(self).view_count() ==> #[trigger] final(self).views_seq()[v] == (if owns_entry(
                        *old(self),
                        chain,
                        v,
                    ) {
                        stamp(old(self).views_seq()[v], now)
                    } else {
                        old(self).views_seq()[v]
                    })
                &&& final(self).cache_map() == cache_after(*old(self), chain, old(self).cache_map())
            }),
    {
        if t >= self.tasks.len() || self.tasks[t].traversed {
            return;
        }
        let ghost start = *self;
        let ghost chain = completion_chain(start, t as int);
        let ghost stop = completion_stop(start, t as int);
        self.tasks[t].traversed = true;
        proof {
            assert(self.parents() =~= old(self).parents());
            assert forall|k: int| 0 <= k < self.tasks@.len() implies (#[trigger] self.tasks@[k]).view
                == old(self).tasks@[k].view && self.tasks@[k].size == old(self).tasks@[k].size
                && self.tasks@[k].pending == old(self).tasks@[k].pending by {};
            assert(chain.skip(0) =~= chain);
            assert(chain.take(0) =~= Seq::<int>::empty());
            assert forall|v: int| 0 <= v < start.views@.len() implies !owns_entry(start, chain.take(0), v) by {};
        }
        let n_views = self.views.len();
        let ghost mut done: int = 0;
        let mut cur: Option<usize> = Some(t);
        while cur.is_some()
            invariant
                self.wf(),
                start.wf(),
                start.views@.len() == n_views,
                chain == completion_chain(start, t as int),
                stop == completion_stop(start, t as int),
                (t as int) < start.tasks@.len(),
                0 <= done <= chain.len(),
                cur matches Some(c) ==> {
                    &&& (c as int) < start.tasks@.len()
                    &&& chain.skip(done) == completion_chain(start, c as int)
                    &&& completion_stop(start, c as int) == stop
                    &&& forall|i: int| 0 <= i < done ==> chain[i] > c
                },
                cur is None ==> done == chain.len(),
                self.tasks@.len() == start.tasks@.len(),
                self.parents() == start.parents(),
                forall|k: int|
                    0 <= k < start.tasks@.len() ==> {
                        &&& (#[trigger] self.tasks@[k]).path == start.tasks@[k].path
                        &&& self.tasks@[k].size == start.tasks@[k].size
                        &&& self.tasks@[k].view == start.tasks@[k].view
                        &&& self.tasks@[k].listed == start.tasks@[k].listed
                        &&& self.tasks@[k].traversed == (k == t || start.tasks@[k].traversed)
                        &&& self.tasks@[k].pending as int == (if chain.take(done).contains(k) {
                            0
                        } else if cur is None && stop == Some(k) {
                            start.tasks@[k].pending - 1
                        } else {
                            start.tasks@[k].pending as int
                        })
                    },
                self.found == start.found,
                self.queue == start.queue,
                self.n_active == start.n_active,
                self.stop_flag == start.stop_flag,
                self.views@.len() == start.views@.len(),
                forall|v: int|
                    0 <= v < start.views@.len() ==> #[trigger] self.views@[v] == (if owns_entry(
                        start,
                        chain.take(done),
                        v,
                    ) {
                        stamp(start.views@[v], now)
                    } else {
                        start.views@[v]
                    }),
                self.cache@ == cache_after(start, chain.take(done), start.cache@),
            decreases match cur {
                Some(c) => c as int + 1,
                None => 0,
            },
        {
            let c = cur.unwrap();
            let ghost before = *self;
            proof {
                assert(!chain.take(done).contains(c as int));
                assert(self.tasks@[c as int].pending == start.tasks@[c as int].pending);
            }
            let p = self.tasks[c].pending;
            if p > 0 {
                self.tasks[c].pending = p - 1;
            }
            proof {
                assert(self.parents() =~= start.parents());
            }
            if self.tasks[c].pending == 0 {
                let ghost mid = *self;
                self.complete(c, now);
                let next = self.tasks[c].parent;
                proof {
                    assert(self.parents()[c as int] == next);
                    assert(start.pending_of(c as int) <= 1);
                    let rest = completion_chain(start, c as int);
                    assert(rest[0] == c as int);
                    assert(chain.skip(done)[0] == c as int);
                    assert(chain[done] == c as int);
                    assert(chain.take(done + 1) =~= chain.take(done).push(c as int));
                    match next {
                        Some(q) => {
                            assert((q as int) < c);
                            assert(rest == seq![c as int] + completion_chain(start, q as int));
                            assert(chain.skip(done + 1) =~= chain.skip(done).drop_first());
                            assert((seq![c as int] + completion_chain(start, q as int)).drop_first()
                                =~= completion_chain(start, q as int));
                        },
                        None => {
                            assert(rest == seq![c as int]);
                            assert(chain.skip(done).len() == 1);
                        },
                    }
                    assert forall|k: int| 0 <= k < start.tasks@.len() implies chain.take(done + 1).contains(k)
                        == (chain.take(done).contains(k) || k == c) by {
                        if k == c {
                            assert(chain.take(done + 1)[done] == k);
                        }
                        if chain.take(done).contains(k) {
                            let i = choose|i: int| 0 <= i < done && #[trigger] chain.take(done)[i] == k;
                            assert(chain.take(done + 1)[i] == k);
                        }
                        if chain.take(done + 1).contains(k) {
                            let i = choose|i: int| 0 <= i < done + 1 && #[trigger] chain.take(done + 1)[i] == k;
                            if i < done {
                                assert(chain.take(done)[i] == k);
                            }
                        }
                    };
                    assert forall|v: int| 0 <= v < start.views@.len() implies owns_entry(start, chain.take(done + 1), v)
                        == (owns_entry(start, chain.take(done), v) || start.view_of(c as int) == Some(v as usize)) by {
                        let ext = chain.take(done + 1);
                        if start.view_of(c as int) == Some(v as usize) {
                            assert(ext[done] == c as int);
                        }
                        if owns_entry(start, chain.take(done), v) {
                            let i = choose|i: int| 0 <= i < chain.take(done).len() && start.view_of(#[trigger] chain.take(done)[i]) == Some(v as usize);
                            assert(ext[i] == chain.take(done)[i]);
                        }
                        if owns_entry(start, ext, v) {
                            let i = choose|i: int| 0 <= i < ext.len() && start.view_of(#[trigger] ext[i]) == Some(v as usize);
                            if i < done {
                                assert(chain.take(done)[i] == ext[i]);
                            }
                        }
                    };
                    assert(chain.take(done + 1).drop_last() =~= chain.take(done));
                    assert(mid.views == before.views);
                    assert forall|v: int| 0 <= v < start.views@.len() implies #[trigger] self.views@[v] == (
                    if owns_entry(start, chain.take(done + 1), v) {
                        stamp(start.views@[v], now)
                    } else {
                        start.views@[v]
                    }) by {
                        assert(start.view_of(c as int) == mid.tasks@[c as int].view);
                        assert(before.views@[v] == (if owns_entry(start, chain.take(done), v) {
                            stamp(start.views@[v], now)
                        } else {
                            start.views@[v]
                        }));
                        assert(owns_entry(start, chain.take(done + 1), v) == (owns_entry(
                            start,
                            chain.take(done),
                            v,
                        ) || start.view_of(c as int) == Some(v as usize)));
                        match mid.tasks@[c as int].view {
                            Some(vc) => {
                                if vc as int == v {
                                    assert(self.views@[v] == stamp(mid.views@[v], now));
                                    assert(stamp(stamp(start.views@[v], now), now) == stamp(
                                        start.views@[v],
                                        now,
                                    ));
                                } else {
                                    assert(self.views@[v] == mid.views@[v]);
                                }
                            },
                            None => {
                                assert(self.views@[v] == mid.views@[v]);
                            },
                        }
                    };
                }
                proof {
                    done = done + 1;
                }
                cur = next;
            } else {
                proof {
                    assert(start.pending_of(c as int) > 1);
                    assert(completion_chain(start, c as int) =~= Seq::<int>::empty());
                    assert(chain.skip(done).len() == 0);
                    assert(completion_stop(start, c as int) == Some(c as int));
                }
                cur = None;
            }
        }
        proof {
            assert(chain.take(done) =~= chain);
        }
    }

    /// Takes the next queued task, if any, for a worker, which then counts as active.
    pub fn get_message(&mut self) -> (r: Option<usize>)
        requires
            old(self).wf(),
        ensures
            final(self).wf(),
            final(self).task_count() == old(self).task_count(),
            final(self).findings() == old(self).findings(),
            final(self).stopped() == old(self).stopped(),
            final(self).cache_map() == old(self).cache_map(),
            old(self).queued().len() > 0 ==> {
                &&& r == Some(old(self).queued()[0])
                &&& final(self).queued() == old(self).queued().drop_first()
                &&& final(self).active() == old(self).active() + 1
            },
            old(self).queued().len() == 0 ==> {
                &&& r is None
                &&& final(self).queued() == old(self).queued()
                &&& final(self).active() == old(self).active()
            },
            r matches Some(t) ==> (t as int) < final(self).task_count(),
    {
        let n_tasks = self.tasks.len();
        if self.queue.len() > 0 {
            assert(self.n_active + 1 <= n_tasks);
            let t = self.queue.remove(0);
            self.n_active = self.n_active + 1;
            proof {
                assert(self.queue@ =~= old(self).queue@.drop_first());
                assert forall|i: int| 0 <= i < self.queue@.len() implies (#[trigger] self.queue@[i]) < self.tasks@.len() by {
                    assert(self.queue@[i] == old(self).queue@[i + 1]);
                };
            }
            Some(t)
        } else {
            None
        }
    }

    /// A worker is done with the task it took. The scan stops when this leaves no
    /// worker active and nothing queued.
    pub fn on_message_processed(&mut self)
        requires
            old(self).wf(),
        ensures
            final(self).wf(),
            final(self).task_count() == old(self).task_count(),
            final(self).findings() == old(self).findings(),
            final(self).queued() == old(self).queued(),
            final(self).cache_map() == old(self).cache_map(),
            final(self).active() == (if old(self).active() > 0 {
                old(self).active() - 1
            } else {
                0
            }),
            final(self).stopped() == (old(self).stopped() || (final(self).active() == 0
                && final(self).queued().len() == 0)),
    {
        if self.n_active > 0 {
            self.n_active = self.n_active - 1;
        }
        if self.n_active == 0 && self.queue.len() == 0 {
            self.stop_flag = true;
        }
    }

    /// Whether the scan has reached quiescence.
    pub fn is_stopped(&self) -> (r: bool)
        ensures
            r == self.stopped(),
    {
        self.stop_flag
    }

    /// The path of task `t`.
    pub fn task_path(&self, t: usize) -> (r: Option<String>)
        ensures
            (t as int) < self.task_count() ==> (r matches Some(p) && p@ == self.path_of(t as int)),
            (t as int) >= self.task_count() ==> r is None,
    {
        if t < self.tasks.len() {
            Some(self.tasks[t].path.clone())
        } else {
            None
        }
    }

    /// Bytes found beneath task `t` so far.
    pub fn task_size(&self, t: usize) -> (r: Option<u64>)
        ensures
            (t as int) < self.task_count() ==> r == Some(self.size_of(t as int) as u64),
            (t as int) >= self.task_count() ==> r is None,
    {
        if t < self.tasks.len() {
            Some(self.tasks[t].size)
        } else {
            None
        }
    }

    /// The progress model.
    pub fn views(&self) -> (r: &Vec<ItemView>)
        ensures
            r@ == self.views_seq(),
    {
        &self.views
    }

    /// The size cache, for the next scan of the session.
    pub fn into_cache(self) -> (r: SizeCache)
        ensures
            r@ == self.cache_map(),
    {
        self.cache
    }


    /// Applies the listing of task `t`, as read by the caller; `finish_traversal` then
    /// ends its traversal.
    ///
    /// Each file adds its size to `t` and its ancestors. Each subdirectory that the
    /// cache knows adds its cached size the same way and is not traversed; each other
    /// subdirectory becomes a new task under `t`. The first new task is returned, for
    /// the caller to traverse at once; the others are queued for any worker. A listing
    /// of the root also adds a progress entry for each file and each new task. Should
    /// the root total reach `u64::MAX`, an amount is cut to what still fits. The cache
    /// is left as it is. A task that does not exist or whose listing was already
    /// applied leaves everything as it was.
    pub fn apply_listing(&mut self, t: usize, entries: &Vec<DirEntry>, now: u64) -> (r: Option<
        usize,
    >)
        requires
            old(self).wf(),
        ensures
            final(self).wf(),
            ((t as int) >= old(self).task_count() || old(self).listed_of(t as int)) ==> (
            *final(self) == *old(self) && r is None),
            ((t as int) < old(self).task_count() && !old(self).listed_of(t as int)) ==> ({
                let n0 = old(self).task_count() as int;
                let cache = old(self).cache_map();
                let dirs = new_dirs(entries@, cache);
                let n1 = n0 + dirs.len();
                let found = listing_found(t as int, entries@, cache);
                &&& final(self).task_count() == n1
                &&& forall|k: int|
                    0 <= k < n0 ==> #[trigger] final(self).path_of(k) == old(self).path_of(k)
                        && final(self).parents()[k] == old(self).parents()[k]
                &&& forall|j: int|
                    0 <= j < dirs.len() ==> #[trigger] final(self).path_of(n0 + j) == dirs[j]
                        && final(self).parents()[n0 + j] == Some(t)
                &&& r == (if dirs.len() > 0 {
                    Some(n0 as usize)
                } else {
                    None::<usize>
                })
                &&& final(self).queued() == old(self).queued() + id_range(n0 + 1, n1)
                &&& final(self).active() == old(self).active()
                &&& final(self).stopped() == old(self).stopped()
                &&& forall|k: int|
                    0 <= k < n0 ==> {
                        &&& #[trigger] final(self).listed_of(k) == (k == t || old(self).listed_of(k))
                        &&& final(self).traversed_of(k) == old(self).traversed_of(k)
                        &&& final(self).view_of(k) == old(self).view_of(k)
                        &&& final(self).pending_of(k) == old(self).pending_of(k) + if k == t {
                            dirs.len() as int
                        } else {
                            0
                        }
                        &&& (old(self).size_of(0) + found_total(found) <= u64::MAX ==> final(self).size_of(k) == old(self).size_of(k) + if is_ancestor(
                            old(self).parents(),
                            k,
                            t as int,
                        ) {
                            found_total(found)
                        } else {
                            0
                        })
                    }
                &&& forall|j: int|
                    0 <= j < dirs.len() ==> {
                        &&& #[trigger] final(self).size_of(n0 + j) == 0
                        &&& final(self).pending_of(n0 + j) == 1
                        &&& !final(self).listed_of(n0 + j)
                        &&& !final(self).traversed_of(n0 + j)
                    }
                &&& (old(self).size_of(0) + found_total(found) <= u64::MAX ==> final(self).findings()
                    == old(self).findings() + found)
                &&& final(self).cache_map() == cache
                &&& (t == 0 ==> final(self).views_seq() == old(self).views_seq() + root_views(
                    entries@,
                    cache,
                    now,
                ))
                &&& (t != 0 ==> final(self).view_count() == old(self).view_count())
                &&& forall|v: int|
                    0 <= v < old(self).view_count() ==> same_entry(
                        #[trigger] final(self).views_seq()[v],
                        old(self).views_seq()[v],
                    )
            }),
    {
        if t >= self.tasks.len() || self.tasks[t].listed {
            return None;
        }
        let ghost cache = self.cache@;
        let ghost es = entries@;
        let n0 = self.tasks.len();
        let mut greedy: Option<usize> = None;
        let ghost mut extra: Seq<(int, int)> = Seq::empty();
        let mut i: usize = 0;
        proof {
            assert(es.take(0) =~= Seq::<DirEntry>::empty());
            assert(self.found@ + extra =~= self.found@);
            assert(self.queue@ + id_range(n0 + 1, n0 as int) =~= self.queue@);
            assert(self.views@ + root_views(es.take(0), cache, now) =~= self.views@);
        }
        while i < entries.len()
            invariant
                self.wf(),
                es == entries@,
                i <= es.len(),
                t < n0,
                n0 == old(self).tasks@.len(),
                cache == old(self).cache@,
                self.cache == old(self).cache,
                old(self).wf(),
                self.tasks@.len() == n0 + new_dirs(es.take(i as int), cache).len(),
                forall|k: int|
                    0 <= k < n0 ==> {
                        &&& (#[trigger] self.tasks@[k]).listed == old(self).tasks@[k].listed
                        &&& self.tasks@[k].traversed == old(self).tasks@[k].traversed
                        &&& self.tasks@[k].view == old(self).tasks@[k].view
                        &&& self.tasks@[k].pending as int == old(self).tasks@[k].pending + if k == t {
                            new_dirs(es.take(i as int), cache).len() as int
                        } else {
                            0
                        }
                        &&& self.tasks@[k].size as int == old(self).tasks@[k].size + if is_ancestor(
                            old(self).parents(),
                            k,
                            t as int,
                        ) {
                            found_total(extra)
                        } else {
                            0
                        }
                    },
                forall|j: int|
                    n0 <= j < self.tasks@.len() ==> {
                        &&& (#[trigger] self.tasks@[j]).size == 0
                        &&& self.tasks@[j].pending == 1
                        &&& !self.tasks@[j].listed
                        &&& !self.tasks@[j].traversed
                    },
                forall|v: int|
                    0 <= v < old(self).views@.len() ==> same_entry(
                        #[trigger] self.views@[v],
                        old(self).views@[v],
                    ),
                self.views@.len() >= old(self).views@.len(),
                forall|k: int|
                    0 <= k < n0 ==> (#[trigger] self.tasks@[k]).path == old(self).tasks@[k].path
                        && self.tasks@[k].parent == old(self).tasks@[k].parent,
                forall|j: int|
                    0 <= j < new_dirs(es.take(i as int), cache).len() ==> (#[trigger] self.tasks@[n0
                        + j]).path@ == new_dirs(es.take(i as int), cache)[j] && self.tasks@[n0
                        + j].parent == Some(t),
                greedy == (if self.tasks@.len() > n0 {
                    Some(n0)
                } else {
                    None::<usize>
                }),
                self.queue@ == old(self).queue@ + id_range(n0 + 1, self.tasks@.len() as int),
                self.n_active == old(self).n_active,
                self.stop_flag == old(self).stop_flag,
                self.found@ == old(self).found@ + extra,
                self.tasks@[0].size == old(self).tasks@[0].size + found_total(extra),
                old(self).tasks@[0].size + found_total(listing_found(t as int, es.take(i as int), cache))
                    <= u64::MAX ==> extra == listing_found(t as int, es.take(i as int), cache),
                t == 0 ==> self.views@ == old(self).views@ + root_views(es.take(i as int), cache, now),
                t != 0 ==> self.views@.len() == old(self).views@.len(),
            decreases es.len() - i,
        {
            let e = &entries[i];
            proof {
                assert(es.take(i + 1).drop_last() =~= es.take(i as int));
                assert(es.take(i + 1).last() == es[i as int]);
            }
            let ghost before = *self;
            let ghost before_extra = extra;
            if e.kind == EntryKind::Directory {
                match self.cache.lookup(&e.path) {
                    Some(cached) => {
                        let room = u64::MAX - self.tasks[0].size;
                        let amount = if cached <= room {
                            cached
                        } else {
                            room
                        };
                        self.add_size(t, amount);
                        proof {
                            lemma_root_is_ancestor(before.parents(), t as int);
                            assert forall|k: int| 0 <= k < n0 implies is_ancestor(before.parents(), k, t as int)
                                == is_ancestor(old(self).parents(), k, t as int) by {
                                assert forall|q: int| 0 <= q < n0 implies old(self).parents()[q] == before.parents()[q] by {
                                    assert(before.tasks@[q].parent == old(self).tasks@[q].parent);
                                };
                                lemma_ancestor_extend(old(self).parents(), before.parents(), k, t as int);
                            };
                            assert forall|j: int| n0 <= j < before.tasks@.len() implies !is_ancestor(
                                before.parents(),
                                j,
                                t as int,
                            ) by {
                                if is_ancestor(before.parents(), j, t as int) {
                                    lemma_ancestor_le(before.parents(), j, t as int);
                                }
                            };
                            let lf = listing_found(t as int, es.take(i as int), cache);
                            let lf1 = listing_found(t as int, es.take(i + 1), cache);
                            assert(lf1 == lf.push((t as int, cached as int)));
                            assert(lf1.drop_last() =~= lf);
                            assert(found_total(lf1) == found_total(lf) + cached);
                            assert(new_dirs(es.take(i + 1), cache) == new_dirs(es.take(i as int), cache));
                            assert(root_views(es.take(i + 1), cache, now) == root_views(es.take(i as int), cache, now));
                            assert forall|k: int| 0 <= k < before.tasks@.len() implies (#[trigger] self.tasks@[k]).parent
                                == before.tasks@[k].parent by {
                                assert(self.parents()[k] == before.parents()[k]);
                            };
                            if old(self).tasks@[0].size + found_total(lf1) <= u64::MAX {
                                assert(before_extra == lf);
                                assert(amount == cached);
                            }
                            extra = extra.push((t as int, amount as int));
                            assert(self.found@ =~= old(self).found@ + extra);
                            assert(extra.drop_last() =~= before_extra);
                    assert(found_total(extra) == found_total(before_extra) + amount);
                            assert(self.queue@ =~= old(self).queue@ + id_range(n0 + 1, self.tasks@.len() as int));
                        }
                    },
                    None => {
                        let id = self.tasks.len();
                        let view = if t == 0 {
                            Some(self.views.len())
                        } else {
                            None
                        };
                        self.tasks.push(
                            ScanTask {
                                path: e.path.clone(),
                                parent: Some(t),
                                size: 0,
                                view,
                                pending: 1,
                                listed: false,
                                traversed: false,
                            },
                        );
                        let n = self.tasks.len();
                        assert(before.tasks@[t as int].pending <= id);
                        self.tasks[t].pending = self.tasks[t].pending + 1;
                        if t == 0 {
                            self.views.push(
                                ItemView::Directory(
                                    e.path.clone(),
                                    DirectoryScanProgress { start_time: now, completed_time: None, size: 0 },
                                ),
                            );
                        }
                        if greedy.is_none() {
                            greedy = Some(id);
                        } else {
                            self.queue.push(id);
                        }
                        proof {
                            let pa = before.parents();
                            let pb = self.parents();
                            assert forall|k: int| 0 <= k < pa.len() implies pa[k] == pb[k] by {};
                            assert(pb[id as int] == Some(t));
                            assert forall|k: int| 0 <= k < self.tasks@.len() implies (#[trigger] self.tasks@[k]).size as int
                                == bytes_beneath(self.parents(), self.found@, k) by {
                                if k < id {
                                    lemma_bytes_extend(pa, pb, self.found@, k);
                                } else {
                                    lemma_bytes_new_task(pb, self.found@, k);
                                }
                            };
                            assert(self.queue@ =~= old(self).queue@ + id_range(n0 + 1, self.tasks@.len() as int));
                            assert(new_dirs(es.take(i + 1), cache) == new_dirs(es.take(i as int), cache).push(e.path@));
                            assert(listing_found(t as int, es.take(i + 1), cache) == listing_found(t as int, es.take(i as int), cache));
                            assert forall|k: int| 0 <= k < n0 implies (#[trigger] self.tasks@[k]).path == old(self).tasks@[k].path
                                && self.tasks@[k].parent == old(self).tasks@[k].parent by {
                                assert(self.tasks@[k].path == before.tasks@[k].path);
                            };
                            assert forall|j: int| 0 <= j < new_dirs(es.take(i + 1), cache).len() implies (#[trigger] self.tasks@[n0
                                + j]).path@ == new_dirs(es.take(i + 1), cache)[j] && self.tasks@[n0 + j].parent == Some(t) by {
                                if n0 + j < id {
                                    assert(self.tasks@[n0 + j] == before.tasks@[n0 + j]);
                                }
                            };
                            if t == 0 {
                                assert(self.views@ =~= old(self).views@ + root_views(es.take(i + 1), cache, now));
                            }
                        }
                    },
                }
            } else if e.kind == EntryKind::File {
                let room = u64::MAX - self.tasks[0].size;
                let amount = if e.size <= room {
                    e.size
                } else {
                    room
                };
                self.add_size(t, amount);
                if t == 0 {
                    self.views.push(ItemView::File(e.path.clone(), e.size));
                }
                proof {
                    lemma_root_is_ancestor(before.parents(), t as int);
                            assert forall|k: int| 0 <= k < n0 implies is_ancestor(before.parents(), k, t as int)
                                == is_ancestor(old(self).parents(), k, t as int) by {
                                assert forall|q: int| 0 <= q < n0 implies old(self).parents()[q] == before.parents()[q] by {
                                    assert(before.tasks@[q].parent == old(self).tasks@[q].parent);
                                };
                                lemma_ancestor_extend(old(self).parents(), before.parents(), k, t as int);
                            };
                            assert forall|j: int| n0 <= j < before.tasks@.len() implies !is_ancestor(
                                before.parents(),
                                j,
                                t as int,
                            ) by {
                                if is_ancestor(before.parents(), j, t as int) {
                                    lemma_ancestor_le(before.parents(), j, t as int);
                                }
                            };
                    let lf = listing_found(t as int, es.take(i as int), cache);
                    let lf1 = listing_found(t as int, es.take(i + 1), cache);
                    assert(lf1 == lf.push((t as int, e.size as int)));
                    assert(lf1.drop_last() =~= lf);
                    assert(found_total(lf1) == found_total(lf) + e.size);
                    assert(new_dirs(es.take(i + 1), cache) == new_dirs(es.take(i as int), cache));
                    assert forall|k: int| 0 <= k < before.tasks@.len() implies (#[trigger] self.tasks@[k]).parent
                        == before.tasks@[k].parent by {
                        assert(self.parents()[k] == before.parents()[k]);
                    };
                    if old(self).tasks@[0].size + found_total(lf1) <= u64::MAX {
                        assert(before_extra == lf);
                        assert(amount == e.size);
                    }
                    extra = extra.push((t as int, amount as int));
                    assert(self.found@ =~= old(self).found@ + extra);
                    assert(extra.drop_last() =~= before_extra);
                    assert(found_total(extra) == found_total(before_extra) + amount);
                    assert(self.queue@ =~= old(self).queue@ + id_range(n0 + 1, self.tasks@.len() as int));
                    if t == 0 {
                        assert(self.views@ =~= old(self).views@ + root_views(es.take(i + 1), cache, now));
                    }
                }
            } else {
                proof {
                    assert(new_dirs(es.take(i + 1), cache) == new_dirs(es.take(i as int), cache));
                    assert(listing_found(t as int, es.take(i + 1), cache) == listing_found(t as int, es.take(i as int), cache));
                    assert(root_views(es.take(i + 1), cache, now) == root_views(es.take(i as int), cache, now));
                }
            }
            i = i + 1;
        }
        proof {
            assert(es.take(es.len() as int) =~= es);
        }
        let ghost mid = *self;
        self.tasks[t].listed = true;
        proof {
            assert(self.parents() =~= mid.parents());
            assert forall|k: int| 0 <= k < self.tasks@.len() implies (#[trigger] self.tasks@[k]).view
                == mid.tasks@[k].view && self.tasks@[k].size == mid.tasks@[k].size
                && self.tasks@[k].pending == mid.tasks@[k].pending && self.tasks@[k].path
                == mid.tasks@[k].path && self.tasks@[k].traversed == mid.tasks@[k].traversed by {};
            let n0i = n0 as int;
            let dirs = new_dirs(es, cache);
            assert forall|k: int| 0 <= k < n0i implies #[trigger] self.path_of(k) == old(self).path_of(k)
                && self.parents()[k] == old(self).parents()[k] by {
                assert(mid.parents()[k] == mid.tasks@[k].parent);
            };
            assert forall|j: int| 0 <= j < dirs.len() implies #[trigger] self.path_of(n0i + j) == dirs[j]
                && self.parents()[n0i + j] == Some(t) by {
                assert(mid.parents()[n0i + j] == mid.tasks@[n0i + j].parent);
            };
        }
        greedy
    }

}

} // verus!
