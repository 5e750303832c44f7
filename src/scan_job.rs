use crate::file_util::{DirectoryScanProgress, ItemView, Scanner};
use crate::line_item::{
    byte_size_text, is_item_row, is_progress_row, is_sorted, is_summary_row, item_le,
    lemma_item_le_total, lemma_sum_nonneg, lemma_sum_split, shows_index, sum_sizes, ItemType,
    LegendLabel, LegendRow, LineItem, ProgressRow,
};
use crate::scan_job_args::ScanJobArgs;
use crate::size_cache::SizeCache;
use vstd::prelude::*;

verus! {

/// The bar palette: five distinct colors, then the color of everything else.
#[derive(Clone, Copy, PartialEq, Eq, Debug, Structural)]
pub enum PortionColor {
    Portion1,
    Portion2,
    Portion3,
    Portion4,
    Portion5,
    PortionLast,
}

/// Number of palette entries, the overflow color included.
pub const PALETTE_LEN: usize = 6;

/// The palette entry at position `k`.
pub open spec fn palette(k: int) -> PortionColor {
    if k == 0 {
        PortionColor::Portion1
    } else if k == 1 {
        PortionColor::Portion2
    } else if k == 2 {
        PortionColor::Portion3
    } else if k == 3 {
        PortionColor::Portion4
    } else if k == 4 {
        PortionColor::Portion5
    } else {
        PortionColor::PortionLast
    }
}

/// The palette entry at position `k`.
pub fn portion_at(k: usize) -> (r: PortionColor)
    ensures
        r == palette(k as int),
{
    if k == 0 {
        PortionColor::Portion1
    } else if k == 1 {
        PortionColor::Portion2
    } else if k == 2 {
        PortionColor::Portion3
    } else if k == 3 {
        PortionColor::Portion4
    } else if k == 4 {
        PortionColor::Portion5
    } else {
        PortionColor::PortionLast
    }
}

/// The two states of the render pipeline.
#[derive(Clone, Copy, PartialEq, Eq, Debug, Structural)]
pub enum DrawMode {
    Normal,
    Final,
}

/// One colored run of the stacked bar.
#[derive(Clone, Copy, PartialEq, Eq, Debug, Structural)]
pub struct BarSegment {
    pub width: usize,
    pub color: PortionColor,
}

/// The stacked bar with its legend.
#[derive(Debug)]
pub struct StackedBar {
    pub segments: Vec<BarSegment>,
    pub legend: Vec<LegendRow>,
    /// Number of items that have a segment of their own.
    pub shown: usize,
    /// Whether the remaining items were merged into one segment.
    pub aggregated: bool,
}

/// The `k`-th item from the largest.
pub open spec fn desc(items: Seq<LineItem>, k: int) -> LineItem {
    items[items.len() - 1 - k]
}

/// Proportional width of `size` within `total`, rounded down.
pub open spec fn share(size: int, total: int, width: int) -> int {
    size * width / total
}

/// Position, from the largest item, of the segment that takes the rest of the bar.
pub open spec fn cut_from(items: Seq<LineItem>, total: int, width: int, k: int) -> int
    decreases items.len() - k,
{
    if k >= items.len() - 1 || k >= PALETTE_LEN - 1 || share(
        desc(items, k).size_snapshot as int,
        total,
        width,
    ) == 0 {
        k
    } else {
        cut_from(items, total, width, k + 1)
    }
}

/// How many of the `k` largest items are directories: the navigation index of the
/// `k`-th largest item when it is a directory.
pub open spec fn dir_rank(items: Seq<LineItem>, k: int) -> int
    decreases k,
{
    if k <= 0 {
        0
    } else {
        dir_rank(items, k - 1) + if desc(items, k - 1).item_type == ItemType::Directory {
            1int
        } else {
            0int
        }
    }
}

pub proof fn lemma_dir_rank_mono(items: Seq<LineItem>, m: int, k: int)
    requires
        0 <= m <= k,
    ensures
        dir_rank(items, m) <= dir_rank(items, k),
        dir_rank(items, k) <= k,
    decreases k,
{
    if k > 0 {
        if m < k {
            lemma_dir_rank_mono(items, m, k - 1);
        } else {
            lemma_dir_rank_mono(items, k - 1, k - 1);
        }
    }
}

/// The segment of the `k`-th largest item when it is not the one that takes the rest.
pub open spec fn share_segment(items: Seq<LineItem>, total: int, width: int, k: int) -> BarSegment {
    BarSegment {
        width: share(desc(items, k).size_snapshot as int, total, width) as usize,
        color: palette(k),
    }
}

proof fn lemma_cut_bounded(items: Seq<LineItem>, total: int, width: int, k: int)
    requires
        0 <= k <= PALETTE_LEN - 1,
    ensures
        cut_from(items, total, width, k) <= PALETTE_LEN - 1,
    decreases PALETTE_LEN - k,
{
    if !(k >= items.len() - 1 || k >= PALETTE_LEN - 1 || share(
        desc(items, k).size_snapshot as int,
        total,
        width,
    ) == 0) {
        lemma_cut_bounded(items, total, width, k + 1);
    }
}

/// With more items than palette entries, the bar always merges the rest into one
/// segment: the legend then has exactly one "Other" row (followed, in the final draw
/// with a full listing, by the merged items one by one).
pub proof fn lemma_many_items_aggregate(items: Seq<LineItem>, total: int, width: int)
    requires
        items.len() > PALETTE_LEN,
    ensures
        cut_from(items, total, width, 0) < items.len() - 1,
{
    lemma_cut_bounded(items, total, width, 0);
}

/// Sum of the widths of a run of segments.
pub open spec fn widths_sum(s: Seq<BarSegment>) -> int
    decreases s.len(),
{
    if s.len() == 0 {
        0
    } else {
        widths_sum(s.drop_last()) + s.last().width
    }
}

pub proof fn lemma_candidates_len(items: Seq<LineItem>, is_final: bool)
    ensures
        table_candidates(items, is_final).len() <= items.len(),
    decreases items.len(),
{
    if items.len() > 0 {
        lemma_candidates_len(items.drop_first(), is_final);
    }
}

/// Two snapshots with the same items have the same grand total.
pub proof fn lemma_sum_multiset(a: Seq<LineItem>, b: Seq<LineItem>)
    requires
        a.to_multiset() == b.to_multiset(),
    ensures
        sum_sizes(a) == sum_sizes(b),
    decreases a.len(),
{
    broadcast use vstd::seq_lib::group_to_multiset_ensures;

    if a.len() == 0 {
        assert(b.len() == 0) by {
            b.to_multiset_ensures();
            a.to_multiset_ensures();
        };
    } else {
        a.to_multiset_ensures();
        b.to_multiset_ensures();
        let x = a[0];
        assert(a.to_multiset().count(x) > 0);
        assert(b.contains(x));
        let j = choose|j: int| 0 <= j < b.len() && b[j] == x;
        let b2 = b.remove(j);
        vstd::seq_lib::to_multiset_remove(b, j);
        assert(a.drop_first().to_multiset() == a.to_multiset().remove(x)) by {
            assert(a =~= seq![x] + a.drop_first());
            vstd::seq_lib::lemma_multiset_commutative(seq![x], a.drop_first());
        };
        lemma_sum_multiset(a.drop_first(), b2);
        lemma_sum_split(b, j);
        lemma_sum_split(b2, j);
        assert(b2.take(j) =~= b.take(j));
        assert(b2.skip(j) =~= b.skip(j + 1));
        assert(b.skip(j).drop_first() =~= b.skip(j + 1));
    }
}

/// Proportional width of `size` within `total`, rounded down.
pub fn share_width(size: u64, total: u64, total_width: usize) -> (r: usize)
    requires
        size <= total,
        total > 0,
    ensures
        r as int == share(size as int, total as int, total_width as int),
{
    proof {
        assert((size as int) * (total_width as int) <= u64::MAX as int * usize::MAX as int)
            by (nonlinear_arith)
            requires
                size <= u64::MAX,
                total_width <= usize::MAX,
        ;
    }
    let prod: u128 = (size as u128) * (total_width as u128);
    let q: u128 = prod / (total as u128);
    proof {
        assert(q <= total_width) by (nonlinear_arith)
            requires
                q == prod / (total as u128),
                prod == (size as u128) * (total_width as u128),
                size <= total,
                total > 0,
        ;
    }
    q as usize
}

/// The snapshot entry of a progress entry; a file counts as complete from `now`.
pub open spec fn line_item_of(v: ItemView, now: u64) -> LineItem {
    match v {
        ItemView::Directory(path, p) => LineItem {
            path,
            item_type: ItemType::Directory,
            start_time: p.start_time,
            completed_time: p.completed_time,
            size_snapshot: p.size,
        },
        ItemView::File(path, size) => LineItem {
            path,
            item_type: ItemType::File,
            start_time: now,
            completed_time: Some(now),
            size_snapshot: size,
        },
    }
}

/// The snapshot of a progress model, in the model's order.
pub open spec fn snapshot_of(views: Seq<ItemView>, now: u64) -> Seq<LineItem> {
    Seq::new(views.len(), |i: int| line_item_of(views[i], now))
}

/// Items that the progress table may show, largest first: all of them in the final
/// draw, those still in flight otherwise.
pub open spec fn table_candidates(items: Seq<LineItem>, is_final: bool) -> Seq<LineItem>
    decreases items.len(),
{
    if items.len() == 0 {
        Seq::empty()
    } else {
        let rest = table_candidates(items.drop_first(), is_final);
        if is_final || items[0].completed_time is None {
            rest.push(items[0])
        } else {
            rest
        }
    }
}

/// Rows that the incremental progress table shows at most.
pub const TABLE_ROWS: usize = 6;

/// What one frame shows.
#[derive(Debug)]
pub enum Frame {
    /// A message alone, with no table and no bar.
    Message(String),
    /// The progress table, where the mode shows one, and the stacked bar.
    Chart { table: Option<Vec<ProgressRow>>, bar: StackedBar },
}

/// `r` is the stacked bar of `items` (smallest first) over `w` columns, for a total
/// of `t`; `list_all` asks for every merged item in the legend.
pub open spec fn is_stacked_bar(r: StackedBar, items: Seq<LineItem>, t: int, w: int, list_all: bool) -> bool {
    let n = items.len() as int;
    let c = cut_from(items, t, w, 0);
    &&& r.aggregated == (c != n - 1)
    &&& r.shown == (if r.aggregated {
        c
    } else {
        n
    })
    &&& r.segments.len() == c + 1
    &&& forall|k: int|
        0 <= k < c ==> #[trigger] r.segments@[k] == share_segment(items, t, w, k)
    &&& r.segments@[c].color == (if r.aggregated {
        PortionColor::PortionLast
    } else {
        palette(c)
    })
    &&& widths_sum(r.segments@) == w
    &&& forall|k: int|
        0 <= k < r.shown ==> is_item_row(
            #[trigger] r.legend@[k],
            desc(items, k),
            dir_rank(items, k),
            palette(k),
            shows_index(desc(items, k), palette(k), false),
        )
    &&& r.aggregated ==> is_summary_row(
        r.legend@[r.shown as int],
        LegendLabel::Other,
        t - sum_sizes(items.skip(n - r.shown)),
    )
    &&& (r.aggregated && !list_all) ==> r.legend.len() == r.shown + 2
    &&& (r.aggregated && list_all) ==> {
        &&& r.legend.len() == n + 2
        &&& forall|k: int|
            r.shown <= k < n ==> is_item_row(
                #[trigger] r.legend@[k + 1],
                desc(items, k),
                dir_rank(items, k),
                PortionColor::PortionLast,
                false,
            )
    }
    &&& !r.aggregated ==> r.legend.len() == n + 1
    &&& is_summary_row(r.legend@[r.legend.len() - 1], LegendLabel::Total, t)
}

/// `rows` is the progress table of `items` (smallest first) for a total of `total`.
pub open spec fn is_size_table(
    rows: Seq<ProgressRow>,
    items: Seq<LineItem>,
    total: u64,
    is_final: bool,
    now: u64,
) -> bool {
    let cand = table_candidates(items, is_final);
    &&& rows.len() == (if is_final || cand.len() <= TABLE_ROWS {
        cand.len() as int
    } else {
        TABLE_ROWS as int
    })
    &&& forall|k: int|
        0 <= k < rows.len() ==> is_progress_row(#[trigger] rows[k], cand[k], total, is_final, now)
}

/// A scan and the configuration it runs under.
pub struct ScanJob {
    pub scan: Scanner,
    pub args: ScanJobArgs,
}

/// Sum of the sizes of `items`, if it fits in 64 bits.
pub fn grand_total(items: &Vec<LineItem>) -> (r: Option<u64>)
    ensures
        sum_sizes(items@) <= u64::MAX ==> r == Some(sum_sizes(items@) as u64),
        sum_sizes(items@) > u64::MAX ==> r is None,
{
    let mut total: u64 = 0;
    let mut i: usize = 0;
    while i < items.len()
        invariant
            i <= items@.len(),
            total as int == sum_sizes(items@.take(i as int)),
        decreases items@.len() - i,
    {
        proof {
            lemma_sum_split(items@.take(i + 1), i as int);
            assert(items@.take(i + 1).take(i as int) =~= items@.take(i as int));
            assert(items@.take(i + 1).skip(i as int) =~= seq![items@[i as int]]);
            assert(seq![items@[i as int]].drop_first() =~= Seq::<LineItem>::empty());
            assert(sum_sizes(Seq::<LineItem>::empty()) == 0);
            assert(sum_sizes(seq![items@[i as int]]) == items@[i as int].size_snapshot + sum_sizes(
                Seq::<LineItem>::empty(),
            ));
            assert(sum_sizes(items@.take(i + 1)) == total + items@[i as int].size_snapshot);
        }
        let s = items[i].size_snapshot;
        if total > u64::MAX - s {
            proof {
                lemma_sum_split(items@, i + 1);
                lemma_sum_nonneg(items@.skip(i + 1));
            }
            return None;
        }
        total = total + s;
        i = i + 1;
    }
    proof {
        assert(items@.take(items@.len() as int) =~= items@);
    }
    Some(total)
}

/// The directories among `items`, largest first: the list that the legend's indices
/// count.
pub fn result_paths(items: &Vec<LineItem>) -> (r: Vec<String>)
    ensures
        r@.len() == dir_rank(items@, items@.len() as int),
        forall|k: int|
            0 <= k < items@.len() && (#[trigger] desc(items@, k)).item_type == ItemType::Directory
                ==> r@[dir_rank(items@, k)]@ == desc(items@, k).path@,
{
    let mut r: Vec<String> = Vec::new();
    let len = items.len();
    let mut k: usize = 0;
    while k < len
        invariant
            len == items@.len(),
            k <= len,
            r@.len() == dir_rank(items@, k as int),
            forall|m: int|
                0 <= m < k && (#[trigger] desc(items@, m)).item_type == ItemType::Directory ==> {
                    &&& dir_rank(items@, m) < r@.len()
                    &&& r@[dir_rank(items@, m)]@ == desc(items@, m).path@
                },
        decreases len - k,
    {
        let item = &items[len - 1 - k];
        let ghost before = r@;
        assert(*item == desc(items@, k as int));
        if item.item_type == ItemType::Directory {
            r.push(item.path.clone());
            assert(r@[before.len() as int] == item.path);
        }
        proof {
            assert forall|i: int| 0 <= i < before.len() implies r@[i] == before[i] by {};
            assert forall|m: int|
                0 <= m < k + 1 && (#[trigger] desc(items@, m)).item_type == ItemType::Directory implies {
                    &&& dir_rank(items@, m) < r@.len()
                    &&& r@[dir_rank(items@, m)]@ == desc(items@, m).path@
                } by {
                lemma_dir_rank_mono(items@, m + 1, k + 1);
                lemma_dir_rank_mono(items@, 0, m);
                if m < k {
                    assert(dir_rank(items@, m) < before.len());
                    assert(r@[dir_rank(items@, m)] == before[dir_rank(items@, m)]);
                } else {
                    assert(dir_rank(items@, m) == before.len());
                }
            };
        }
        k = k + 1;
    }
    r
}

impl ScanJob {
    /// A scan of `args.directory` that has not started, with the session's size cache.
    pub fn new(args: ScanJobArgs, size_cache: SizeCache) -> (r: ScanJob)
        ensures
            r.scan.wf(),
            r.scan.task_count() == 1,
            r.scan.path_of(0) == args.directory@,
            r.scan.queued() == seq![0usize],
            r.scan.active() == 0,
            !r.scan.stopped(),
            r.scan.cache_map() == size_cache@,
            r.scan.view_count() == 0,
            r.scan.views_seq() == Seq::<ItemView>::empty(),
            r.args == args,
    {
        let root = args.directory.clone();
        ScanJob { scan: Scanner::new(root, size_cache), args }
    }

    /// The render snapshot: one item per progress entry, sorted by size, then path.
    pub fn pre_render(&self, now: u64) -> (r: Vec<LineItem>)
        ensures
            is_sorted(r@),
            r@.to_multiset() == snapshot_of(self.scan.views_seq(), now).to_multiset(),
    {
        let views = self.scan.views();
        let ghost snap = snapshot_of(views@, now);
        let mut sorted: Vec<LineItem> = Vec::new();
        let mut i: usize = 0;
        proof {
            assert(snap.take(0) =~= Seq::<LineItem>::empty());
        }
        while i < views.len()
            invariant
                views@ == self.scan.views_seq(),
                snap == snapshot_of(views@, now),
                i <= views@.len(),
                is_sorted(sorted@),
                sorted@.to_multiset() == snap.take(i as int).to_multiset(),
            decreases views@.len() - i,
        {
            let item = match &views[i] {
                ItemView::Directory(path, progress) => LineItem {
                    path: path.clone(),
                    item_type: ItemType::Directory,
                    start_time: progress.start_time,
                    completed_time: progress.completed_time,
                    size_snapshot: progress.size,
                },
                ItemView::File(path, size) => LineItem {
                    path: path.clone(),
                    item_type: ItemType::File,
                    start_time: now,
                    completed_time: Some(now),
                    size_snapshot: *size,
                },
            };
            assert(item == snap[i as int]);
            let mut p: usize = 0;
            while p < sorted.len() && sorted[p].precedes(&item)
                invariant
                    p <= sorted@.len(),
                    forall|q: int| 0 <= q < p ==> item_le(#[trigger] sorted@[q], item),
                decreases sorted@.len() - p,
            {
                p = p + 1;
            }
            let ghost before = sorted@;
            proof {
                if p < before.len() {
                    lemma_item_le_total(before[p as int], item);
                }
            }
            sorted.insert(p, item);
            proof {
                broadcast use vstd::seq_lib::to_multiset_insert, vstd::seq_lib::to_multiset_build;
                assert(sorted@ == before.insert(p as int, snap[i as int]));
                assert(snap.take(i + 1) =~= snap.take(i as int).push(snap[i as int]));
                assert forall|q: int| 0 <= q < sorted@.len() - 1 implies item_le(
                    #[trigger] sorted@[q],
                    sorted@[q + 1],
                ) by {
                    if q + 1 < p {
                        assert(sorted@[q] == before[q] && sorted@[q + 1] == before[q + 1]);
                    } else if q + 1 == p {
                        assert(sorted@[q] == before[q]);
                    } else if q == p {
                        assert(sorted@[q + 1] == before[q]);
                    } else {
                        assert(sorted@[q] == before[q - 1] && sorted@[q + 1] == before[q]);
                    }
                };
            }
            i = i + 1;
        }
        proof {
            assert(snap.take(views@.len() as int) =~= snap);
        }
        sorted
    }

    /// The rows of the progress table: largest first, in the incremental draw only
    /// items still in flight and at most six of them, in the final draw every item.
    pub fn render_size_table(
        &self,
        line_items: &Vec<LineItem>,
        total_size: u64,
        is_final: bool,
        now: u64,
    ) -> (r: Vec<ProgressRow>)
        ensures
            is_size_table(r@, line_items@, total_size, is_final, now),
    {
        let limit: usize = if is_final {
            usize::MAX
        } else {
            TABLE_ROWS
        };
        let ghost items = line_items@;
        let mut rows: Vec<ProgressRow> = Vec::new();
        let mut j: usize = line_items.len();
        proof {
            assert(items.skip(items.len() as int) =~= Seq::<LineItem>::empty());
        }
        while j > 0
            invariant
                items == line_items@,
                j <= items.len(),
                limit == (if is_final {
                    usize::MAX
                } else {
                    TABLE_ROWS
                }),
                rows@.len() == (if table_candidates(items.skip(j as int), is_final).len() <= limit {
                    table_candidates(items.skip(j as int), is_final).len() as int
                } else {
                    limit as int
                }),
                forall|k: int|
                    0 <= k < rows@.len() ==> is_progress_row(
                        #[trigger] rows@[k],
                        table_candidates(items.skip(j as int), is_final)[k],
                        total_size,
                        is_final,
                        now,
                    ),
            decreases j,
        {
            j = j - 1;
            let item = &line_items[j];
            proof {
                assert(items.skip(j as int).drop_first() =~= items.skip(j + 1));
                assert(items.skip(j as int)[0] == items[j as int]);
                assert(table_candidates(items.skip(j + 1), is_final).len() <= items.len()) by {
                    lemma_candidates_len(items.skip(j + 1), is_final);
                };
            }
            if (is_final || item.completed_time.is_none()) && rows.len() < limit {
                rows.push(item.render_progress_row(total_size, is_final, now));
            }
        }
        proof {
            assert(items.skip(0) =~= items);
            lemma_candidates_len(items, is_final);
        }
        rows
    }

    /// The frame for a terminal `width` columns wide; `now` is the caller's clock.
    pub fn draw(&self, width: usize, mode: DrawMode, now: u64) -> (r: Frame)
        ensures
            ({
                let snap = snapshot_of(self.scan.views_seq(), now);
                let bar_width = if width > 0 {
                    width - 1
                } else {
                    0
                };
                &&& sum_sizes(snap) == 0 ==> (r matches Frame::Message(m) && m@
                    == "Directory is empty"@)
                &&& sum_sizes(snap) > u64::MAX ==> (r matches Frame::Message(m) && m@
                    == "Directory is too large to chart"@)
                &&& (0 < sum_sizes(snap) <= u64::MAX) ==> (r matches Frame::Chart { table, bar }
                    && exists|items: Seq<LineItem>|
                    #[trigger] is_sorted(items) && items.to_multiset() == snap.to_multiset()
                        && is_stacked_bar(
                        bar,
                        items,
                        sum_sizes(snap),
                        bar_width as int,
                        self.args.list_items && mode == DrawMode::Final,
                    ) && (mode == DrawMode::Normal ==> (table matches Some(rows) && is_size_table(
                        rows@,
                        items,
                        sum_sizes(snap) as u64,
                        false,
                        now,
                    ))) && (mode == DrawMode::Final ==> (self.args.list_items ==> (table matches Some(
                        rows,
                    ) && is_size_table(rows@, items, sum_sizes(snap) as u64, true, now))) && (
                    !self.args.list_items ==> table is None)))
            }),
    {
        let items = self.pre_render(now);
        proof {
            lemma_sum_multiset(items@, snapshot_of(self.scan.views_seq(), now));
            lemma_sum_nonneg(items@);
        }
        match grand_total(&items) {
            None => Frame::Message(String::from_str("Directory is too large to chart")),
            Some(total_size) => {
                if total_size == 0 {
                    return Frame::Message(String::from_str("Directory is empty"));
                }
                let bar_width: usize = if width > 0 {
                    width - 1
                } else {
                    0
                };
                let bar = self.render_stacked_bar(bar_width, mode, &items, total_size);
                let table = match mode {
                    DrawMode::Normal => Some(self.render_size_table(&items, total_size, false, now)),
                    DrawMode::Final => {
                        if self.args.list_items {
                            Some(self.render_size_table(&items, total_size, true, now))
                        } else {
                            None
                        }
                    },
                };
                proof {
                    let snap = snapshot_of(self.scan.views_seq(), now);
                    assert(is_sorted(items@));
                    assert(is_stacked_bar(
                        bar,
                        items@,
                        sum_sizes(snap),
                        bar_width as int,
                        self.args.list_items && mode == DrawMode::Final,
                    ));
                }
                Frame::Chart { table, bar }
            },
        }
    }
    /// The stacked bar of `line_items` over `bar_width` columns, with its legend.
    ///
    /// Items are taken largest first (from the end of `line_items`), one palette color
    /// each, each as wide as its share of the total rounded down. The segment at
    /// `cut_from(.., 0)` takes all the width left; it stands for the remaining items
    /// together, under the overflow color, unless it is the last item; the legend then
    /// has one "Other" row for them, and in the final draw with a full listing the
    /// merged items follow one by one. A "Total" row ends the legend.
    pub fn render_stacked_bar(
        &self,
        bar_width: usize,
        mode: DrawMode,
        line_items: &Vec<LineItem>,
        total_size: u64,
    ) -> (r: StackedBar)
        requires
            total_size > 0,
            total_size == sum_sizes(line_items@),
        ensures
            is_stacked_bar(
                r,
                line_items@,
                total_size as int,
                bar_width as int,
                self.args.list_items && mode == DrawMode::Final,
            ),
    {
        let ghost items = line_items@;
        let ghost t = total_size as int;
        let ghost w = bar_width as int;
        let len = line_items.len();
        proof {
            if len == 0 {
                assert(sum_sizes(items) == 0);
            }
        }
        let list_all = self.args.list_items && mode == DrawMode::Final;
        let mut segments: Vec<BarSegment> = Vec::new();
        let mut legend: Vec<LegendRow> = Vec::new();
        let mut remaining: usize = bar_width;
        let mut other_size: u64 = total_size;
        let mut i: usize = 0;
        let mut rank: usize = 0;
        let mut aggregated = false;
        let mut done = false;
        proof {
            assert(items.skip(len as int) =~= Seq::<LineItem>::empty());
            assert(sum_sizes(items.skip(len as int)) == 0);
            assert((w - remaining) * t == 0);
        }
        while !done
            invariant
                len == items.len(),
                len >= 1,
                items == line_items@,
                t == total_size as int,
                w == bar_width as int,
                list_all == (self.args.list_items && mode == DrawMode::Final),
                t > 0,
                t == sum_sizes(items),
                i < len,
                i < PALETTE_LEN,
                rank as int == dir_rank(items, i as int),
                !done ==> cut_from(items, t, w, 0) == cut_from(items, t, w, i as int),
                done ==> cut_from(items, t, w, 0) == i,
                done ==> aggregated == (i != len - 1),
                !done ==> !aggregated,
                segments.len() == (if done {
                    i + 1
                } else {
                    i as int
                }),
                forall|k: int|
                    0 <= k < i ==> #[trigger] segments@[k] == share_segment(items, t, w, k),
                done ==> segments@[i as int].color == (if aggregated {
                    PortionColor::PortionLast
                } else {
                    palette(i as int)
                }),
                !done ==> remaining + widths_sum(segments@) == w,
                done ==> widths_sum(segments@) == w,
                !done ==> (w - remaining) * t <= sum_sizes(items.skip(len - i)) * w,
                sum_sizes(items.skip(len - i)) <= t,
                0 <= sum_sizes(items.skip(len - i)),
                other_size == t - sum_sizes(items.skip(len - i)),
                legend.len() == (if done {
                    i + 1
                } else {
                    i as int
                }),
                forall|k: int|
                    0 <= k < (if done && !aggregated {
                        i + 1
                    } else {
                        i as int
                    }) ==> is_item_row(
                        #[trigger] legend@[k],
                        desc(items, k),
                        dir_rank(items, k),
                        palette(k),
                        shows_index(desc(items, k), palette(k), false),
                    ),
                (done && aggregated) ==> is_summary_row(
                    legend@[i as int],
                    LegendLabel::Other,
                    t - sum_sizes(items.skip(len - i)),
                ),
                done && !aggregated ==> i == len - 1,
            decreases len - i, (if done {
                0int
            } else {
                1int
            }),
        {
            let j = len - i - 1;
            let item = &line_items[j];
            proof {
                lemma_sum_split(items, j as int);
                lemma_sum_nonneg(items.take(j as int));
                lemma_sum_nonneg(items.skip(j + 1));
                assert(items.skip(j as int).drop_first() =~= items.skip(j + 1));
                assert(items.skip(j as int)[0] == items[j as int]);
                assert(sum_sizes(items.skip(j as int)) == items[j as int].size_snapshot + sum_sizes(
                    items.skip(j + 1),
                ));
                assert(items[j as int].size_snapshot <= t);
            }
            let item_width = share_width(item.size_snapshot, total_size, bar_width);
            let is_last = i == PALETTE_LEN - 1 || i == len - 1;
            if is_last || item_width == 0 {
                aggregated = i != len - 1;
                let color = if aggregated {
                    PortionColor::PortionLast
                } else {
                    portion_at(i)
                };
                let ghost before = segments@;
                segments.push(BarSegment { width: remaining, color });
                proof {
                    assert(segments@.drop_last() == before);
                }
                if aggregated {
                    legend.push(LineItem::render_legend_row_other(LegendLabel::Other, other_size));
                } else {
                    let (row, _) = item.render_legend_row(rank, color, false);
                    legend.push(row);
                }
                done = true;
            } else {
                proof {
                    let s = item.size_snapshot as int;
                    let consumed = sum_sizes(items.skip(len - i));
                    assert(item_width as int * t <= s * w) by (nonlinear_arith)
                        requires
                            item_width as int == s * w / t,
                            t > 0,
                    ;
                    assert(s + consumed <= t);
                    assert((w - remaining + item_width) * t <= t * w) by (nonlinear_arith)
                        requires
                            (w - remaining) * t <= consumed * w,
                            item_width as int * t <= s * w,
                            s + consumed <= t,
                            w >= 0,
                    ;
                    assert((w - remaining + item_width) * t <= (consumed + s) * w)
                        by (nonlinear_arith)
                        requires
                            (w - remaining) * t <= consumed * w,
                            item_width as int * t <= s * w,
                    ;
                    assert(w - remaining + item_width <= w) by (nonlinear_arith)
                        requires
                            (w - remaining + item_width) * t <= t * w,
                            t > 0,
                    ;
                }
                let color = portion_at(i);
                let ghost before = segments@;
                segments.push(BarSegment { width: item_width, color });
                proof {
                    assert(segments@.drop_last() == before);
                }
                remaining = remaining - item_width;
                other_size = other_size - item.size_snapshot;
                let (row, _) = item.render_legend_row(rank, color, false);
                legend.push(row);
                proof {
                    lemma_dir_rank_mono(items, i as int, i as int);
                }
                if item.item_type == ItemType::Directory {
                    rank = rank + 1;
                }
                i = i + 1;
            }
        }
        let shown: usize = if aggregated {
            i
        } else {
            len
        };
        if aggregated && list_all {
            let mut k: usize = i;
            let mut rank_k: usize = rank;
            while k < len
                invariant
                    len == items.len(),
                    items == line_items@,
                    i <= k <= len,
                    rank_k as int == dir_rank(items, k as int),
                    legend.len() == k + 1,
                    is_summary_row(
                        legend@[i as int],
                        LegendLabel::Other,
                        total_size - sum_sizes(items.skip(len - i)),
                    ),
                    forall|m: int|
                        0 <= m < i ==> is_item_row(
                            #[trigger] legend@[m],
                            desc(items, m),
                            dir_rank(items, m),
                            palette(m),
                            shows_index(desc(items, m), palette(m), false),
                        ),
                    forall|m: int|
                        i <= m < k ==> is_item_row(
                            #[trigger] legend@[m + 1],
                            desc(items, m),
                            dir_rank(items, m),
                            PortionColor::PortionLast,
                            false,
                        ),
                decreases len - k,
            {
                let item = &line_items[len - k - 1];
                let (row, _) = item.render_legend_row(rank_k, PortionColor::PortionLast, true);
                legend.push(row);
                proof {
                    lemma_dir_rank_mono(items, k as int, k as int);
                }
                if item.item_type == ItemType::Directory {
                    rank_k = rank_k + 1;
                }
                k = k + 1;
            }
        }
        legend.push(LineItem::render_legend_row_other(LegendLabel::Total, total_size));
        StackedBar { segments, legend, shown, aggregated }
    }
}

} // verus!
