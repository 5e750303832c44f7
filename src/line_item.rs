use crate::scan_job::PortionColor;
use vstd::prelude::*;

verus! {

/// What a row stands for.
#[derive(Clone, Copy, PartialEq, Eq, Debug, Structural)]
pub enum ItemType {
    Directory,
    File,
}

/// One entry of a render snapshot.
#[derive(Debug)]
pub struct LineItem {
    pub path: String,
    pub item_type: ItemType,
    /// Milliseconds on the caller's clock.
    pub start_time: u64,
    pub completed_time: Option<u64>,
    pub size_snapshot: u64,
}

/// What `bytesize` prints for a byte count.
pub uninterp spec fn byte_size_text(n: u64) -> Seq<char>;

/// Relies on `bytesize::ByteSize`'s `Display`: the human-readable form of a byte
/// count, which depends on the count alone.
#[verifier::external_body]
pub(crate) fn format_size(n: u64) -> (r: String)
    ensures
        r@ == byte_size_text(n),
{
    bytesize::ByteSize::b(n).to_string()
}

/// Lexicographic order on character sequences (`str`'s order).
pub open spec fn chars_le(a: Seq<char>, b: Seq<char>) -> bool
    decreases a.len(),
{
    if a.len() == 0 {
        true
    } else if b.len() == 0 {
        false
    } else if a[0] != b[0] {
        a[0] < b[0]
    } else {
        chars_le(a.drop_first(), b.drop_first())
    }
}

/// The display order of items: by size, then by path.
pub open spec fn item_le(a: LineItem, b: LineItem) -> bool {
    a.size_snapshot < b.size_snapshot || (a.size_snapshot == b.size_snapshot && chars_le(
        a.path@,
        b.path@,
    ))
}

/// Neighbouring items are in display order.
pub open spec fn is_sorted(s: Seq<LineItem>) -> bool {
    forall|i: int| 0 <= i < s.len() - 1 ==> item_le(#[trigger] s[i], s[i + 1])
}

/// The grand total of a snapshot.
pub open spec fn sum_sizes(s: Seq<LineItem>) -> int
    decreases s.len(),
{
    if s.len() == 0 {
        0
    } else {
        s[0].size_snapshot + sum_sizes(s.drop_first())
    }
}

pub proof fn lemma_chars_le_total(a: Seq<char>, b: Seq<char>)
    ensures
        chars_le(a, b) || chars_le(b, a),
    decreases a.len(),
{
    if a.len() > 0 && b.len() > 0 && a[0] == b[0] {
        lemma_chars_le_total(a.drop_first(), b.drop_first());
    }
}

pub proof fn lemma_item_le_total(a: LineItem, b: LineItem)
    ensures
        item_le(a, b) || item_le(b, a),
{
    lemma_chars_le_total(a.path@, b.path@);
}

pub proof fn lemma_sum_split(s: Seq<LineItem>, j: int)
    requires
        0 <= j <= s.len(),
    ensures
        sum_sizes(s) == sum_sizes(s.take(j)) + sum_sizes(s.skip(j)),
    decreases j,
{
    if j > 0 {
        lemma_sum_split(s.drop_first(), j - 1);
        assert(s.take(j).drop_first() =~= s.drop_first().take(j - 1));
        assert(s.skip(j) =~= s.drop_first().skip(j - 1));
    } else {
        assert(s.skip(0) =~= s);
    }
}

pub proof fn lemma_sum_nonneg(s: Seq<LineItem>)
    ensures
        sum_sizes(s) >= 0,
    decreases s.len(),
{
    if s.len() > 0 {
        lemma_sum_nonneg(s.drop_first());
    }
}

/// Whether `a` comes no later than `b` in display order.
pub fn chars_le_exec(a: &String, b: &String) -> (r: bool)
    ensures
        r == chars_le(a@, b@),
{
    let sa = a.as_str();
    let sb = b.as_str();
    let la = sa.unicode_len();
    let lb = sb.unicode_len();
    let mut i: usize = 0;
    assert(a@.skip(0) =~= a@);
    assert(b@.skip(0) =~= b@);
    while i < la && i < lb
        invariant
            la == a@.len(),
            lb == b@.len(),
            sa@ == a@,
            sb@ == b@,
            i <= la,
            i <= lb,
            chars_le(a@, b@) == chars_le(a@.skip(i as int), b@.skip(i as int)),
        decreases la - i,
    {
        let ca = sa.get_char(i);
        let cb = sb.get_char(i);
        assert(a@.skip(i as int)[0] == ca);
        assert(b@.skip(i as int)[0] == cb);
        if ca != cb {
            return ca < cb;
        }
        assert(a@.skip(i as int).drop_first() =~= a@.skip(i + 1));
        assert(b@.skip(i as int).drop_first() =~= b@.skip(i + 1));
        i = i + 1;
    }
    if i == la {
        true
    } else {
        false
    }
}

/// Which summary line of the legend a row is.
#[derive(Clone, Copy, PartialEq, Eq, Debug, Structural)]
pub enum LegendLabel {
    Other,
    Total,
}

/// One row of the legend under the stacked bar.
#[derive(Debug)]
pub enum LegendRow {
    Item {
        /// Position among the items, largest first, counting from zero.
        index: usize,
        show_index: bool,
        color: PortionColor,
        path: String,
        item_type: ItemType,
        size: u64,
        size_text: String,
    },
    Summary { label: LegendLabel, size: u64, size_text: String },
}

/// One row of the progress table.
#[derive(Debug)]
pub struct ProgressRow {
    /// Time spent, in milliseconds, with whether the item has completed.
    pub elapsed: (u64, bool),
    /// Whether the time shows dimmed, as history: in the final draw, or once complete.
    pub dimmed: bool,
    pub size_text: String,
    /// Share of the grand total in hundredths of a percent; absent when the total is zero.
    pub percent: Option<u64>,
    pub path: String,
    pub item_type: ItemType,
}

/// Share of `parent` that `size` is, in hundredths of a percent, rounded half up and
/// capped at one hundred percent.
pub open spec fn percent_of(size: u64, parent: u64) -> int {
    let p = (size as int * 20000 + parent as int) / (2 * parent as int);
    if p > 10000 {
        10000
    } else {
        p
    }
}

/// `row` is the legend row of `item` at position `i` with color `color`.
pub open spec fn is_item_row(
    row: LegendRow,
    item: LineItem,
    i: int,
    color: PortionColor,
    show: bool,
) -> bool {
    match row {
        LegendRow::Item { index, show_index, color: c, path, item_type, size, size_text } => {
            &&& index == i
            &&& show_index == show
            &&& c == color
            &&& path@ == item.path@
            &&& item_type == item.item_type
            &&& size == item.size_snapshot
            &&& size_text@ == byte_size_text(size)
        },
        _ => false,
    }
}

/// `row` is the summary row `label` for `amount` bytes.
pub open spec fn is_summary_row(row: LegendRow, l: LegendLabel, amount: int) -> bool {
    match row {
        LegendRow::Summary { label, size, size_text } => {
            &&& label == l
            &&& size == amount
            &&& size_text@ == byte_size_text(size)
        },
        _ => false,
    }
}

/// Whether a legend row shows the item's navigation index.
pub open spec fn shows_index(item: LineItem, color: PortionColor, aggregated_other: bool) -> bool {
    !(color == PortionColor::PortionLast && aggregated_other) && item.item_type
        == ItemType::Directory
}

/// Time spent on `item` in milliseconds, and whether it has completed; `now` is the
/// caller's clock.
pub open spec fn elapsed_of(item: LineItem, now: u64) -> (u64, bool) {
    match item.completed_time {
        Some(t) => (if t >= item.start_time {
            (t - item.start_time) as u64
        } else {
            0u64
        }, true),
        None => (if now >= item.start_time {
            (now - item.start_time) as u64
        } else {
            0u64
        }, false),
    }
}

/// `row` is the progress-table row of `item` within a total of `parent_size`.
pub open spec fn is_progress_row(
    row: ProgressRow,
    item: LineItem,
    parent_size: u64,
    is_final: bool,
    now: u64,
) -> bool {
    &&& row.elapsed == elapsed_of(item, now)
    &&& row.dimmed == (is_final || item.completed_time is Some)
    &&& row.size_text@ == byte_size_text(item.size_snapshot)
    &&& row.percent == (if parent_size == 0 {
        None::<u64>
    } else {
        Some(percent_of(item.size_snapshot, parent_size) as u64)
    })
    &&& row.path@ == item.path@
    &&& row.item_type == item.item_type
}

impl LineItem {
    /// The progress-table row of this item; `now` is the caller's clock.
    pub fn render_progress_row(&self, parent_size: u64, is_final: bool, now: u64) -> (r:
        ProgressRow)
        ensures
            is_progress_row(r, *self, parent_size, is_final, now),
    {
        let elapsed = match self.completed_time {
            Some(t) => (t.saturating_sub(self.start_time), true),
            None => (now.saturating_sub(self.start_time), false),
        };
        let percent = if parent_size == 0 {
            None
        } else {
            let num: u128 = (self.size_snapshot as u128) * 20000 + (parent_size as u128);
            let p: u128 = num / (2 * (parent_size as u128));
            if p > 10000 {
                Some(10000u64)
            } else {
                Some(p as u64)
            }
        };
        ProgressRow {
            elapsed,
            dimmed: is_final || self.completed_time.is_some(),
            size_text: format_size(self.size_snapshot),
            percent,
            path: self.path.clone(),
            item_type: self.item_type,
        }
    }

    /// The legend row of this item at position `i`, and whether it shows the index.
    pub fn render_legend_row(&self, i: usize, portion: PortionColor, aggregated_other: bool) -> (r: (
        LegendRow,
        bool,
    ))
        ensures
            r.1 == shows_index(*self, portion, aggregated_other),
            is_item_row(r.0, *self, i as int, portion, r.1),
    {
        let show_index = !(portion == PortionColor::PortionLast && aggregated_other)
            && self.item_type == ItemType::Directory;
        (
            LegendRow::Item {
                index: i,
                show_index,
                color: portion,
                path: self.path.clone(),
                item_type: self.item_type,
                size: self.size_snapshot,
                size_text: format_size(self.size_snapshot),
            },
            show_index,
        )
    }

    /// A summary row of the legend.
    pub fn render_legend_row_other(label: LegendLabel, size: u64) -> (r: LegendRow)
        ensures
            is_summary_row(r, label, size as int),
    {
        LegendRow::Summary { label, size, size_text: format_size(size) }
    }

    /// Whether `self` comes no later than `other` in display order: by size,
    /// then by path.
    pub fn precedes(&self, other: &LineItem) -> (r: bool)
        ensures
            r == item_le(*self, *other),
    {
        if self.size_snapshot != other.size_snapshot {
            self.size_snapshot < other.size_snapshot
        } else {
            chars_le_exec(&self.path, &other.path)
        }
    }
}

} // verus!
