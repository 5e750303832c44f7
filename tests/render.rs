use dirsize::file_util::{DirEntry, EntryKind};
use dirsize::line_item::{ItemType, LegendLabel, LegendRow, LineItem};
use dirsize::scan_job::{grand_total, result_paths, DrawMode, Frame, PortionColor, ScanJob, StackedBar};
use dirsize::scan_job_args::ScanJobArgs;
use dirsize::size_cache::SizeCache;

fn args(list_items: bool) -> ScanJobArgs {
    ScanJobArgs {
        directory: "/root".to_string(),
        list_items,
        interactive_mode: false,
        width: 100,
        full_width: false,
        verbose: false,
    }
}

fn job(list_items: bool) -> ScanJob {
    ScanJob::new(args(list_items), SizeCache::new())
}

fn item(path: &str, size: u64, item_type: ItemType, completed: bool) -> LineItem {
    LineItem {
        path: path.to_string(),
        item_type,
        start_time: 100,
        completed_time: if completed { Some(350) } else { None },
        size_snapshot: size,
    }
}

/// Items in display order (ascending by size, then path).
fn items(sizes: &[u64]) -> Vec<LineItem> {
    let mut v: Vec<LineItem> = sizes
        .iter()
        .enumerate()
        .map(|(i, s)| item(&format!("/root/d{:02}", i), *s, ItemType::Directory, false))
        .collect();
    v.sort_by(|a, b| a.size_snapshot.cmp(&b.size_snapshot).then(a.path.cmp(&b.path)));
    v
}

fn bar_of(list_items: bool, mode: DrawMode, sizes: &[u64], width: usize) -> StackedBar {
    let v = items(sizes);
    let total: u64 = sizes.iter().sum();
    job(list_items).render_stacked_bar(width, mode, &v, total)
}

fn width_sum(bar: &StackedBar) -> usize {
    bar.segments.iter().map(|s| s.width).sum()
}

fn other_rows(bar: &StackedBar) -> Vec<u64> {
    bar.legend
        .iter()
        .filter_map(|r| match r {
            LegendRow::Summary { label: LegendLabel::Other, size, .. } => Some(*size),
            _ => None,
        })
        .collect()
}

#[test]
fn bar_fills_width_for_many_distributions() {
    let cases: Vec<Vec<u64>> = vec![
        vec![1],
        vec![5, 5, 5, 5, 5, 5, 5],
        vec![1, 1, 1, 1_000_000],
        vec![3, 3, 3],
        vec![10, 20, 30],
        vec![1, 2, 3, 4, 5, 6, 7, 8, 9, 10, 11, 12],
        vec![u64::MAX / 4, u64::MAX / 4, u64::MAX / 4],
        vec![0, 0, 7],
    ];
    for sizes in &cases {
        for width in [0usize, 1, 7, 59, 99, 100, 1000] {
            for (list, mode) in [(false, DrawMode::Normal), (true, DrawMode::Final)] {
                let bar = bar_of(list, mode, sizes, width);
                assert_eq!(width_sum(&bar), width, "sizes {:?} width {}", sizes, width);
            }
        }
    }
}

#[test]
fn bar_widths_are_floored_shares() {
    let bar = bar_of(false, DrawMode::Normal, &[10, 20, 30], 99);
    let widths: Vec<usize> = bar.segments.iter().map(|s| s.width).collect();
    assert_eq!(widths, vec![49, 33, 17]);
    assert!(!bar.aggregated);
    assert_eq!(bar.shown, 3);
    let colors: Vec<PortionColor> = bar.segments.iter().map(|s| s.color).collect();
    assert_eq!(colors, vec![PortionColor::Portion1, PortionColor::Portion2, PortionColor::Portion3]);
}

#[test]
fn more_items_than_palette_gives_one_other_row() {
    let sizes = [50, 40, 30, 20, 10, 9, 8, 7];
    let bar = bar_of(false, DrawMode::Normal, &sizes, 100);
    assert!(bar.aggregated);
    assert_eq!(bar.shown, 5);
    let others = other_rows(&bar);
    assert_eq!(others.len(), 1);
    let total: u64 = sizes.iter().sum();
    assert_eq!(others[0], total - (50 + 40 + 30 + 20 + 10));
    assert_eq!(bar.legend.len(), 7);
    assert_eq!(bar.segments.len(), 6);
    assert_eq!(bar.segments[5].color, PortionColor::PortionLast);
    match &bar.legend[6] {
        LegendRow::Summary { label: LegendLabel::Total, size, .. } => assert_eq!(*size, total),
        other => panic!("unexpected last row {:?}", other),
    }
}

#[test]
fn zero_width_share_aggregates_early() {
    let bar = bar_of(false, DrawMode::Normal, &[1000, 1, 1, 1], 10);
    assert!(bar.aggregated);
    assert_eq!(bar.shown, 1);
    assert_eq!(other_rows(&bar), vec![3]);
    assert_eq!(bar.segments[0].width, 9);
    assert_eq!(bar.segments[1].width, 1);
}

#[test]
fn final_full_listing_enumerates_merged_items() {
    let bar = bar_of(true, DrawMode::Final, &[50, 40, 30, 20, 10, 9, 8, 7], 100);
    assert!(bar.aggregated);
    assert_eq!(other_rows(&bar), vec![9 + 8 + 7]);
    assert_eq!(bar.legend.len(), 10);
    for k in 5..8 {
        match &bar.legend[k + 1] {
            LegendRow::Item { index, show_index, color, .. } => {
                assert_eq!(*index, k);
                assert!(!*show_index);
                assert_eq!(*color, PortionColor::PortionLast);
            }
            other => panic!("unexpected row {:?}", other),
        }
    }
}

#[test]
fn empty_directory_frame_is_message_only() {
    let j = job(false);
    match j.draw(80, DrawMode::Normal, 5) {
        Frame::Message(m) => assert_eq!(m, "Directory is empty"),
        other => panic!("unexpected frame {:?}", other),
    }
    match j.draw(80, DrawMode::Final, 5) {
        Frame::Message(m) => assert_eq!(m, "Directory is empty"),
        other => panic!("unexpected frame {:?}", other),
    }
}

#[test]
fn three_files_and_empty_directory_scenario() {
    let mut j = job(false);
    assert_eq!(j.scan.get_message(), Some(0));
    let entries = vec![
        DirEntry { path: "/root/f30".to_string(), kind: EntryKind::File, size: 30 },
        DirEntry { path: "/root/empty".to_string(), kind: EntryKind::Directory, size: 0 },
        DirEntry { path: "/root/f10".to_string(), kind: EntryKind::File, size: 10 },
        DirEntry { path: "/root/f20".to_string(), kind: EntryKind::File, size: 20 },
    ];
    let greedy = j.scan.apply_listing(0, &entries, 1).unwrap();
    j.scan.finish_traversal(0, 1);
    assert_eq!(j.scan.apply_listing(greedy, &vec![], 2), None);
    j.scan.finish_traversal(greedy, 2);
    j.scan.on_message_processed();
    assert!(j.scan.is_stopped());
    assert_eq!(j.scan.task_size(0), Some(60));
    for view in j.scan.views() {
        if let dirsize::file_util::ItemView::Directory(p, progress) = view {
            assert_eq!(p, "/root/empty");
            assert_eq!(progress.completed_time, Some(2));
            assert_eq!(progress.size, 0);
        }
    }

    let snapshot = j.pre_render(3);
    let order: Vec<(&str, u64)> = snapshot.iter().map(|i| (i.path.as_str(), i.size_snapshot)).collect();
    assert_eq!(order, vec![("/root/empty", 0), ("/root/f10", 10), ("/root/f20", 20), ("/root/f30", 30)]);
    assert_eq!(grand_total(&snapshot), Some(60));

    match j.draw(61, DrawMode::Normal, 3) {
        Frame::Chart { table, bar } => {
            let widths: Vec<usize> = bar.segments.iter().map(|s| s.width).collect();
            assert_eq!(widths, vec![30, 20, 10, 0]);
            assert_eq!(widths.iter().filter(|w| **w > 0).count(), 3);
            assert_eq!(width_sum(&bar), 60);
            let table = table.unwrap();
            // Files count as complete, so only the directory is still in flight.
            assert_eq!(table.len(), 0);
        }
        other => panic!("unexpected frame {:?}", other),
    }
}

#[test]
fn final_frame_table_follows_list_items() {
    let mut j = job(true);
    j.scan.get_message();
    let entries = vec![DirEntry { path: "/root/f".to_string(), kind: EntryKind::File, size: 4 }];
    j.scan.apply_listing(0, &entries, 1);
    match j.draw(10, DrawMode::Final, 2) {
        Frame::Chart { table, .. } => assert_eq!(table.map(|t| t.len()), Some(1)),
        other => panic!("unexpected frame {:?}", other),
    }
    let mut k = job(false);
    k.scan.get_message();
    k.scan.apply_listing(0, &entries, 1);
    match k.draw(10, DrawMode::Final, 2) {
        Frame::Chart { table, .. } => assert!(table.is_none()),
        other => panic!("unexpected frame {:?}", other),
    }
}

#[test]
fn progress_table_shows_six_largest_in_flight() {
    let mut v = items(&[1, 2, 3, 4, 5, 6, 7, 8, 9]);
    v[8].completed_time = Some(200);
    let rows = job(false).render_size_table(&v, 45, false, 1000);
    assert_eq!(rows.len(), 6);
    let paths: Vec<&str> = rows.iter().map(|r| r.path.as_str()).collect();
    assert_eq!(paths, vec!["/root/d07", "/root/d06", "/root/d05", "/root/d04", "/root/d03", "/root/d02"]);
    assert_eq!(rows[0].elapsed, (900, false));
    assert!(!rows[0].dimmed);
    let all = job(false).render_size_table(&v, 45, true, 1000);
    assert_eq!(all.len(), 9);
    assert_eq!(all[0].path, "/root/d08");
    assert_eq!(all[0].elapsed, (100, true));
    assert!(all[0].dimmed);
    assert!(all[1].dimmed);
}

#[test]
fn progress_row_percent_and_elapsed() {
    let a = item("/root/a", 1, ItemType::File, true);
    let row = a.render_progress_row(3, false, 1000);
    assert_eq!(row.percent, Some(3333));
    assert_eq!(row.elapsed, (250, true));
    assert!(row.dimmed);
    assert_eq!(row.size_text, "1 B");
    let b = item("/root/b", 2, ItemType::Directory, false);
    assert_eq!(b.render_progress_row(3, false, 1000).percent, Some(6667));
    assert_eq!(b.render_progress_row(0, false, 1000).percent, None);
    assert_eq!(b.render_progress_row(1, true, 1000).percent, Some(10000));
}

#[test]
fn legend_rows_carry_formatted_sizes() {
    let d = item("/root/d", 1024, ItemType::Directory, false);
    let (row, shown) = d.render_legend_row(2, PortionColor::Portion3, false);
    assert!(shown);
    match row {
        LegendRow::Item { index, size_text, .. } => {
            assert_eq!(index, 2);
            assert_eq!(size_text, "1.0 KB");
        }
        other => panic!("unexpected row {:?}", other),
    }
    let f = item("/root/f", 10, ItemType::File, true);
    assert!(!f.render_legend_row(0, PortionColor::Portion1, false).1);
    assert!(!d.render_legend_row(5, PortionColor::PortionLast, true).1);
    match LineItem::render_legend_row_other(LegendLabel::Total, 1_500_000) {
        LegendRow::Summary { size_text, .. } => assert_eq!(size_text, "1.5 MB"),
        other => panic!("unexpected row {:?}", other),
    }
}

#[test]
fn display_order_compares_size_then_path() {
    let a = item("/root/a", 5, ItemType::File, true);
    let b = item("/root/b", 5, ItemType::File, true);
    let c = item("/root/ab", 1, ItemType::File, true);
    assert!(a.precedes(&b));
    assert!(!b.precedes(&a));
    assert!(c.precedes(&a));
    assert!(a.precedes(&a));
    let p = item("/root/a", 5, ItemType::File, true);
    let q = item("/root/a0", 5, ItemType::File, true);
    assert!(p.precedes(&q));
    assert!(!q.precedes(&p));
}

#[test]
fn grand_total_detects_overflow() {
    let v = items(&[u64::MAX, 1]);
    assert_eq!(grand_total(&v), None);
    assert_eq!(grand_total(&items(&[])), Some(0));
}

#[test]
fn result_paths_are_largest_first() {
    let v = items(&[3, 1, 2]);
    assert_eq!(result_paths(&v), vec!["/root/d00".to_string(), "/root/d02".to_string(), "/root/d01".to_string()]);
}

#[test]
fn chart_width_policy() {
    let mut a = args(false);
    assert_eq!(a.chart_width(80), 80);
    assert_eq!(a.chart_width(150), 100);
    a.full_width = true;
    assert_eq!(a.chart_width(150), 150);
}

#[test]
fn three_files_scenario_final_listing() {
    let mut j = job(true);
    j.scan.get_message();
    let entries = vec![
        DirEntry { path: "/root/f10".to_string(), kind: EntryKind::File, size: 10 },
        DirEntry { path: "/root/f30".to_string(), kind: EntryKind::File, size: 30 },
        DirEntry { path: "/root/empty".to_string(), kind: EntryKind::Directory, size: 0 },
        DirEntry { path: "/root/f20".to_string(), kind: EntryKind::File, size: 20 },
    ];
    let greedy = j.scan.apply_listing(0, &entries, 1).unwrap();
    j.scan.finish_traversal(0, 1);
    j.scan.apply_listing(greedy, &vec![], 2);
    j.scan.finish_traversal(greedy, 2);
    j.scan.on_message_processed();
    match j.draw(121, DrawMode::Final, 3) {
        Frame::Chart { table, bar } => {
            let rows = table.unwrap();
            let paths: Vec<&str> = rows.iter().map(|r| r.path.as_str()).collect();
            assert_eq!(paths, vec!["/root/f30", "/root/f20", "/root/f10", "/root/empty"]);
            assert_eq!(rows[0].percent, Some(5000));
            assert_eq!(rows[3].percent, Some(0));
            let widths: Vec<usize> = bar.segments.iter().map(|s| s.width).collect();
            assert_eq!(widths, vec![60, 40, 20, 0]);
            assert_eq!(bar.legend.len(), 5);
        }
        other => panic!("unexpected frame {:?}", other),
    }
}

#[test]
fn result_paths_list_directories_only() {
    let v = vec![
        item("/root/small_dir", 1, ItemType::Directory, false),
        item("/root/file", 5, ItemType::File, true),
        item("/root/big_dir", 9, ItemType::Directory, false),
    ];
    assert_eq!(result_paths(&v), vec!["/root/big_dir".to_string(), "/root/small_dir".to_string()]);
    let bar = job(false).render_stacked_bar(99, DrawMode::Normal, &v, 15);
    let indexed: Vec<(usize, bool, String)> = bar
        .legend
        .iter()
        .filter_map(|r| match r {
            LegendRow::Item { index, show_index, path, .. } => Some((*index, *show_index, path.clone())),
            _ => None,
        })
        .collect();
    assert_eq!(
        indexed,
        vec![
            (0, true, "/root/big_dir".to_string()),
            (1, false, "/root/file".to_string()),
            (1, true, "/root/small_dir".to_string()),
        ]
    );
}
