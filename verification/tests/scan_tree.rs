use diskhog::{
    compare_bytes, compare_paths, depth_is_visible, disk_usage_bytes, scan, sort_entries, DirItem, Entry, EntryKind,
    Listing, Order, RootNode, ScanError, ScanOptions, ScanReport,
};

fn name(text: &str) -> Vec<u8> {
    text.as_bytes().to_vec()
}

fn path(parts: &[&str]) -> Vec<Vec<u8>> {
    parts.iter().map(|p| name(p)).collect()
}

fn file(text: &str, size: u64) -> DirItem {
    DirItem::File { name: name(text), size }
}

fn dir(text: &str, items: Vec<DirItem>) -> DirItem {
    DirItem::Directory { name: name(text), listing: Listing::Read { items } }
}

fn root(items: Vec<DirItem>) -> RootNode {
    RootNode::Directory { listing: Listing::Read { items } }
}

fn options(include_files: bool, include_dirs: bool, max_depth: Option<usize>) -> ScanOptions {
    ScanOptions { include_files, include_dirs, max_depth }
}

fn report(tree: &RootNode, opts: ScanOptions) -> ScanReport {
    scan(tree, opts).unwrap()
}

#[test]
fn scan_sorts_largest_first() {
    let tree = root(vec![file("small.bin", 4096), file("large.bin", 65536)]);
    let report = report(&tree, options(true, false, None));
    assert_eq!(report.entries.len(), 2);
    assert!(report.entries[0].size >= report.entries[1].size);
    assert_eq!(report.entries[0].path.last().unwrap(), &name("large.bin"));
}

#[test]
fn depth_limits_display_but_not_directory_totals() {
    let tree = root(vec![dir("one", vec![dir("two", vec![file("payload.bin", 8192)])])]);
    let report = report(&tree, options(false, true, Some(1)));
    assert_eq!(report.entries.len(), 1);
    assert_eq!(report.entries[0].path, path(&["one"]));
    assert!(report.entries[0].size > 0);
    assert_eq!(report.entries[0].size, 8192);
}

#[test]
fn symbolic_links_are_not_followed() {
    let tree = root(vec![dir(
        "nested",
        vec![file("payload.bin", 8192), DirItem::Symlink { name: name("loop") }],
    )]);
    let report = report(&tree, ScanOptions::default());
    assert!(report.entries.len() < 10);
    assert!(report.entries.iter().all(|entry| entry.path.last() != Some(&name("loop"))));
    assert_eq!(report.entries.len(), 2);
}

#[test]
fn directories_total_everything_below_them() {
    let tree = root(vec![
        dir("a", vec![file("x", 100), dir("b", vec![file("y", 50), file("z", 25)])]),
        file("c", 10),
    ]);
    let report = report(&tree, ScanOptions::default());
    let expected = vec![
        Entry { path: path(&["a"]), size: 175, kind: EntryKind::Directory },
        Entry { path: path(&["a", "x"]), size: 100, kind: EntryKind::File },
        Entry { path: path(&["a", "b"]), size: 75, kind: EntryKind::Directory },
        Entry { path: path(&["a", "b", "y"]), size: 50, kind: EntryKind::File },
        Entry { path: path(&["a", "b", "z"]), size: 25, kind: EntryKind::File },
        Entry { path: path(&["c"]), size: 10, kind: EntryKind::File },
    ];
    assert_eq!(report.entries, expected);
    assert!(report.issues.is_empty());
}

#[test]
fn totals_are_the_same_whatever_is_shown() {
    let make = || root(vec![dir("a", vec![dir("b", vec![file("y", 7), file("z", 9)])])]);
    let all = report(&make(), ScanOptions::default());
    let top = report(&make(), options(false, true, Some(1)));
    assert_eq!(top.entries.len(), 1);
    assert_eq!(top.entries[0].size, 16);
    assert_eq!(all.entries[0].size, 16);
}

#[test]
fn totals_saturate_instead_of_overflowing() {
    let tree = root(vec![dir("big", vec![file("a", u64::MAX - 1), file("b", 5)])]);
    let report = report(&tree, options(false, true, None));
    assert_eq!(report.entries.len(), 1);
    assert_eq!(report.entries[0].size, u64::MAX);
}

#[test]
fn equal_sizes_are_ordered_by_path_components() {
    let tree = root(vec![
        file("a.b", 10),
        dir("a", vec![file("b", 10)]),
        file("A", 10),
    ]);
    let report = report(&tree, options(true, false, None));
    let paths: Vec<Vec<Vec<u8>>> = report.entries.iter().map(|e| e.path.clone()).collect();
    assert_eq!(paths, vec![path(&["A"]), path(&["a", "b"]), path(&["a.b"])]);
}

#[test]
fn unreadable_paths_are_reported_and_the_scan_goes_on() {
    let tree = root(vec![
        DirItem::Directory { name: name("locked"), listing: Listing::Unreadable { message: "Permission denied".to_string() } },
        DirItem::ReadError { message: "entry vanished".to_string() },
        DirItem::MetadataError { name: name("ghost"), message: "No such file".to_string() },
        file("ok", 3),
    ]);
    let report = report(&tree, ScanOptions::default());
    assert_eq!(report.issues.len(), 3);
    assert_eq!(report.issues[0].path, path(&["locked"]));
    assert_eq!(report.issues[0].message, "Permission denied");
    assert_eq!(report.issues[1].path, path(&[]));
    assert_eq!(report.issues[1].message, "entry vanished");
    assert_eq!(report.issues[2].path, path(&["ghost"]));
    assert_eq!(report.entries.len(), 2);
    assert_eq!(report.entries[0].path, path(&["ok"]));
    assert_eq!(report.entries[1], Entry { path: path(&["locked"]), size: 0, kind: EntryKind::Directory });
}

#[test]
fn unreadable_root_directory_gives_one_issue() {
    let tree = RootNode::Directory { listing: Listing::Unreadable { message: "denied".to_string() } };
    let report = report(&tree, ScanOptions::default());
    assert!(report.entries.is_empty());
    assert_eq!(report.issues.len(), 1);
    assert_eq!(report.issues[0].path, path(&[]));
}

#[test]
fn special_files_are_skipped() {
    let tree = root(vec![DirItem::Special { name: name("fifo") }, file("f", 1)]);
    let report = report(&tree, ScanOptions::default());
    assert_eq!(report.entries.len(), 1);
}

#[test]
fn roots_that_are_links_or_special_are_refused() {
    assert_eq!(scan(&RootNode::Symlink, ScanOptions::default()).unwrap_err(), ScanError::RootIsSymlink);
    assert_eq!(scan(&RootNode::Special, ScanOptions::default()).unwrap_err(), ScanError::RootNotFileOrDirectory);
    assert_eq!(ScanError::RootIsSymlink.message(), "the root path must not be a symbolic link");
    assert_eq!(
        ScanError::RootNotFileOrDirectory.message(),
        "the root path is neither a regular file nor a directory"
    );
}

#[test]
fn a_file_root_is_listed_alone() {
    let tree = RootNode::File { size: 4096 };
    let shown = report(&tree, ScanOptions::default());
    assert_eq!(shown.entries, vec![Entry { path: Vec::new(), size: 4096, kind: EntryKind::File }]);
    assert!(report(&tree, options(false, true, None)).entries.is_empty());
    assert_eq!(report(&tree, options(true, false, Some(0))).entries.len(), 1);
}

#[test]
fn depth_zero_shows_nothing_below_the_root() {
    let tree = root(vec![file("f", 1), dir("d", vec![])]);
    assert!(report(&tree, options(true, true, Some(0))).entries.is_empty());
    assert_eq!(report(&tree, options(true, true, Some(1))).entries.len(), 2);
}

#[test]
fn sorting_is_stable_for_equal_keys() {
    let input = vec![
        Entry { path: path(&["x"]), size: 1, kind: EntryKind::File },
        Entry { path: path(&["x"]), size: 1, kind: EntryKind::Directory },
        Entry { path: path(&["y"]), size: 9, kind: EntryKind::File },
        Entry { path: path(&["x"]), size: 1, kind: EntryKind::File },
    ];
    let sorted = sort_entries(input);
    assert_eq!(sorted[0].size, 9);
    assert_eq!(sorted[1].kind, EntryKind::File);
    assert_eq!(sorted[2].kind, EntryKind::Directory);
    assert_eq!(sorted[3].kind, EntryKind::File);
}

fn letter(bits: u64) -> Vec<u8> {
    vec![b'a' + (bits % 4) as u8]
}

/// Listing order: larger sizes first, then paths component by component.
fn listing_order(l: &Entry, r: &Entry) -> std::cmp::Ordering {
    r.size.cmp(&l.size).then_with(|| l.path.cmp(&r.path))
}

#[test]
fn sorting_many_entries_matches_a_stable_sort() {
    let mut input: Vec<Entry> = Vec::new();
    let mut x: u64 = 12345;
    for i in 0..3000_u64 {
        x = x.wrapping_mul(6364136223846793005).wrapping_add(1442695040888963407);
        let size = (x >> 33) % 50;
        let depth = ((x >> 20) % 3) as usize + 1;
        let parts: Vec<Vec<u8>> = (0..depth).map(|d| letter(x >> (d * 5))).collect();
        let kind = if i % 2 == 0 { EntryKind::File } else { EntryKind::Directory };
        input.push(Entry { path: parts, size, kind });
    }
    let mut expected = input.clone();
    expected.sort_by(listing_order);
    assert_eq!(sort_entries(input), expected);
}

#[test]
fn byte_and_path_comparison() {
    assert_eq!(compare_bytes(&name("a"), &name("ab")), Order::Less);
    assert_eq!(compare_bytes(&name("b"), &name("ab")), Order::Greater);
    assert_eq!(compare_bytes(&name("ab"), &name("ab")), Order::Equal);
    assert_eq!(compare_paths(&path(&["a", "b"]), &path(&["a.b"])), Order::Less);
    assert_eq!(compare_paths(&path(&["a"]), &path(&["a", "b"])), Order::Less);
    assert_eq!(compare_paths(&path(&["b"]), &path(&["a", "z"])), Order::Greater);
}

#[test]
fn labels_visibility_and_block_sizes() {
    assert_eq!(EntryKind::File.label(), "file");
    assert_eq!(EntryKind::Directory.label(), "dir");
    assert!(depth_is_visible(3, None));
    assert!(depth_is_visible(3, Some(3)));
    assert!(!depth_is_visible(4, Some(3)));
    assert_eq!(disk_usage_bytes(8), 4096);
    assert_eq!(disk_usage_bytes(u64::MAX / 512 + 1), u64::MAX);
    assert_eq!(
        ScanOptions::default(),
        ScanOptions { include_files: true, include_dirs: true, max_depth: None }
    );
}

#[test]
fn report_is_strictly_ordered_with_distinct_paths() {
    let tree = root(vec![
        dir("d", vec![file("a", 5), file("b", 5), dir("e", vec![file("a", 5)])]),
        file("a", 5),
        file("z", 20),
    ]);
    let report = report(&tree, ScanOptions::default());
    for pair in report.entries.windows(2) {
        let (l, r) = (&pair[0], &pair[1]);
        assert!(l.size > r.size || (l.size == r.size && l.path < r.path));
    }
    assert_eq!(report.entries.len(), 7);
}

#[test]
fn options_only_filter_the_full_listing() {
    let make = || {
        root(vec![
            dir("d", vec![file("a", 5), dir("e", vec![file("b", 7)])]),
            file("c", 3),
        ])
    };
    let everything = report(&make(), ScanOptions::default());
    for opts in [
        options(true, false, None),
        options(false, true, None),
        options(true, true, Some(1)),
        options(true, false, Some(2)),
        options(false, true, Some(0)),
    ] {
        let listed = report(&make(), opts);
        let expected: Vec<Entry> = everything
            .entries
            .iter()
            .filter(|e| {
                let kind_ok = match e.kind {
                    EntryKind::File => opts.include_files,
                    EntryKind::Directory => opts.include_dirs,
                };
                kind_ok && opts.max_depth.map_or(true, |m| e.path.len() <= m)
            })
            .cloned()
            .collect();
        assert_eq!(listed.entries, expected);
    }
}
