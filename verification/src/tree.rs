//! The scan itself: a walk over a directory tree as it was read from disk,
//! which totals directory sizes, collects the entries that the options let
//! through and the paths that could not be read, then lists the entries
//! largest first.
use vstd::prelude::*;
use crate::order::path_view;
use crate::entry::{Entry, EntryKind, EntryModel, IssueModel, ScanIssue, ScanOptions, ScanReport, entry_models, issue_models, visible, depth_is_visible};
use crate::sort::{sorted, same_classes, sort_entries};

verus! {

/// What reading one directory gave: an error, or its items in the order
/// the directory yielded them.
#[derive(Debug)]
pub enum Listing {
    Unreadable { message: String },
    Read { items: Vec<DirItem> },
}

/// One item that reading a directory yielded. Names are the raw bytes of
/// the item's file name. Symbolic links are recorded but never followed.
#[derive(Debug)]
pub enum DirItem {
    /// Reading the next item of the directory failed.
    ReadError { message: String },
    /// The item's metadata could not be read.
    MetadataError { name: Vec<u8>, message: String },
    Symlink { name: Vec<u8> },
    /// A regular file and its disk usage in bytes.
    File { name: Vec<u8>, size: u64 },
    Directory { name: Vec<u8>, listing: Listing },
    /// Anything else: a socket, a device, a pipe.
    Special { name: Vec<u8> },
}

/// The path a scan starts from, as its metadata describes it.
#[derive(Debug)]
pub enum RootNode {
    Symlink,
    File { size: u64 },
    Directory { listing: Listing },
    Special,
}

/// Why a scan cannot start at the given root.
#[derive(Debug, Clone, Copy, PartialEq, Eq, Structural)]
pub enum ScanError {
    RootIsSymlink,
    RootNotFileOrDirectory,
}

impl ScanError {
    /// The text of the error.
    pub fn message(&self) -> (text: &'static str)
        ensures
            text@ == (match self {
                ScanError::RootIsSymlink => "the root path must not be a symbolic link"@,
                ScanError::RootNotFileOrDirectory =>
                    "the root path is neither a regular file nor a directory"@,
            }),
    {
        match self {
            ScanError::RootIsSymlink => "the root path must not be a symbolic link",
            ScanError::RootNotFileOrDirectory =>
                "the root path is neither a regular file nor a directory",
        }
    }
}

/// What walking part of a tree yields: the total disk usage, and the
/// entries and issues in the order the walk meets them.
pub struct Walk {
    pub total: u64,
    pub entries: Seq<EntryModel>,
    pub issues: Seq<IssueModel>,
}

/// Addition that stops at `u64::MAX`.
pub open spec fn sat_add(a: u64, b: u64) -> u64 {
    if a + b > u64::MAX {
        u64::MAX
    } else {
        (a + b) as u64
    }
}

/// One level deeper, stopping at `usize::MAX`.
pub open spec fn deeper(depth: usize) -> usize {
    if depth < usize::MAX {
        (depth + 1) as usize
    } else {
        depth
    }
}

/// The walk over a directory at path `dir` and depth `depth`: an
/// unreadable directory yields one issue at its own path and size 0.
pub open spec fn walk_listing(l: Listing, dir: Seq<Seq<u8>>, depth: usize, opts: ScanOptions) -> Walk
    decreases l,
{
    match l {
        Listing::Unreadable { message } => Walk {
            total: 0,
            entries: Seq::empty(),
            issues: seq![IssueModel { path: dir, message: message@ }],
        },
        Listing::Read { items } => walk_items(items@, dir, depth, opts),
    }
}

/// The walk over the items of a directory, in order. Files add their size
/// and subdirectories their total; each is listed after everything below
/// it when the options let it through at depth `deeper(depth)`.
pub open spec fn walk_items(items: Seq<DirItem>, dir: Seq<Seq<u8>>, depth: usize, opts: ScanOptions) -> Walk
    decreases items,
{
    if items.len() == 0 {
        Walk { total: 0, entries: Seq::empty(), issues: Seq::empty() }
    } else {
        let w = walk_items(items.subrange(0, items.len() - 1), dir, depth, opts);
        let child_depth = deeper(depth);
        match items[items.len() - 1] {
            DirItem::ReadError { message } => Walk {
                issues: w.issues.push(IssueModel { path: dir, message: message@ }),
                ..w
            },
            DirItem::MetadataError { name, message } => Walk {
                issues: w.issues.push(IssueModel { path: dir.push(name@), message: message@ }),
                ..w
            },
            DirItem::Symlink { .. } => w,
            DirItem::Special { .. } => w,
            DirItem::File { name, size } => Walk {
                total: sat_add(w.total, size),
                entries: if opts.include_files && visible(child_depth, opts.max_depth) {
                    w.entries.push(EntryModel { path: dir.push(name@), size, kind: EntryKind::File })
                } else {
                    w.entries
                },
                issues: w.issues,
            },
            DirItem::Directory { name, listing } => {
                let c = walk_listing(listing, dir.push(name@), child_depth, opts);
                let below = w.entries + c.entries;
                Walk {
                    total: sat_add(w.total, c.total),
                    entries: if opts.include_dirs && visible(child_depth, opts.max_depth) {
                        below.push(
                            EntryModel { path: dir.push(name@), size: c.total, kind: EntryKind::Directory },
                        )
                    } else {
                        below
                    },
                    issues: w.issues + c.issues,
                }
            },
        }
    }
}

proof fn lemma_path_view_push(s: Seq<Vec<u8>>, c: Vec<u8>)
    ensures
        path_view(s.push(c)) == path_view(s).push(c@),
{
    assert(path_view(s.push(c)) =~= path_view(s).push(c@));
}

/// A copy of a byte string.
fn copy_bytes(v: &Vec<u8>) -> (r: Vec<u8>)
    ensures
        r@ == v@,
{
    let mut r: Vec<u8> = Vec::new();
    let mut i: usize = 0;
    while i < v.len()
        invariant
            i <= v@.len(),
            r@ == v@.subrange(0, i as int),
        decreases v@.len() - i,
    {
        r.push(v[i]);
        i = i + 1;
    }
    r
}

/// The path `dir` extended by one component, `name`.
fn child_path(dir: &Vec<Vec<u8>>, name: &Vec<u8>) -> (r: Vec<Vec<u8>>)
    ensures
        path_view(r@) == path_view(dir@).push(name@),
{
    let mut r: Vec<Vec<u8>> = Vec::new();
    let mut i: usize = 0;
    while i < dir.len()
        invariant
            i <= dir@.len(),
            path_view(r@) == path_view(dir@).subrange(0, i as int),
        decreases dir@.len() - i,
    {
        let c = copy_bytes(&dir[i]);
        proof {
            lemma_path_view_push(r@, c);
        }
        r.push(c);
        assert(path_view(r@) =~= path_view(dir@).subrange(0, i + 1));
        i = i + 1;
    }
    assert(path_view(r@) =~= path_view(dir@));
    let last = copy_bytes(name);
    proof {
        lemma_path_view_push(r@, last);
    }
    r.push(last);
    r
}

/// A copy of a path.
fn copy_path(dir: &Vec<Vec<u8>>) -> (r: Vec<Vec<u8>>)
    ensures
        path_view(r@) == path_view(dir@),
{
    let mut r: Vec<Vec<u8>> = Vec::new();
    let mut i: usize = 0;
    while i < dir.len()
        invariant
            i <= dir@.len(),
            path_view(r@) == path_view(dir@).subrange(0, i as int),
        decreases dir@.len() - i,
    {
        let c = copy_bytes(&dir[i]);
        proof {
            lemma_path_view_push(r@, c);
        }
        r.push(c);
        assert(path_view(r@) =~= path_view(dir@).subrange(0, i + 1));
        i = i + 1;
    }
    assert(path_view(r@) =~= path_view(dir@));
    r
}

/// Walks the directory at `dir`, appending entries and issues in walk
/// order, and returns its total disk usage.
pub fn scan_directory(
    listing: &Listing,
    dir: &Vec<Vec<u8>>,
    depth: usize,
    options: ScanOptions,
    entries: &mut Vec<Entry>,
    issues: &mut Vec<ScanIssue>,
) -> (total: u64)
    ensures
        total == walk_listing(*listing, path_view(dir@), depth, options).total,
        entry_models(final(entries)@) == entry_models(old(entries)@) + walk_listing(
            *listing,
            path_view(dir@),
            depth,
            options,
        ).entries,
        issue_models(final(issues)@) == issue_models(old(issues)@) + walk_listing(
            *listing,
            path_view(dir@),
            depth,
            options,
        ).issues,
    decreases listing,
{
    let ghost dv = path_view(dir@);
    match listing {
        Listing::Unreadable { message } => {
            let ghost before = issue_models(issues@);
            issues.push(ScanIssue { path: copy_path(dir), message: message.clone() });
            assert(issue_models(issues@) =~= before + seq![IssueModel { path: dv, message: message@ }]);
            assert(entry_models(entries@) =~= entry_models(entries@) + Seq::<EntryModel>::empty());
            0
        },
        Listing::Read { items } => {
            let ghost e0 = entry_models(entries@);
            let ghost i0 = issue_models(issues@);
            let mut total: u64 = 0;
            let child_depth = depth.saturating_add(1);
            let mut i: usize = 0;
            assert(items@.subrange(0, 0) =~= Seq::<DirItem>::empty());
            assert(e0 + Seq::<EntryModel>::empty() =~= e0);
            assert(i0 + Seq::<IssueModel>::empty() =~= i0);
            while i < items.len()
                invariant
                    i <= items@.len(),
                    dv == path_view(dir@),
                    child_depth == deeper(depth),
                    *listing == (Listing::Read { items: *items }),
                    total == walk_items(items@.subrange(0, i as int), dv, depth, options).total,
                    entry_models(entries@) == e0 + walk_items(
                        items@.subrange(0, i as int),
                        dv,
                        depth,
                        options,
                    ).entries,
                    issue_models(issues@) == i0 + walk_items(
                        items@.subrange(0, i as int),
                        dv,
                        depth,
                        options,
                    ).issues,
                decreases items@.len() - i,
            {
                let ghost prefix = items@.subrange(0, i as int);
                let ghost next = items@.subrange(0, i + 1);
                assert(next.subrange(0, next.len() - 1) =~= prefix);
                assert(next[next.len() - 1] == items@[i as int]);
                let ghost w = walk_items(prefix, dv, depth, options);
                let ghost eb = entry_models(entries@);
                let ghost ib = issue_models(issues@);
                match &items[i] {
                    DirItem::ReadError { message } => {
                        issues.push(ScanIssue { path: copy_path(dir), message: message.clone() });
                        assert(issue_models(issues@) =~= ib.push(
                            IssueModel { path: dv, message: message@ },
                        ));
                        assert(i0 + w.issues.push(IssueModel { path: dv, message: message@ })
                            =~= (i0 + w.issues).push(IssueModel { path: dv, message: message@ }));
                    },
                    DirItem::MetadataError { name, message } => {
                        issues.push(ScanIssue { path: child_path(dir, name), message: message.clone() });
                        assert(issue_models(issues@) =~= ib.push(
                            IssueModel { path: dv.push(name@), message: message@ },
                        ));
                        assert(i0 + w.issues.push(IssueModel { path: dv.push(name@), message: message@ })
                            =~= (i0 + w.issues).push(
                            IssueModel { path: dv.push(name@), message: message@ },
                        ));
                    },
                    DirItem::Symlink { .. } => {},
                    DirItem::Special { .. } => {},
                    DirItem::File { name, size } => {
                        total = total.saturating_add(*size);
                        if options.include_files && depth_is_visible(child_depth, options.max_depth) {
                            entries.push(
                                Entry { path: child_path(dir, name), size: *size, kind: EntryKind::File },
                            );
                            let ghost em = EntryModel { path: dv.push(name@), size: *size, kind: EntryKind::File };
                            assert(entry_models(entries@) =~= eb.push(em));
                            assert(e0 + w.entries.push(em) =~= (e0 + w.entries).push(em));
                        }
                    },
                    DirItem::Directory { name, listing: sub } => {
                        let path = child_path(dir, name);
                        proof {
                            assert(decreases_to!(*listing => (*listing)->items));
                            assert(decreases_to!(items@[i as int] => items@[i as int]->listing));
                        }
                        let size = scan_directory(sub, &path, child_depth, options, entries, issues);
                        let ghost c = walk_listing(*sub, dv.push(name@), child_depth, options);
                        assert(e0 + (w.entries + c.entries) =~= (e0 + w.entries) + c.entries);
                        assert(i0 + (w.issues + c.issues) =~= (i0 + w.issues) + c.issues);
                        total = total.saturating_add(size);
                        if options.include_dirs && depth_is_visible(child_depth, options.max_depth) {
                            let ghost ec = entry_models(entries@);
                            entries.push(Entry { path, size, kind: EntryKind::Directory });
                            let ghost em = EntryModel { path: dv.push(name@), size, kind: EntryKind::Directory };
                            assert(entry_models(entries@) =~= ec.push(em));
                            assert(e0 + (w.entries + c.entries).push(em) =~= (e0 + (w.entries
                                + c.entries)).push(em));
                        }
                    },
                }
                i = i + 1;
            }
            assert(items@.subrange(0, items@.len() as int) =~= items@);
            total
        },
    }
}

/// Scans the tree read from `root`. A symbolic link or a path that is
/// neither a regular file nor a directory is refused. A file is listed
/// alone; a directory is walked. The entries come sorted largest first,
/// ties by path, and otherwise in walk order; the issues come in walk order.
pub fn scan(root: &RootNode, options: ScanOptions) -> (result: Result<ScanReport, ScanError>)
    ensures
        match *root {
            RootNode::Symlink => result == Err::<ScanReport, ScanError>(ScanError::RootIsSymlink),
            RootNode::Special => result == Err::<ScanReport, ScanError>(
                ScanError::RootNotFileOrDirectory,
            ),
            RootNode::File { size } => result matches Ok(report) && entry_models(report.entries@)
                == (if options.include_files && visible(0, options.max_depth) {
                seq![EntryModel { path: Seq::empty(), size, kind: EntryKind::File }]
            } else {
                Seq::empty()
            }) && report.issues@.len() == 0,
            RootNode::Directory { listing } => result matches Ok(report) && sorted(
                entry_models(report.entries@),
            ) && same_classes(
                entry_models(report.entries@),
                walk_listing(listing, Seq::empty(), 0, options).entries,
            ) && issue_models(report.issues@) == walk_listing(
                listing,
                Seq::empty(),
                0,
                options,
            ).issues,
        },
{
    match root {
        RootNode::Symlink => Err(ScanError::RootIsSymlink),
        RootNode::Special => Err(ScanError::RootNotFileOrDirectory),
        RootNode::File { size } => {
            let mut entries: Vec<Entry> = Vec::new();
            if options.include_files && depth_is_visible(0, options.max_depth) {
                entries.push(Entry { path: Vec::new(), size: *size, kind: EntryKind::File });
                assert(path_view(entries@[0].path@) =~= Seq::<Seq<u8>>::empty());
                assert(entry_models(entries@) =~= seq![
                    EntryModel { path: Seq::empty(), size: *size, kind: EntryKind::File },
                ]);
            } else {
                assert(entry_models(entries@) =~= Seq::<EntryModel>::empty());
            }
            Ok(ScanReport { entries, issues: Vec::new() })
        },
        RootNode::Directory { listing } => {
            let mut entries: Vec<Entry> = Vec::new();
            let mut issues: Vec<ScanIssue> = Vec::new();
            let top: Vec<Vec<u8>> = Vec::new();
            assert(path_view(top@) =~= Seq::<Seq<u8>>::empty());
            assert(entry_models(entries@) =~= Seq::<EntryModel>::empty());
            assert(issue_models(issues@) =~= Seq::<IssueModel>::empty());
            scan_directory(listing, &top, 0, options, &mut entries, &mut issues);
            let ghost walked = walk_listing(*listing, Seq::empty(), 0, options);
            assert(entry_models(entries@) =~= walked.entries);
            assert(issue_models(issues@) =~= walked.issues);
            let entries = sort_entries(entries);
            Ok(ScanReport { entries, issues })
        },
    }
}

} // verus!
