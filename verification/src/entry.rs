//! The records a scan reports, the options that shape it, and the order in
//! which entries are listed: largest first, ties broken by path.
use vstd::prelude::*;
use crate::order::{Order, flip, path_order, path_view, compare_paths, lemma_path_flip, lemma_path_equal, lemma_path_trans};

verus! {

/// Whether a reported entry is a regular file or a directory.
#[derive(Debug, Clone, Copy, PartialEq, Eq, Structural)]
pub enum EntryKind {
    File,
    Directory,
}

impl EntryKind {
    /// The short label shown in the TYPE column.
    pub fn label(self) -> (text: &'static str)
        ensures
            text@ == (match self {
                EntryKind::File => "file"@,
                EntryKind::Directory => "dir"@,
            }),
    {
        match self {
            EntryKind::File => "file",
            EntryKind::Directory => "dir",
        }
    }
}

/// A file or directory found by a scan. `path` lists the components below
/// the scanned root (empty for the root itself); `size` is the disk usage in
/// bytes, for a directory the total of everything below it.
#[derive(Debug, Clone, PartialEq, Eq)]
pub struct Entry {
    pub path: Vec<Vec<u8>>,
    pub size: u64,
    pub kind: EntryKind,
}

/// The mathematical content of an [`Entry`].
pub struct EntryModel {
    pub path: Seq<Seq<u8>>,
    pub size: u64,
    pub kind: EntryKind,
}

impl View for Entry {
    type V = EntryModel;

    open spec fn view(&self) -> EntryModel {
        EntryModel { path: path_view(self.path@), size: self.size, kind: self.kind }
    }
}

/// A path that could not be fully read, with the reason.
#[derive(Debug, Clone, PartialEq, Eq)]
pub struct ScanIssue {
    pub path: Vec<Vec<u8>>,
    pub message: String,
}

/// The mathematical content of a [`ScanIssue`].
pub struct IssueModel {
    pub path: Seq<Seq<u8>>,
    pub message: Seq<char>,
}

impl View for ScanIssue {
    type V = IssueModel;

    open spec fn view(&self) -> IssueModel {
        IssueModel { path: path_view(self.path@), message: self.message@ }
    }
}

/// What a scan lists: files, directories, and how deep below the root.
#[derive(Debug, Clone, Copy, PartialEq, Eq, Structural)]
pub struct ScanOptions {
    pub include_files: bool,
    pub include_dirs: bool,
    pub max_depth: Option<usize>,
}

impl Default for ScanOptions {
    /// Files and directories at every depth.
    fn default() -> (options: Self)
        ensures
            options == (ScanOptions { include_files: true, include_dirs: true, max_depth: None }),
    {
        ScanOptions { include_files: true, include_dirs: true, max_depth: None }
    }
}

/// The outcome of a scan: the entries, largest first, and the paths that
/// could not be read.
#[derive(Debug, Clone, PartialEq, Eq)]
pub struct ScanReport {
    pub entries: Vec<Entry>,
    pub issues: Vec<ScanIssue>,
}

/// The entries of a sequence, as their models.
pub open spec fn entry_models(s: Seq<Entry>) -> Seq<EntryModel> {
    s.map_values(|e: Entry| e@)
}

/// The issues of a sequence, as their models.
pub open spec fn issue_models(s: Seq<ScanIssue>) -> Seq<IssueModel> {
    s.map_values(|i: ScanIssue| i@)
}

/// An entry at `depth` below the root is displayed when no limit is set or
/// the depth does not exceed it.
pub open spec fn visible(depth: usize, max_depth: Option<usize>) -> bool {
    match max_depth {
        Some(limit) => depth <= limit,
        None => true,
    }
}

/// Whether an entry at `depth` below the root is displayed.
pub fn depth_is_visible(depth: usize, max_depth: Option<usize>) -> (shown: bool)
    ensures
        shown == visible(depth, max_depth),
{
    match max_depth {
        Some(limit) => depth <= limit,
        None => true,
    }
}

/// Disk usage of a file that occupies `blocks` blocks of 512 bytes,
/// saturating at `u64::MAX`.
pub fn disk_usage_bytes(blocks: u64) -> (bytes: u64)
    ensures
        bytes == (if blocks * 512 > u64::MAX { u64::MAX as int } else { blocks * 512 }),
{
    match blocks.checked_mul(512) {
        Some(bytes) => bytes,
        None => u64::MAX,
    }
}

/// The listing order of entries: larger sizes first, then paths in
/// component-wise order.
pub open spec fn entry_order(x: EntryModel, y: EntryModel) -> Order {
    if x.size > y.size {
        Order::Less
    } else if x.size < y.size {
        Order::Greater
    } else {
        path_order(x.path, y.path)
    }
}

/// Two entries have the same sort key: the same size and the same path.
pub open spec fn same_key(x: EntryModel, y: EntryModel) -> bool {
    x.size == y.size && x.path == y.path
}

/// Entry order: swapping the arguments flips the outcome.
pub proof fn lemma_entry_flip(x: EntryModel, y: EntryModel)
    ensures
        entry_order(y, x) == flip(entry_order(x, y)),
{
    lemma_path_flip(x.path, y.path);
}

/// Entry order: `Equal` exactly on entries with the same key.
pub proof fn lemma_entry_equal(x: EntryModel, y: EntryModel)
    ensures
        entry_order(x, y) == Order::Equal <==> same_key(x, y),
{
    lemma_path_equal(x.path, y.path);
}

/// Entry order is transitive, and strictly so when either step is strict.
pub proof fn lemma_entry_trans(x: EntryModel, y: EntryModel, z: EntryModel)
    requires
        entry_order(x, y) != Order::Greater,
        entry_order(y, z) != Order::Greater,
    ensures
        entry_order(x, z) != Order::Greater,
        entry_order(x, y) == Order::Less || entry_order(y, z) == Order::Less ==> entry_order(
            x,
            z,
        ) == Order::Less,
{
    lemma_path_equal(x.path, y.path);
    lemma_path_equal(y.path, z.path);
    lemma_path_equal(x.path, z.path);
    lemma_path_flip(x.path, z.path);
    if x.size == y.size && y.size == z.size {
        if path_order(x.path, y.path) == Order::Less && path_order(y.path, z.path) == Order::Less {
            lemma_path_trans(x.path, y.path, z.path);
        }
    }
}

/// Compares two entries in listing order.
pub fn compare_entries(x: &Entry, y: &Entry) -> (o: Order)
    ensures
        o == entry_order(x@, y@),
{
    if x.size > y.size {
        Order::Less
    } else if x.size < y.size {
        Order::Greater
    } else {
        compare_paths(&x.path, &y.path)
    }
}

} // verus!
