//! Properties of the scan and of argument parsing that hold for every input.
use vstd::prelude::*;
use crate::order::Order;
use crate::entry::{EntryKind, EntryModel, ScanOptions, visible, entry_order, same_key, lemma_entry_flip, lemma_entry_equal, lemma_entry_trans};
use crate::sort::{sorted, class_of, same_classes, lemma_class_push};
use crate::entry::IssueModel;
use crate::tree::{DirItem, Listing, Walk, walk_listing, walk_items, sat_add, deeper};
use crate::cli::{ArgState, CliModel, OutcomeModel, DEFAULT_LIMIT, parse_from, finish, positive_outcome, non_negative_outcome, parsed_usize, unsigned_digits, is_digit, all_digits, initial_state};

verus! {

/// The bytes used by the files of a directory and of everything below it.
pub open spec fn listing_usage(l: Listing) -> nat
    decreases l,
{
    match l {
        Listing::Unreadable { .. } => 0,
        Listing::Read { items } => items_usage(items@),
    }
}

/// The bytes used by the files among `items` and below them.
pub open spec fn items_usage(items: Seq<DirItem>) -> nat
    decreases items,
{
    if items.len() == 0 {
        0
    } else {
        items_usage(items.subrange(0, items.len() - 1)) + match items[items.len() - 1] {
            DirItem::File { size, .. } => size as nat,
            DirItem::Directory { listing, .. } => listing_usage(listing),
            _ => 0,
        }
    }
}

/// A count, or `u64::MAX` where it does not fit.
pub open spec fn capped(n: nat) -> u64 {
    if n > u64::MAX {
        u64::MAX
    } else {
        n as u64
    }
}

/// A directory's total is the disk usage of all files below it, capped at
/// `u64::MAX`, whatever the options and the depth.
pub proof fn law_total_is_usage(l: Listing, dir: Seq<Seq<u8>>, depth: usize, opts: ScanOptions)
    ensures
        walk_listing(l, dir, depth, opts).total == capped(listing_usage(l)),
    decreases l,
{
    match l {
        Listing::Unreadable { .. } => {},
        Listing::Read { items } => {
            assert(decreases_to!(l => l->items));
            law_items_total_is_usage(items@, dir, depth, opts);
        },
    }
}

/// The total over some items of a directory is the disk usage below them,
/// capped at `u64::MAX`.
pub proof fn law_items_total_is_usage(items: Seq<DirItem>, dir: Seq<Seq<u8>>, depth: usize, opts: ScanOptions)
    ensures
        walk_items(items, dir, depth, opts).total == capped(items_usage(items)),
    decreases items,
{
    if items.len() > 0 {
        let prefix = items.subrange(0, items.len() - 1);
        law_items_total_is_usage(prefix, dir, depth, opts);
        match items[items.len() - 1] {
            DirItem::Directory { name, listing } => {
                assert(decreases_to!(items => items[items.len() - 1]));
                assert(decreases_to!(items[items.len() - 1] => items[items.len() - 1]->listing));
                law_total_is_usage(listing, dir.push(name@), deeper(depth), opts);
            },
            _ => {},
        }
    }
}

/// Directory totals do not depend on what is displayed: two walks of the
/// same directory with any options and depths give the same total.
pub proof fn law_totals_ignore_display(
    l: Listing,
    dir1: Seq<Seq<u8>>,
    depth1: usize,
    opts1: ScanOptions,
    dir2: Seq<Seq<u8>>,
    depth2: usize,
    opts2: ScanOptions,
)
    ensures
        walk_listing(l, dir1, depth1, opts1).total == walk_listing(l, dir2, depth2, opts2).total,
{
    law_total_is_usage(l, dir1, depth1, opts1);
    law_total_is_usage(l, dir2, depth2, opts2);
}

/// The depth `n` levels below `depth`, stopping at `usize::MAX`.
pub open spec fn depth_below(depth: usize, n: nat) -> usize {
    if depth + n > usize::MAX {
        usize::MAX
    } else {
        (depth + n) as usize
    }
}

/// An entry found by walking the directory at `dir` and `depth` lies below
/// `dir`, is of a kind the options include, and is visible at its depth.
pub open spec fn listed_as_asked(e: EntryModel, dir: Seq<Seq<u8>>, depth: usize, opts: ScanOptions) -> bool {
    &&& e.path.len() > dir.len()
    &&& e.path.subrange(0, dir.len() as int) == dir
    &&& (e.kind == EntryKind::File ==> opts.include_files)
    &&& (e.kind == EntryKind::Directory ==> opts.include_dirs)
    &&& visible(depth_below(depth, (e.path.len() - dir.len()) as nat), opts.max_depth)
}

/// Every entry a walk lists lies below the walked directory, is of a kind
/// the options include, and is within the depth limit.
pub proof fn law_entries_as_asked(l: Listing, dir: Seq<Seq<u8>>, depth: usize, opts: ScanOptions)
    ensures
        forall|t: int|
            0 <= t < walk_listing(l, dir, depth, opts).entries.len() ==> listed_as_asked(
                #[trigger] walk_listing(l, dir, depth, opts).entries[t],
                dir,
                depth,
                opts,
            ),
    decreases l,
{
    match l {
        Listing::Unreadable { .. } => {
            assert(walk_listing(l, dir, depth, opts).entries =~= Seq::<EntryModel>::empty());
        },
        Listing::Read { items } => {
            assert(decreases_to!(l => l->items));
            law_item_entries_as_asked(items@, dir, depth, opts);
            assert(walk_listing(l, dir, depth, opts) == walk_items(items@, dir, depth, opts));
        },
    }
}

/// Every entry a walk over some items lists lies below the directory, is
/// of a kind the options include, and is within the depth limit.
pub proof fn law_item_entries_as_asked(items: Seq<DirItem>, dir: Seq<Seq<u8>>, depth: usize, opts: ScanOptions)
    ensures
        forall|t: int|
            0 <= t < walk_items(items, dir, depth, opts).entries.len() ==> listed_as_asked(
                #[trigger] walk_items(items, dir, depth, opts).entries[t],
                dir,
                depth,
                opts,
            ),
    decreases items,
{
    if items.len() > 0 {
        let prefix = items.subrange(0, items.len() - 1);
        let w = walk_items(prefix, dir, depth, opts);
        law_item_entries_as_asked(prefix, dir, depth, opts);
        let all = walk_items(items, dir, depth, opts);
        match items[items.len() - 1] {
            DirItem::File { name, size } => {
                assert forall|t: int| 0 <= t < all.entries.len() implies listed_as_asked(
                    #[trigger] all.entries[t],
                    dir,
                    depth,
                    opts,
                ) by {
                    if t == w.entries.len() {
                        assert(dir.push(name@).subrange(0, dir.len() as int) =~= dir);
                    } else {
                        assert(all.entries[t] == w.entries[t]);
                    }
                }
            },
            DirItem::Directory { name, listing } => {
                assert(decreases_to!(items => items[items.len() - 1]));
                assert(decreases_to!(items[items.len() - 1] => items[items.len() - 1]->listing));
                let sub = dir.push(name@);
                let c = walk_listing(listing, sub, deeper(depth), opts);
                law_entries_as_asked(listing, sub, deeper(depth), opts);
                let below = w.entries + c.entries;
                assert forall|t: int| 0 <= t < all.entries.len() implies listed_as_asked(
                    #[trigger] all.entries[t],
                    dir,
                    depth,
                    opts,
                ) by {
                    if t < w.entries.len() {
                        assert(all.entries[t] == w.entries[t]);
                    } else if t < below.len() {
                        let e = c.entries[t - w.entries.len()];
                        assert(all.entries[t] == e);
                        assert(listed_as_asked(e, sub, deeper(depth), opts));
                        assert(e.path.subrange(0, sub.len() as int).subrange(0, dir.len() as int)
                            =~= e.path.subrange(0, dir.len() as int));
                        assert(sub.subrange(0, dir.len() as int) =~= dir);
                    } else {
                        assert(sub.subrange(0, dir.len() as int) =~= dir);
                    }
                }
            },
            _ => {
                assert forall|t: int| 0 <= t < all.entries.len() implies listed_as_asked(
                    #[trigger] all.entries[t],
                    dir,
                    depth,
                    opts,
                ) by {
                    assert(all.entries[t] == w.entries[t]);
                }
            },
        }
    }
}

/// Every entry a scan of a directory reports is of a kind the options
/// include and lies within the depth limit: `listed` is the report's
/// entries, which `scan` guarantees have the walk's classes.
pub proof fn law_report_entries_as_asked(listing: Listing, opts: ScanOptions, listed: Seq<EntryModel>)
    requires
        same_classes(listed, walk_listing(listing, Seq::empty(), 0, opts).entries),
    ensures
        forall|t: int|
            0 <= t < listed.len() ==> listed_as_asked(#[trigger] listed[t], Seq::empty(), 0, opts),
{
    broadcast use vstd::seq_lib::group_to_multiset_ensures;

    let walked = walk_listing(listing, Seq::empty(), 0, opts).entries;
    law_same_classes_same_entries(listed, walked);
    law_entries_as_asked(listing, Seq::empty(), 0, opts);
    assert forall|t: int| 0 <= t < listed.len() implies listed_as_asked(
        #[trigger] listed[t],
        Seq::empty(),
        0,
        opts,
    ) by {
        assert(listed.contains(listed[t]));
        assert(walked.to_multiset().count(listed[t]) > 0);
        assert(walked.contains(listed[t]));
        let w = choose|w: int| 0 <= w < walked.len() && walked[w] == listed[t];
        assert(listed_as_asked(walked[w], Seq::empty(), 0, opts));
    }
}

/// Symbolic links are never followed and, like sockets, devices and pipes,
/// add nothing to a scan.
pub proof fn law_links_and_specials_add_nothing(
    items: Seq<DirItem>,
    name: Vec<u8>,
    dir: Seq<Seq<u8>>,
    depth: usize,
    opts: ScanOptions,
)
    ensures
        walk_items(items.push(DirItem::Symlink { name }), dir, depth, opts) == walk_items(
            items,
            dir,
            depth,
            opts,
        ),
        walk_items(items.push(DirItem::Special { name }), dir, depth, opts) == walk_items(
            items,
            dir,
            depth,
            opts,
        ),
{
    assert(items.push(DirItem::Symlink { name }).subrange(0, items.len() as int) =~= items);
    assert(items.push(DirItem::Special { name }).subrange(0, items.len() as int) =~= items);
}

/// An unreadable subdirectory does not stop the scan: it is reported as an
/// issue at its path, counts as empty, and the rest of the walk goes on.
pub proof fn law_unreadable_directory_reported(
    items: Seq<DirItem>,
    name: Vec<u8>,
    message: String,
    dir: Seq<Seq<u8>>,
    depth: usize,
    opts: ScanOptions,
)
    ensures
        ({
            let before = walk_items(items, dir, depth, opts);
            let after = walk_items(
                items.push(
                    DirItem::Directory { name, listing: Listing::Unreadable { message } },
                ),
                dir,
                depth,
                opts,
            );
            &&& after.total == before.total
            &&& after.issues == before.issues.push(
                crate::entry::IssueModel { path: dir.push(name@), message: message@ },
            )
            &&& after.entries.subrange(0, before.entries.len() as int) == before.entries
        }),
{
    let grown = items.push(DirItem::Directory { name, listing: Listing::Unreadable { message } });
    assert(grown.subrange(0, items.len() as int) =~= items);
    let before = walk_items(items, dir, depth, opts);
    let after = walk_items(grown, dir, depth, opts);
    let c = walk_listing(Listing::Unreadable { message }, dir.push(name@), deeper(depth), opts);
    assert(c.total == 0);
    assert(c.entries.len() == 0);
    assert(c.issues == seq![crate::entry::IssueModel { path: dir.push(name@), message: message@ }]);
    assert(before.issues + seq![
        crate::entry::IssueModel { path: dir.push(name@), message: message@ },
    ] =~= before.issues.push(crate::entry::IssueModel { path: dir.push(name@), message: message@ }));
    assert(before.entries + Seq::<EntryModel>::empty() =~= before.entries);
    assert(after.entries.subrange(0, before.entries.len() as int) =~= before.entries);
}

/// An entry occurs in a sequence exactly as often as in its own class.
proof fn lemma_class_count(s: Seq<EntryModel>, x: EntryModel)
    ensures
        s.to_multiset().count(x) == class_of(s, x).to_multiset().count(x),
    decreases s.len(),
{
    broadcast use vstd::seq_lib::group_to_multiset_ensures;

    if s.len() > 0 {
        let rest = s.drop_last();
        lemma_class_count(rest, x);
        assert(s =~= rest.push(s.last()));
        lemma_class_push(rest, s.last(), x);
        if same_key(s.last(), x) {
            assert(class_of(s, x) == class_of(rest, x).push(s.last()));
        }
    } else {
        assert(s.to_multiset() =~= vstd::multiset::Multiset::empty());
    }
}

/// Sorting neither loses nor adds entries: sequences with the same classes
/// hold the same entries, each as often.
pub proof fn law_same_classes_same_entries(s: Seq<EntryModel>, t: Seq<EntryModel>)
    requires
        same_classes(s, t),
    ensures
        s.to_multiset() == t.to_multiset(),
{
    assert forall|x: EntryModel| s.to_multiset().count(x) == t.to_multiset().count(x) by {
        lemma_class_count(s, x);
        lemma_class_count(t, x);
        assert(class_of(s, x) == class_of(t, x));
    }
    assert(s.to_multiset() =~= t.to_multiset());
}

/// The last entry of a sequence is the last of its class.
proof fn lemma_class_last(s: Seq<EntryModel>)
    requires
        s.len() > 0,
    ensures
        class_of(s, s.last()).len() > 0,
        class_of(s, s.last()).last() == s.last(),
        class_of(s.drop_last(), s.last()) == class_of(s, s.last()).drop_last(),
{
    lemma_entry_equal(s.last(), s.last());
}

/// Every entry of a class belongs to the sequence and has the class's key.
proof fn lemma_class_members(s: Seq<EntryModel>, k: EntryModel)
    ensures
        forall|u: int|
            0 <= u < class_of(s, k).len() ==> same_key(#[trigger] class_of(s, k)[u], k)
                && s.contains(class_of(s, k)[u]),
    decreases s.len(),
{
    if s.len() > 0 {
        let rest = s.drop_last();
        lemma_class_members(rest, k);
        assert forall|u: int| 0 <= u < class_of(s, k).len() implies same_key(
            #[trigger] class_of(s, k)[u],
            k,
        ) && s.contains(class_of(s, k)[u]) by {
            if u < class_of(rest, k).len() {
                let y = class_of(rest, k)[u];
                assert(class_of(s, k)[u] == y);
                let w = choose|w: int| 0 <= w < rest.len() && rest[w] == y;
                assert(s[w] == y);
            } else {
                assert(s[s.len() - 1] == s.last());
            }
        }
    }
}

/// The listing order is fully determined: two sorted sequences with the
/// same classes are equal. So the report's entries are the walk's entries
/// in the one order that is largest first, ties by path, then walk order.
pub proof fn law_listing_order_unique(s: Seq<EntryModel>, t: Seq<EntryModel>)
    requires
        sorted(s),
        sorted(t),
        same_classes(s, t),
    ensures
        s == t,
    decreases s.len() + t.len(),
{
    if s.len() == 0 || t.len() == 0 {
        if s.len() > 0 {
            lemma_class_last(s);
            assert(class_of(s, s.last()) == class_of(t, s.last()));
            lemma_class_members(t, s.last());
            assert(false);
        }
        if t.len() > 0 {
            lemma_class_last(t);
            assert(class_of(s, t.last()) == class_of(t, t.last()));
            lemma_class_members(s, t.last());
            assert(false);
        }
        assert(s =~= t);
    } else {
        let x = s.last();
        let y = t.last();
        lemma_class_last(s);
        lemma_class_last(t);
        lemma_class_members(s, y);
        lemma_class_members(t, x);
        assert(class_of(s, y) == class_of(t, y));
        assert(class_of(s, x) == class_of(t, x));
        // Some entry of s has y's key, and it comes no later than x.
        let cy = class_of(s, y);
        assert(t.contains(y));
        assert(cy.last() == y);
        assert(s.contains(cy.last()));
        let i = choose|i: int| 0 <= i < s.len() && s[i] == y;
        if i < s.len() - 1 {
            assert(entry_order(s[i], s[s.len() - 1]) != Order::Greater);
        } else {
            lemma_entry_equal(x, x);
        }
        let cx = class_of(t, x);
        assert(cx.last() == x);
        assert(t.contains(cx.last()));
        let j = choose|j: int| 0 <= j < t.len() && t[j] == x;
        if j < t.len() - 1 {
            assert(entry_order(t[j], t[t.len() - 1]) != Order::Greater);
        } else {
            lemma_entry_equal(y, y);
        }
        lemma_entry_flip(x, y);
        lemma_entry_equal(x, y);
        assert(same_key(x, y));
        assert(class_of(s, x) == class_of(s, y));
        assert(x == y);
        let s1 = s.drop_last();
        let t1 = t.drop_last();
        assert forall|i: int, j: int| 0 <= i < j < s1.len() implies entry_order(
            #[trigger] s1[i],
            #[trigger] s1[j],
        ) != Order::Greater by {
            assert(s1[i] == s[i] && s1[j] == s[j]);
        }
        assert forall|i: int, j: int| 0 <= i < j < t1.len() implies entry_order(
            #[trigger] t1[i],
            #[trigger] t1[j],
        ) != Order::Greater by {
            assert(t1[i] == t[i] && t1[j] == t[j]);
        }
        assert forall|k: EntryModel| #[trigger] class_of(s1, k) == class_of(t1, k) by {
            assert(s =~= s1.push(x));
            assert(t =~= t1.push(x));
            lemma_class_push(s1, x, k);
            lemma_class_push(t1, x, k);
            assert(class_of(s, k) == class_of(t, k));
            if same_key(x, k) {
                assert(class_of(s1, k) =~= class_of(s, k).drop_last());
                assert(class_of(t1, k) =~= class_of(t, k).drop_last());
            }
        }
        law_listing_order_unique(s1, t1);
        assert(s =~= s1.push(x));
        assert(t =~= t1.push(y));
    }
}

/// Whatever the arguments, settings that parse have a positive limit and
/// show files, directories or both.
pub proof fn law_parsed_settings_usable(args: Seq<Seq<char>>, i: nat, st: ArgState)
    requires
        st.limit >= 1,
    ensures
        parse_from(args, i, st) matches Ok(cli) ==> cli.limit >= 1 && (cli.include_files
            || cli.include_dirs),
    decreases args.len() - i,
{
    if i < args.len() {
        let a = args[i as int];
        if a == "-h"@ || a == "--help"@ {
        } else if a == "--version"@ {
        } else if a == "--files"@ {
            law_parsed_settings_usable(args, i + 1, ArgState { files: true, ..st });
        } else if a == "--dirs"@ {
            law_parsed_settings_usable(args, i + 1, ArgState { dirs: true, ..st });
        } else if a == "--limit"@ {
            if i + 1 < args.len() {
                if let Ok(n) = positive_outcome("--limit"@, args[i + 1int]) {
                    law_parsed_settings_usable(args, (i + 2) as nat, ArgState { limit: n, ..st });
                }
            }
        } else if a == "--depth"@ {
            if i + 1 < args.len() {
                if let Ok(n) = non_negative_outcome("--depth"@, args[i + 1int]) {
                    law_parsed_settings_usable(
                        args,
                        (i + 2) as nat,
                        ArgState { max_depth: Some(n), ..st },
                    );
                }
            }
        } else if a.len() > 0 && a[0] == '-' {
        } else if st.path is Some {
        } else {
            law_parsed_settings_usable(args, i + 1, ArgState { path: Some(a), ..st });
        }
    }
}

/// Whether `text` is one of the arguments from position `i` on.
pub open spec fn mentioned(args: Seq<Seq<char>>, i: nat, text: Seq<char>) -> bool
    decreases args.len() - i,
{
    if args.len() <= i {
        false
    } else {
        args[i as int] == text || mentioned(args, i + 1, text)
    }
}

/// The argument right after the last occurrence of `flag` at position `i`
/// or later that has an argument after it; `found` if there is none.
pub open spec fn last_value_from(args: Seq<Seq<char>>, i: nat, flag: Seq<char>, found: Option<Seq<char>>) -> Option<Seq<char>>
    decreases args.len() - i,
{
    if args.len() <= i + 1 {
        found
    } else if args[i as int] == flag {
        last_value_from(args, i + 1, flag, Some(args[i + 1int]))
    } else {
        last_value_from(args, i + 1, flag, found)
    }
}

/// The argument right after the last occurrence of `flag`.
pub open spec fn last_value(args: Seq<Seq<char>>, flag: Seq<char>) -> Option<Seq<char>> {
    last_value_from(args, 0, flag, None)
}

proof fn lemma_last_value_default(args: Seq<Seq<char>>, i: nat, flag: Seq<char>, found: Option<Seq<char>>)
    ensures
        last_value_from(args, i, flag, found) == (match last_value_from(args, i, flag, None) {
            Some(w) => Some(w),
            None => found,
        }),
    decreases args.len() - i,
{
    if args.len() > i + 1 {
        if args[i as int] == flag {
            lemma_last_value_default(args, i + 1, flag, Some(args[i + 1int]));
        } else {
            lemma_last_value_default(args, i + 1, flag, found);
            lemma_last_value_default(args, i + 1, flag, None);
        }
    }
}

/// The option names differ from each other, and each begins with '-'.
proof fn lemma_option_names()
    ensures
        "--files"@ != "--dirs"@,
        "--files"@ != "--limit"@,
        "--files"@ != "--depth"@,
        "--dirs"@ != "--limit"@,
        "--dirs"@ != "--depth"@,
        "--limit"@ != "--depth"@,
        "--files"@.len() > 0 && "--files"@[0] == '-',
        "--dirs"@.len() > 0 && "--dirs"@[0] == '-',
        "--limit"@.len() > 0 && "--limit"@[0] == '-',
        "--depth"@.len() > 0 && "--depth"@[0] == '-',
{
    reveal_strlit("--files");
    reveal_strlit("--dirs");
    reveal_strlit("--limit");
    reveal_strlit("--depth");
    assert("--files"@.len() != "--dirs"@.len());
    assert("--files"@[2] != "--limit"@[2]);
    assert("--files"@[2] != "--depth"@[2]);
    assert("--dirs"@.len() != "--limit"@.len());
    assert("--dirs"@.len() != "--depth"@.len());
    assert("--limit"@[2] != "--depth"@[2]);
}

/// A text that reads as a number does not begin with '-'.
proof fn lemma_number_not_option(v: Seq<char>)
    requires
        parsed_usize(v) is Some,
    ensures
        v.len() > 0 && v[0] != '-',
{
    let d = unsigned_digits(v);
    assert(all_digits(d) && d.len() > 0);
    assert(is_digit(d[0]));
    if !(v.len() > 0 && v[0] == '+') {
        assert(d == v);
    }
}

proof fn lemma_settings_from(args: Seq<Seq<char>>, i: nat, st: ArgState)
    ensures
        parse_from(args, i, st) matches Ok(cli) ==> {
            &&& Some(cli.limit) == (match last_value_from(args, i, "--limit"@, None) {
                Some(v) => parsed_usize(v),
                None => Some(st.limit),
            })
            &&& cli.max_depth == (match last_value_from(args, i, "--depth"@, None) {
                Some(v) => parsed_usize(v),
                None => st.max_depth,
            })
            &&& cli.include_files == ((st.files || mentioned(args, i, "--files"@)) || !(st.dirs
                || mentioned(args, i, "--dirs"@)))
            &&& cli.include_dirs == ((st.dirs || mentioned(args, i, "--dirs"@)) || !(st.files
                || mentioned(args, i, "--files"@)))
        },
    decreases args.len() - i,
{
    lemma_option_names();
    if i < args.len() {
        let a = args[i as int];
        if a == "-h"@ || a == "--help"@ {
        } else if a == "--version"@ {
        } else if a == "--files"@ {
            lemma_settings_from(args, i + 1, ArgState { files: true, ..st });
            lemma_one_step(args, i);
        } else if a == "--dirs"@ {
            lemma_settings_from(args, i + 1, ArgState { dirs: true, ..st });
            lemma_one_step(args, i);
        } else if a == "--limit"@ {
            if i + 1 < args.len() {
                let v = args[i + 1int];
                if let Ok(n) = positive_outcome("--limit"@, v) {
                    lemma_number_not_option(v);
                    lemma_one_step(args, i);
                    lemma_one_step(args, i + 1);
                    assert(last_value_from(args, i + 1, "--limit"@, Some(v)) == last_value_from(
                        args,
                        (i + 2) as nat,
                        "--limit"@,
                        Some(v),
                    ));
                    lemma_settings_from(args, (i + 2) as nat, ArgState { limit: n, ..st });
                    lemma_last_value_default(args, (i + 2) as nat, "--limit"@, Some(v));
                }
            }
        } else if a == "--depth"@ {
            if i + 1 < args.len() {
                let v = args[i + 1int];
                if let Ok(n) = non_negative_outcome("--depth"@, v) {
                    lemma_number_not_option(v);
                    lemma_one_step(args, i);
                    lemma_one_step(args, i + 1);
                    assert(last_value_from(args, i + 1, "--depth"@, Some(v)) == last_value_from(
                        args,
                        (i + 2) as nat,
                        "--depth"@,
                        Some(v),
                    ));
                    lemma_settings_from(args, (i + 2) as nat, ArgState { max_depth: Some(n), ..st });
                    lemma_last_value_default(args, (i + 2) as nat, "--depth"@, Some(v));
                }
            }
        } else if a.len() > 0 && a[0] == '-' {
        } else if st.path is Some {
        } else {
            lemma_settings_from(args, i + 1, ArgState { path: Some(a), ..st });
            lemma_one_step(args, i);
        }
    }
}

/// Stepping past an argument that is none of the options' names.
proof fn lemma_one_step(args: Seq<Seq<char>>, i: nat)
    ensures
        forall|x: Seq<char>|
            #![trigger mentioned(args, i, x)]
            i < args.len() ==> mentioned(args, i, x) == (args[i as int] == x || mentioned(
                args,
                i + 1,
                x,
            )),
        forall|f: Seq<char>|
            #![trigger last_value_from(args, i, f, None)]
            i < args.len() && args[i as int] != f ==> last_value_from(args, i, f, None)
                == last_value_from(args, i + 1, f, None),
{
}

/// Settings that parse follow the arguments directly: the limit is the
/// number after the last `--limit` (20 without one) and at least 1, the
/// depth limit the number after the last `--depth` (none without one), and
/// `--files` alone shows only files, `--dirs` alone only directories, both
/// or neither show both.
pub proof fn law_settings_follow_arguments(args: Seq<Seq<char>>)
    ensures
        parse_from(args, 0, initial_state()) matches Ok(cli) ==> {
            &&& cli.limit >= 1
            &&& Some(cli.limit) == (match last_value(args, "--limit"@) {
                Some(v) => parsed_usize(v),
                None => Some(DEFAULT_LIMIT),
            })
            &&& cli.max_depth == (match last_value(args, "--depth"@) {
                Some(v) => parsed_usize(v),
                None => None,
            })
            &&& cli.include_files == (mentioned(args, 0, "--files"@) || !mentioned(args, 0, "--dirs"@))
            &&& cli.include_dirs == (mentioned(args, 0, "--dirs"@) || !mentioned(args, 0, "--files"@))
        },
{
    lemma_settings_from(args, 0, initial_state());
    law_parsed_settings_usable(args, 0, initial_state());
}

/// The number of read failures in a directory and below it: an unreadable
/// directory, an item that could not be read, an item whose metadata could
/// not be read.
pub open spec fn listing_failures(l: Listing) -> nat
    decreases l,
{
    match l {
        Listing::Unreadable { .. } => 1,
        Listing::Read { items } => items_failures(items@),
    }
}

/// The number of read failures among `items` and below them.
pub open spec fn items_failures(items: Seq<DirItem>) -> nat
    decreases items,
{
    if items.len() == 0 {
        0
    } else {
        items_failures(items.subrange(0, items.len() - 1)) + match items[items.len() - 1] {
            DirItem::ReadError { .. } => 1,
            DirItem::MetadataError { .. } => 1,
            DirItem::Directory { listing, .. } => listing_failures(listing),
            _ => 0,
        }
    }
}

/// The number of regular files and directories below a directory, reached
/// without crossing a symbolic link.
pub open spec fn listing_nodes(l: Listing) -> nat
    decreases l,
{
    match l {
        Listing::Unreadable { .. } => 0,
        Listing::Read { items } => items_nodes(items@),
    }
}

/// The number of regular files and directories among `items` and below them.
pub open spec fn items_nodes(items: Seq<DirItem>) -> nat
    decreases items,
{
    if items.len() == 0 {
        0
    } else {
        items_nodes(items.subrange(0, items.len() - 1)) + match items[items.len() - 1] {
            DirItem::File { .. } => 1,
            DirItem::Directory { listing, .. } => 1 + listing_nodes(listing),
            _ => 0,
        }
    }
}

/// A walk reports one issue per read failure, and lists at most one entry
/// per regular file or directory reached without crossing a link.
pub proof fn law_walk_counts(l: Listing, dir: Seq<Seq<u8>>, depth: usize, opts: ScanOptions)
    ensures
        walk_listing(l, dir, depth, opts).issues.len() == listing_failures(l),
        walk_listing(l, dir, depth, opts).entries.len() <= listing_nodes(l),
    decreases l,
{
    match l {
        Listing::Unreadable { .. } => {},
        Listing::Read { items } => {
            assert(decreases_to!(l => l->items));
            law_items_walk_counts(items@, dir, depth, opts);
        },
    }
}

/// Over some items, a walk reports one issue per read failure and lists at
/// most one entry per regular file or directory.
pub proof fn law_items_walk_counts(items: Seq<DirItem>, dir: Seq<Seq<u8>>, depth: usize, opts: ScanOptions)
    ensures
        walk_items(items, dir, depth, opts).issues.len() == items_failures(items),
        walk_items(items, dir, depth, opts).entries.len() <= items_nodes(items),
    decreases items,
{
    if items.len() > 0 {
        let prefix = items.subrange(0, items.len() - 1);
        law_items_walk_counts(prefix, dir, depth, opts);
        match items[items.len() - 1] {
            DirItem::Directory { name, listing } => {
                assert(decreases_to!(items => items[items.len() - 1]));
                assert(decreases_to!(items[items.len() - 1] => items[items.len() - 1]->listing));
                law_walk_counts(listing, dir.push(name@), deeper(depth), opts);
            },
            _ => {},
        }
    }
}

/// The name an item carries, if any.
pub open spec fn item_name(it: DirItem) -> Option<Seq<u8>> {
    match it {
        DirItem::ReadError { .. } => None,
        DirItem::MetadataError { name, .. } => Some(name@),
        DirItem::Symlink { name } => Some(name@),
        DirItem::File { name, .. } => Some(name@),
        DirItem::Directory { name, .. } => Some(name@),
        DirItem::Special { name } => Some(name@),
    }
}

/// Some item among `items` is called `n`.
pub open spec fn named(items: Seq<DirItem>, n: Seq<u8>) -> bool {
    exists|i: int| 0 <= i < items.len() && #[trigger] item_name(items[i]) == Some(n)
}

/// Within every listing of the tree, no two items share a name, as in any
/// file system.
pub open spec fn listing_names_distinct(l: Listing) -> bool
    decreases l,
{
    match l {
        Listing::Unreadable { .. } => true,
        Listing::Read { items } => items_names_distinct(items@),
    }
}

/// No two of `items` share a name, and the same holds below them.
pub open spec fn items_names_distinct(items: Seq<DirItem>) -> bool
    decreases items,
{
    if items.len() == 0 {
        true
    } else {
        let prefix = items.subrange(0, items.len() - 1);
        &&& items_names_distinct(prefix)
        &&& (item_name(items[items.len() - 1]) matches Some(n) ==> !named(prefix, n))
        &&& (items[items.len() - 1] matches DirItem::Directory { listing, .. }
            ==> listing_names_distinct(listing))
    }
}

/// What sits at path `p` below a directory, reached through readable
/// directories: a regular file with its size, or a directory with the
/// capped disk usage below it.
pub open spec fn node_in_listing(l: Listing, p: Seq<Seq<u8>>) -> Option<(EntryKind, u64)>
    decreases l,
{
    match l {
        Listing::Unreadable { .. } => None,
        Listing::Read { items } => node_in_items(items@, p),
    }
}

/// What sits at path `p` below some items, the later item winning on a
/// shared name.
pub open spec fn node_in_items(items: Seq<DirItem>, p: Seq<Seq<u8>>) -> Option<(EntryKind, u64)>
    decreases items,
{
    if items.len() == 0 || p.len() == 0 {
        None
    } else {
        let prefix = items.subrange(0, items.len() - 1);
        match items[items.len() - 1] {
            DirItem::File { name, size } => if name@ == p[0] {
                if p.len() == 1 {
                    Some((EntryKind::File, size))
                } else {
                    None
                }
            } else {
                node_in_items(prefix, p)
            },
            DirItem::Directory { name, listing } => if name@ == p[0] {
                if p.len() == 1 {
                    Some((EntryKind::Directory, capped(listing_usage(listing))))
                } else {
                    node_in_listing(listing, p.subrange(1, p.len() as int))
                }
            } else {
                node_in_items(prefix, p)
            },
            _ => node_in_items(prefix, p),
        }
    }
}

/// The path of `e` relative to `dir`.
pub open spec fn relative(e: EntryModel, dir: Seq<Seq<u8>>) -> Seq<Seq<u8>> {
    e.path.subrange(dir.len() as int, e.path.len() as int)
}

/// `e` describes a regular file or directory below `dir` that the options
/// show: its path, kind and size are those of the node there.
pub open spec fn shown_node(
    node: Option<(EntryKind, u64)>,
    e: EntryModel,
    dir: Seq<Seq<u8>>,
    depth: usize,
    opts: ScanOptions,
) -> bool {
    &&& e.path.len() > dir.len()
    &&& e.path.subrange(0, dir.len() as int) == dir
    &&& node == Some((e.kind, e.size))
    &&& (e.kind == EntryKind::File ==> opts.include_files)
    &&& (e.kind == EntryKind::Directory ==> opts.include_dirs)
    &&& visible(depth_below(depth, (e.path.len() - dir.len()) as nat), opts.max_depth)
}

/// `q` lies strictly below `p`.
pub open spec fn strictly_below(q: Seq<Seq<u8>>, p: Seq<Seq<u8>>) -> bool {
    q.len() > p.len() && q.subrange(0, p.len() as int) == p
}

/// No two entries share a path.
pub open spec fn paths_distinct(entries: Seq<EntryModel>) -> bool {
    forall|s: int, t: int|
        0 <= s < t < entries.len() ==> (#[trigger] entries[s]).path != (#[trigger] entries[t]).path
}

/// Every directory comes after the entries below it.
pub open spec fn directories_after_contents(entries: Seq<EntryModel>) -> bool {
    forall|s: int, t: int|
        0 <= s < entries.len() && 0 <= t < entries.len() && entries[s].kind == EntryKind::Directory
            && strictly_below((#[trigger] entries[t]).path, (#[trigger] entries[s]).path) ==> t < s
}

/// The entries of a walk over `items` at `dir` are exactly the regular
/// files and directories below them that the options show, each with its
/// node's kind and size, no path twice, every directory after its contents.
pub open spec fn items_listed_exactly(
    entries: Seq<EntryModel>,
    items: Seq<DirItem>,
    dir: Seq<Seq<u8>>,
    depth: usize,
    opts: ScanOptions,
) -> bool {
    &&& forall|t: int|
        0 <= t < entries.len() ==> shown_node(
            node_in_items(items, relative(entries[t], dir)),
            #[trigger] entries[t],
            dir,
            depth,
            opts,
        )
    &&& forall|e: EntryModel|
        #[trigger] shown_node(node_in_items(items, relative(e, dir)), e, dir, depth, opts)
            ==> entries.contains(e)
    &&& paths_distinct(entries)
    &&& directories_after_contents(entries)
}

/// The entries of a walk over the directory `l` at `dir` are exactly the
/// regular files and directories below it that the options show, each with
/// its node's kind and size, no path twice, every directory after its
/// contents.
pub open spec fn listing_listed_exactly(
    entries: Seq<EntryModel>,
    l: Listing,
    dir: Seq<Seq<u8>>,
    depth: usize,
    opts: ScanOptions,
) -> bool {
    &&& forall|t: int|
        0 <= t < entries.len() ==> shown_node(
            node_in_listing(l, relative(entries[t], dir)),
            #[trigger] entries[t],
            dir,
            depth,
            opts,
        )
    &&& forall|e: EntryModel|
        #[trigger] shown_node(node_in_listing(l, relative(e, dir)), e, dir, depth, opts)
            ==> entries.contains(e)
    &&& paths_distinct(entries)
    &&& directories_after_contents(entries)
}

proof fn lemma_node_named(items: Seq<DirItem>, p: Seq<Seq<u8>>)
    ensures
        node_in_items(items, p) is Some ==> p.len() > 0 && named(items, p[0]),
    decreases items.len(),
{
    if items.len() > 0 && p.len() > 0 {
        let prefix = items.subrange(0, items.len() - 1);
        lemma_node_named(prefix, p);
        if node_in_items(items, p) is Some {
            let last = items[items.len() - 1];
            if item_name(last) == Some(p[0]) {
                assert(item_name(items[items.len() - 1]) == Some(p[0]));
            } else {
                assert(node_in_items(items, p) == node_in_items(prefix, p));
                let i = choose|i: int| 0 <= i < prefix.len() && #[trigger] item_name(prefix[i]) == Some(p[0]);
                assert(item_name(items[i]) == Some(p[0]));
            }
        }
    }
}

/// Depth bookkeeping: one level below `depth`, then `n` more.
proof fn lemma_depth_below_step(depth: usize, n: nat)
    ensures
        depth_below(deeper(depth), n) == depth_below(depth, n + 1),
{
}

/// The first component of an entry's path below `dir` names an item of
/// the walk's prefix when the entry was found there.
proof fn lemma_component_named(prefix: Seq<DirItem>, x: EntryModel, dir: Seq<Seq<u8>>, depth: usize, opts: ScanOptions)
    requires
        shown_node(node_in_items(prefix, relative(x, dir)), x, dir, depth, opts),
    ensures
        named(prefix, x.path[dir.len() as int]),
{
    lemma_node_named(prefix, relative(x, dir));
    assert(relative(x, dir)[0] == x.path[dir.len() as int]);
}

/// Everything a walk over some items lists, and nothing else, in the
/// order that puts each directory after what it holds.
pub proof fn law_items_exact(items: Seq<DirItem>, dir: Seq<Seq<u8>>, depth: usize, opts: ScanOptions)
    requires
        items_names_distinct(items),
    ensures
        items_listed_exactly(walk_items(items, dir, depth, opts).entries, items,
            dir,
            depth,
            opts,
        ),
    decreases items,
{
    if items.len() == 0 {
        let all = walk_items(items, dir, depth, opts);
        assert(all.entries.len() == 0);
    } else {
        let prefix = items.subrange(0, items.len() - 1);
        law_items_exact(prefix, dir, depth, opts);
        match items[items.len() - 1] {
            DirItem::File { name, size } => {
                lemma_exact_file(items, dir, depth, opts);
            },
            DirItem::Directory { name, listing } => {
                assert(decreases_to!(items => items[items.len() - 1]));
                assert(decreases_to!(items[items.len() - 1] => items[items.len() - 1]->listing));
                law_listing_exact(listing, dir.push(name@), deeper(depth), opts);
                law_total_is_usage(listing, dir.push(name@), deeper(depth), opts);
                lemma_exact_directory(items, dir, depth, opts);
            },
            _ => {
                let all = walk_items(items, dir, depth, opts);
                let w = walk_items(prefix, dir, depth, opts);
                assert(all.entries == w.entries);
                assert forall|p: Seq<Seq<u8>>| #[trigger] node_in_items(items, p) == node_in_items(prefix, p) by {}
                assert forall|t: int| 0 <= t < all.entries.len() implies shown_node(
                    node_in_items(items, relative(all.entries[t], dir)),
                    #[trigger] all.entries[t],
                    dir,
                    depth,
                    opts,
                ) by {
                    assert(node_in_items(items, relative(w.entries[t], dir)) == node_in_items(prefix, relative(w.entries[t], dir)));
                }
                assert forall|e: EntryModel|
                    #[trigger] shown_node(node_in_items(items, relative(e, dir)), e, dir, depth, opts) implies all.entries.contains(e) by {
                    assert(node_in_items(items, relative(e, dir)) == node_in_items(prefix, relative(e, dir)));
                }
            },
        }
    }
}

/// Everything a walk over a directory lists, and nothing else, in the
/// order that puts each directory after what it holds.
pub proof fn law_listing_exact(l: Listing, dir: Seq<Seq<u8>>, depth: usize, opts: ScanOptions)
    requires
        listing_names_distinct(l),
    ensures
        listing_listed_exactly(
            walk_listing(l, dir, depth, opts).entries, l,
            dir,
            depth,
            opts,
        ),
    decreases l,
{
    match l {
        Listing::Unreadable { .. } => {
            assert(walk_listing(l, dir, depth, opts).entries =~= Seq::<EntryModel>::empty());
        },
        Listing::Read { items } => {
            assert(decreases_to!(l => l->items));
            law_items_exact(items@, dir, depth, opts);
            let entries = walk_listing(l, dir, depth, opts).entries;
            assert(walk_listing(l, dir, depth, opts) == walk_items(items@, dir, depth, opts));
            assert forall|p: Seq<Seq<u8>>| #[trigger] node_in_listing(l, p) == node_in_items(items@, p) by {}
            assert forall|t: int| 0 <= t < entries.len() implies shown_node(
                node_in_listing(l, relative(entries[t], dir)),
                #[trigger] entries[t],
                dir,
                depth,
                opts,
            ) by {
                assert(node_in_listing(l, relative(entries[t], dir)) == node_in_items(items@, relative(entries[t], dir)));
            }
            assert forall|e: EntryModel|
                #[trigger] shown_node(node_in_listing(l, relative(e, dir)), e, dir, depth, opts) implies entries.contains(e) by {
                assert(node_in_listing(l, relative(e, dir)) == node_in_items(items@, relative(e, dir)));
            }
        },
    }
}

proof fn lemma_exact_file(items: Seq<DirItem>, dir: Seq<Seq<u8>>, depth: usize, opts: ScanOptions)
    requires
        items.len() > 0,
        items[items.len() - 1] is File,
        items_names_distinct(items),
        items_listed_exactly(walk_items(items.subrange(0, items.len() - 1), dir, depth, opts).entries, items.subrange(0, items.len() - 1),
            dir,
            depth,
            opts,
        ),
    ensures
        items_listed_exactly(walk_items(items, dir, depth, opts).entries, items,
            dir,
            depth,
            opts,
        ),
{
    let prefix = items.subrange(0, items.len() - 1);
    let w = walk_items(prefix, dir, depth, opts).entries;
    let all = walk_items(items, dir, depth, opts).entries;
    let (name, size) = match items[items.len() - 1] {
        DirItem::File { name, size } => (name, size),
        _ => arbitrary(),
    };
    let fe = EntryModel { path: dir.push(name@), size, kind: EntryKind::File };
    let pushed = opts.include_files && visible(deeper(depth), opts.max_depth);
    assert(all == if pushed { w.push(fe) } else { w });
    assert(!named(prefix, name@));
    assert(relative(fe, dir) =~= seq![name@]);
    assert(fe.path.subrange(0, dir.len() as int) =~= dir);
    lemma_depth_below_step(depth, 0);
    // Entries found in the prefix are found the same way in all items.
    assert forall|x: EntryModel|
        #[trigger] shown_node(node_in_items(prefix, relative(x, dir)), x, dir, depth, opts) implies
        node_in_items(items, relative(x, dir)) == node_in_items(prefix, relative(x, dir))
        && x.path[dir.len() as int] != name@ by {
        lemma_component_named(prefix, x, dir, depth, opts);
    }
    assert forall|t: int| 0 <= t < all.len() implies shown_node(
        node_in_items(items, relative(all[t], dir)),
        #[trigger] all[t],
        dir,
        depth,
        opts,
    ) by {
        if t < w.len() {
            assert(all[t] == w[t]);
            assert(shown_node(node_in_items(prefix, relative(w[t], dir)), w[t], dir, depth, opts));
        }
    }
    assert forall|e: EntryModel|
        #[trigger] shown_node(node_in_items(items, relative(e, dir)), e, dir, depth, opts) implies all.contains(e) by {
        let r = relative(e, dir);
        assert(r[0] == e.path[dir.len() as int]);
        if r[0] == name@ {
            assert(r.len() == 1);
            assert(e.path =~= dir.push(name@));
            assert(e == fe);
            assert(all[all.len() - 1] == fe);
        } else {
            assert(shown_node(node_in_items(prefix, r), e, dir, depth, opts));
            let k = choose|k: int| 0 <= k < w.len() && w[k] == e;
            assert(all[k] == e);
        }
    }
    assert forall|s: int, t: int| 0 <= s < t < all.len() implies (#[trigger] all[s]).path != (
    #[trigger] all[t]).path by {
        assert(all[s] == w[s]);
        if t < w.len() {
            assert(all[t] == w[t]);
        } else {
            assert(shown_node(node_in_items(prefix, relative(w[s], dir)), w[s], dir, depth, opts));
            if all[s].path == all[t].path {
                assert(all[t].path[dir.len() as int] == name@);
            }
        }
    }
    assert forall|s: int, t: int|
        0 <= s < all.len() && 0 <= t < all.len() && all[s].kind == EntryKind::Directory
            && strictly_below((#[trigger] all[t]).path, (#[trigger] all[s]).path) implies t < s by {
        assert(s < w.len());
        assert(all[s] == w[s]);
        assert(shown_node(node_in_items(prefix, relative(w[s], dir)), w[s], dir, depth, opts));
        if t >= w.len() {
            assert(all[t] == fe);
            assert(fe.path[dir.len() as int] == w[s].path[dir.len() as int]);
        } else {
            assert(all[t] == w[t]);
        }
    }
}

proof fn lemma_exact_directory(items: Seq<DirItem>, dir: Seq<Seq<u8>>, depth: usize, opts: ScanOptions)
    requires
        items.len() > 0,
        items[items.len() - 1] is Directory,
        items_names_distinct(items),
        items_listed_exactly(walk_items(items.subrange(0, items.len() - 1), dir, depth, opts).entries, items.subrange(0, items.len() - 1),
            dir,
            depth,
            opts,
        ),
        listing_listed_exactly(walk_listing(
                items[items.len() - 1]->listing,
                dir.push(items[items.len() - 1]->Directory_name@),
                deeper(depth),
                opts,
            ).entries, items[items.len() - 1]->listing,
            dir.push(items[items.len() - 1]->Directory_name@),
            deeper(depth),
            opts,
        ),
        walk_listing(
            items[items.len() - 1]->listing,
            dir.push(items[items.len() - 1]->Directory_name@),
            deeper(depth),
            opts,
        ).total == capped(listing_usage(items[items.len() - 1]->listing)),
    ensures
        items_listed_exactly(
            walk_items(items, dir, depth, opts).entries, items,
            dir,
            depth,
            opts,
        ),
{
    let prefix = items.subrange(0, items.len() - 1);
    let w = walk_items(prefix, dir, depth, opts).entries;
    let all = walk_items(items, dir, depth, opts).entries;
    let name = items[items.len() - 1]->Directory_name;
    let listing = items[items.len() - 1]->listing;
    let sub = dir.push(name@);
    let cw = walk_listing(listing, sub, deeper(depth), opts);
    let c = cw.entries;
    let de = EntryModel { path: sub, size: cw.total, kind: EntryKind::Directory };
    let below = w + c;
    let pushed = opts.include_dirs && visible(deeper(depth), opts.max_depth);
    assert(all == if pushed { below.push(de) } else { below });
    assert(!named(prefix, name@));
    assert(relative(de, dir) =~= seq![name@]);
    assert(sub.subrange(0, dir.len() as int) =~= dir);
    lemma_depth_below_step(depth, 0);
    assert forall|x: EntryModel|
        #[trigger] shown_node(node_in_items(prefix, relative(x, dir)), x, dir, depth, opts) implies
        node_in_items(items, relative(x, dir)) == node_in_items(prefix, relative(x, dir))
        && x.path[dir.len() as int] != name@ by {
        lemma_component_named(prefix, x, dir, depth, opts);
    }
    // Entries found below the subdirectory are found the same way from here.
    assert forall|x: EntryModel|
        #[trigger] shown_node(node_in_listing(listing, relative(x, sub)), x, sub, deeper(depth), opts) implies
        shown_node(node_in_items(items, relative(x, dir)), x, dir, depth, opts)
        && x.path[dir.len() as int] == name@ && x.path.len() > sub.len() by {
        let r = relative(x, dir);
        assert(x.path.subrange(0, sub.len() as int).subrange(0, dir.len() as int) =~= x.path.subrange(0, dir.len() as int));
        assert(x.path.subrange(0, sub.len() as int)[dir.len() as int] == x.path[dir.len() as int]);
        assert(r[0] == x.path[dir.len() as int]);
        assert(r.subrange(1, r.len() as int) =~= relative(x, sub));
        lemma_depth_below_step(depth, (x.path.len() - sub.len()) as nat);
    }
    assert forall|t: int| 0 <= t < all.len() implies shown_node(
        node_in_items(items, relative(all[t], dir)),
        #[trigger] all[t],
        dir,
        depth,
        opts,
    ) by {
        if t < w.len() {
            assert(all[t] == w[t]);
            assert(shown_node(node_in_items(prefix, relative(w[t], dir)), w[t], dir, depth, opts));
        } else if t < below.len() {
            let x = c[t - w.len()];
            assert(all[t] == x);
            assert(shown_node(node_in_listing(listing, relative(x, sub)), x, sub, deeper(depth), opts));
        } else {
            assert(all[t] == de);
        }
    }
    assert forall|e: EntryModel|
        #[trigger] shown_node(node_in_items(items, relative(e, dir)), e, dir, depth, opts) implies all.contains(e) by {
        let r = relative(e, dir);
        assert(r[0] == e.path[dir.len() as int]);
        if r[0] == name@ {
            if r.len() == 1 {
                assert(e.path =~= sub);
                assert(e == de);
                assert(all[all.len() - 1] == de);
            } else {
                assert(e.path.subrange(0, sub.len() as int) =~= sub);
                assert(r.subrange(1, r.len() as int) =~= relative(e, sub));
                lemma_depth_below_step(depth, (e.path.len() - sub.len()) as nat);
                assert(shown_node(node_in_listing(listing, relative(e, sub)), e, sub, deeper(depth), opts));
                let k = choose|k: int| 0 <= k < c.len() && c[k] == e;
                assert(all[w.len() + k] == e);
            }
        } else {
            assert(shown_node(node_in_items(prefix, r), e, dir, depth, opts));
            let k = choose|k: int| 0 <= k < w.len() && w[k] == e;
            assert(all[k] == e);
        }
    }
    assert forall|s: int, t: int| 0 <= s < t < all.len() implies (#[trigger] all[s]).path != (
    #[trigger] all[t]).path by {
        if t < w.len() {
            assert(all[s] == w[s] && all[t] == w[t]);
        } else if s >= w.len() && t < below.len() {
            assert(all[s] == c[s - w.len()] && all[t] == c[t - w.len()]);
        } else if s >= w.len() {
            let x = c[s - w.len()];
            assert(all[s] == x && all[t] == de);
            assert(shown_node(node_in_listing(listing, relative(x, sub)), x, sub, deeper(depth), opts));
        } else {
            assert(all[s] == w[s]);
            assert(shown_node(node_in_items(prefix, relative(w[s], dir)), w[s], dir, depth, opts));
            if t < below.len() {
                let x = c[t - w.len()];
                assert(all[t] == x);
                assert(shown_node(node_in_listing(listing, relative(x, sub)), x, sub, deeper(depth), opts));
            } else {
                assert(all[t] == de);
                assert(de.path[dir.len() as int] == name@);
            }
        }
    }
    assert forall|s: int, t: int|
        0 <= s < all.len() && 0 <= t < all.len() && all[s].kind == EntryKind::Directory
            && strictly_below((#[trigger] all[t]).path, (#[trigger] all[s]).path) implies t < s by {
        let ps = all[s].path;
        let pt = all[t].path;
        assert(pt.subrange(0, ps.len() as int)[dir.len() as int] == pt[dir.len() as int]);
        if s < w.len() {
            assert(all[s] == w[s]);
            assert(shown_node(node_in_items(prefix, relative(w[s], dir)), w[s], dir, depth, opts));
            if t < w.len() {
                assert(all[t] == w[t]);
            } else if t < below.len() {
                let x = c[t - w.len()];
                assert(all[t] == x);
                assert(shown_node(node_in_listing(listing, relative(x, sub)), x, sub, deeper(depth), opts));
            } else {
                assert(all[t] == de);
                assert(de.path[dir.len() as int] == name@);
            }
        } else if s < below.len() {
            let y = c[s - w.len()];
            assert(all[s] == y);
            assert(shown_node(node_in_listing(listing, relative(y, sub)), y, sub, deeper(depth), opts));
            if t < w.len() {
                assert(all[t] == w[t]);
                assert(shown_node(node_in_items(prefix, relative(w[t], dir)), w[t], dir, depth, opts));
            } else if t < below.len() {
                let x = c[t - w.len()];
                assert(all[t] == x);
            } else {
                assert(all[t] == de);
            }
        }
    }
}

/// Each entry comes strictly before the next in listing order: larger
/// first, and on equal sizes the smaller path first.
pub open spec fn strictly_sorted(s: Seq<EntryModel>) -> bool {
    forall|i: int, j: int|
        0 <= i < j < s.len() ==> entry_order(#[trigger] s[i], #[trigger] s[j]) == Order::Less
}

/// An entry with the key of `k` makes the class of `k` non-empty.
proof fn lemma_class_has_one(s: Seq<EntryModel>, k: EntryModel, i: int)
    requires
        0 <= i < s.len(),
        same_key(s[i], k),
    ensures
        class_of(s, k).len() >= 1,
    decreases s.len(),
{
    if i < s.len() - 1 {
        assert(s.drop_last()[i] == s[i]);
        lemma_class_has_one(s.drop_last(), k, i);
    }
}

/// Two entries with the key of `k` give the class of `k` two members.
proof fn lemma_class_has_two(s: Seq<EntryModel>, k: EntryModel, i: int, j: int)
    requires
        0 <= i < j < s.len(),
        same_key(s[i], k),
        same_key(s[j], k),
    ensures
        class_of(s, k).len() >= 2,
    decreases s.len(),
{
    let rest = s.drop_last();
    assert(rest[i] == s[i]);
    if j < s.len() - 1 {
        assert(rest[j] == s[j]);
        lemma_class_has_two(rest, k, i, j);
    } else {
        lemma_class_has_one(rest, k, i);
    }
}

/// Without two entries on one path, every class has at most one member.
proof fn lemma_class_at_most_one(s: Seq<EntryModel>, k: EntryModel)
    requires
        paths_distinct(s),
    ensures
        class_of(s, k).len() <= 1,
    decreases s.len(),
{
    if s.len() > 0 {
        let rest = s.drop_last();
        assert forall|a: int, b: int| 0 <= a < b < rest.len() implies (#[trigger] rest[a]).path != (
        #[trigger] rest[b]).path by {
            assert(rest[a] == s[a] && rest[b] == s[b]);
        }
        lemma_class_at_most_one(rest, k);
        if same_key(s.last(), k) && class_of(rest, k).len() == 1 {
            lemma_class_members(rest, k);
            let y = class_of(rest, k)[0];
            let u = choose|u: int| 0 <= u < rest.len() && rest[u] == y;
            assert(s[u] == y);
            assert(s[u].path == s[s.len() - 1].path);
        }
    }
}

/// A report of a tree whose listings have distinct names: its entries are
/// exactly the regular files and directories below the root that the
/// options show, with their sizes (a directory's is the capped usage below
/// it); no path occurs twice, and each entry comes strictly before the next
/// in listing order. `listed` is the report's entries, which `scan`
/// guarantees are sorted with the walk's classes.
pub proof fn law_report_exact(listing: Listing, opts: ScanOptions, listed: Seq<EntryModel>)
    requires
        listing_names_distinct(listing),
        sorted(listed),
        same_classes(listed, walk_listing(listing, Seq::empty(), 0, opts).entries),
    ensures
        forall|e: EntryModel|
            #[trigger] listed.contains(e) <==> shown_node(
                node_in_listing(listing, e.path),
                e,
                Seq::empty(),
                0,
                opts,
            ),
        paths_distinct(listed),
        strictly_sorted(listed),
{
    broadcast use vstd::seq_lib::group_to_multiset_ensures;

    let walked = walk_listing(listing, Seq::empty(), 0, opts).entries;
    law_listing_exact(listing, Seq::empty(), 0, opts);
    law_same_classes_same_entries(listed, walked);
    assert forall|e: EntryModel| #[trigger] listed.contains(e) <==> walked.contains(e) by {
        assert(listed.to_multiset().count(e) == walked.to_multiset().count(e));
    }
    assert forall|e: EntryModel| #[trigger] relative(e, Seq::empty()) == e.path by {
        assert(e.path.subrange(0, e.path.len() as int) =~= e.path);
    }
    assert forall|e: EntryModel|
        #[trigger] listed.contains(e) <==> shown_node(
            node_in_listing(listing, e.path),
            e,
            Seq::empty(),
            0,
            opts,
        ) by {
        assert(relative(e, Seq::empty()) == e.path);
        if listed.contains(e) {
            let k = choose|k: int| 0 <= k < walked.len() && walked[k] == e;
            assert(shown_node(node_in_listing(listing, relative(walked[k], Seq::empty())), walked[k], Seq::empty(), 0, opts));
        }
        if shown_node(node_in_listing(listing, e.path), e, Seq::empty(), 0, opts) {
            assert(shown_node(node_in_listing(listing, relative(e, Seq::empty())), e, Seq::empty(), 0, opts));
        }
    }
    assert forall|i: int, j: int| 0 <= i < j < listed.len() implies (#[trigger] listed[i]).path != (
    #[trigger] listed[j]).path by {
        let x = listed[i];
        let y = listed[j];
        if x.path == y.path {
            assert(listed.contains(x) && listed.contains(y));
            if x.size == y.size {
                lemma_class_has_two(listed, x, i, j);
                assert(class_of(listed, x) == class_of(walked, x));
                lemma_class_at_most_one(walked, x);
            } else {
                let a = choose|a: int| 0 <= a < walked.len() && walked[a] == x;
                let b = choose|b: int| 0 <= b < walked.len() && walked[b] == y;
                if a < b {
                    assert(walked[a].path != walked[b].path);
                } else {
                    assert(walked[b].path != walked[a].path);
                }
            }
        }
    }
    assert forall|i: int, j: int| 0 <= i < j < listed.len() implies entry_order(
        #[trigger] listed[i],
        #[trigger] listed[j],
    ) == Order::Less by {
        lemma_entry_equal(listed[i], listed[j]);
        assert(listed[i].path != listed[j].path);
    }
}

/// The options show an entry that lies `e.path.len()` levels below the
/// root: its kind is included and its depth within the limit.
pub open spec fn options_show(e: EntryModel, opts: ScanOptions) -> bool {
    &&& (e.kind == EntryKind::File ==> opts.include_files)
    &&& (e.kind == EntryKind::Directory ==> opts.include_dirs)
    &&& visible(depth_below(0, e.path.len()), opts.max_depth)
}

/// The entries of `s` that the options show, in their order.
pub open spec fn shown_by(s: Seq<EntryModel>, opts: ScanOptions) -> Seq<EntryModel>
    decreases s.len(),
{
    if s.len() == 0 {
        Seq::empty()
    } else {
        let rest = shown_by(s.drop_last(), opts);
        if options_show(s.last(), opts) {
            rest.push(s.last())
        } else {
            rest
        }
    }
}

proof fn lemma_shown_by(s: Seq<EntryModel>, opts: ScanOptions)
    requires
        strictly_sorted(s),
    ensures
        strictly_sorted(shown_by(s, opts)),
        forall|x: EntryModel|
            #[trigger] shown_by(s, opts).contains(x) <==> (s.contains(x) && options_show(x, opts)),
    decreases s.len(),
{
    if s.len() > 0 {
        let rest = s.drop_last();
        let x = s.last();
        assert forall|i: int, j: int| 0 <= i < j < rest.len() implies entry_order(
            #[trigger] rest[i],
            #[trigger] rest[j],
        ) == Order::Less by {
            assert(rest[i] == s[i] && rest[j] == s[j]);
        }
        lemma_shown_by(rest, opts);
        let r = shown_by(rest, opts);
        assert forall|y: EntryModel| #[trigger] s.contains(y) <==> (rest.contains(y) || y == x) by {
            if s.contains(y) {
                let k = choose|k: int| 0 <= k < s.len() && s[k] == y;
                if k < s.len() - 1 {
                    assert(rest[k] == y);
                }
            }
            if rest.contains(y) {
                let k = choose|k: int| 0 <= k < rest.len() && rest[k] == y;
                assert(s[k] == y);
            }
            if y == x {
                assert(s[s.len() - 1] == x);
            }
        }
        if options_show(x, opts) {
            let r2 = r.push(x);
            assert forall|y: EntryModel| #[trigger] r2.contains(y) <==> (r.contains(y) || y == x) by {
                if r2.contains(y) {
                    let k = choose|k: int| 0 <= k < r2.len() && r2[k] == y;
                    if k < r.len() {
                        assert(r[k] == y);
                    }
                }
                if r.contains(y) {
                    let k = choose|k: int| 0 <= k < r.len() && r[k] == y;
                    assert(r2[k] == y);
                }
                if y == x {
                    assert(r2[r.len() as int] == x);
                }
            }
            assert forall|i: int, j: int| 0 <= i < j < r2.len() implies entry_order(
                #[trigger] r2[i],
                #[trigger] r2[j],
            ) == Order::Less by {
                if j == r.len() {
                    assert(r.contains(r[i]));
                    let k = choose|k: int| 0 <= k < rest.len() && rest[k] == r[i];
                    assert(s[k] == r[i]);
                    assert(entry_order(s[k], s[s.len() - 1]) == Order::Less);
                } else {
                    assert(r2[i] == r[i] && r2[j] == r[j]);
                }
            }
        } else {
            assert forall|y: EntryModel| #[trigger] r.contains(y) implies y != x by {
                if r.contains(y) && y == x {
                    assert(!options_show(x, opts));
                }
            }
        }
    }
}

/// Two strictly sorted sequences with the same entries are equal.
proof fn lemma_strictly_sorted_unique(s: Seq<EntryModel>, t: Seq<EntryModel>)
    requires
        strictly_sorted(s),
        strictly_sorted(t),
        forall|x: EntryModel| #![trigger s.contains(x)] #![trigger t.contains(x)] s.contains(x) <==> t.contains(x),
    ensures
        s == t,
    decreases s.len() + t.len(),
{
    if s.len() == 0 || t.len() == 0 {
        if s.len() > 0 {
            assert(s.contains(s[0]));
        }
        if t.len() > 0 {
            assert(t.contains(t[0]));
        }
        assert(s =~= t);
    } else {
        let x = s.last();
        let y = t.last();
        assert(s.contains(x) && t.contains(y));
        if x != y {
            let u = choose|u: int| 0 <= u < s.len() && s[u] == y;
            let v = choose|v: int| 0 <= v < t.len() && t[v] == x;
            assert(u < s.len() - 1);
            assert(v < t.len() - 1);
            assert(entry_order(s[u], s[s.len() - 1]) == Order::Less);
            assert(entry_order(t[v], t[t.len() - 1]) == Order::Less);
            lemma_entry_flip(x, y);
            assert(false);
        }
        let s1 = s.drop_last();
        let t1 = t.drop_last();
        lemma_entry_equal(x, x);
        assert forall|i: int, j: int| 0 <= i < j < s1.len() implies entry_order(
            #[trigger] s1[i],
            #[trigger] s1[j],
        ) == Order::Less by {
            assert(s1[i] == s[i] && s1[j] == s[j]);
        }
        assert forall|i: int, j: int| 0 <= i < j < t1.len() implies entry_order(
            #[trigger] t1[i],
            #[trigger] t1[j],
        ) == Order::Less by {
            assert(t1[i] == t[i] && t1[j] == t[j]);
        }
        assert forall|z: EntryModel| #![trigger s1.contains(z)] #![trigger t1.contains(z)] s1.contains(z) <==> t1.contains(z) by {
            if s1.contains(z) {
                let k = choose|k: int| 0 <= k < s1.len() && s1[k] == z;
                assert(s[k] == z);
                assert(entry_order(s[k], s[s.len() - 1]) == Order::Less);
                assert(z != x);
                assert(s.contains(z));
                let m = choose|m: int| 0 <= m < t.len() && t[m] == z;
                assert(m != t.len() - 1);
                assert(t1[m] == z);
            }
            if t1.contains(z) {
                let k = choose|k: int| 0 <= k < t1.len() && t1[k] == z;
                assert(t[k] == z);
                assert(entry_order(t[k], t[t.len() - 1]) == Order::Less);
                assert(z != x);
                assert(t.contains(z));
                let m = choose|m: int| 0 <= m < s.len() && s[m] == z;
                assert(m != s.len() - 1);
                assert(s1[m] == z);
            }
        }
        lemma_strictly_sorted_unique(s1, t1);
        assert(s =~= s1.push(x));
        assert(t =~= t1.push(y));
    }
}

/// Options only filter: for a tree whose listings have distinct names, the
/// report under any options is the report under the default options with
/// the entries those options hide taken out, in the same order; no size
/// changes. `everything` and `listed` are the two reports' entries.
pub proof fn law_options_only_filter(
    listing: Listing,
    opts: ScanOptions,
    everything: Seq<EntryModel>,
    listed: Seq<EntryModel>,
)
    requires
        listing_names_distinct(listing),
        sorted(everything),
        same_classes(
            everything,
            walk_listing(
                listing,
                Seq::empty(),
                0,
                ScanOptions { include_files: true, include_dirs: true, max_depth: None },
            ).entries,
        ),
        sorted(listed),
        same_classes(listed, walk_listing(listing, Seq::empty(), 0, opts).entries),
    ensures
        listed == shown_by(everything, opts),
{
    let default = ScanOptions { include_files: true, include_dirs: true, max_depth: None };
    law_report_exact(listing, default, everything);
    law_report_exact(listing, opts, listed);
    lemma_shown_by(everything, opts);
    assert forall|x: EntryModel| #[trigger] listed.contains(x) <==> shown_by(everything, opts).contains(x) by {
        assert(listed.contains(x) <==> shown_node(node_in_listing(listing, x.path), x, Seq::empty(), 0, opts));
        assert(everything.contains(x) <==> shown_node(node_in_listing(listing, x.path), x, Seq::empty(), 0, default));
    }
    lemma_strictly_sorted_unique(listed, shown_by(everything, opts));
}

/// A root directory that cannot be listed gives no entries and exactly one
/// issue, at the root itself, with the reason. `listed` and `issues` are
/// the report's entries and issues as `scan` gives them.
pub proof fn law_unreadable_root(
    message: String,
    opts: ScanOptions,
    listed: Seq<EntryModel>,
    issues: Seq<crate::entry::IssueModel>,
)
    requires
        same_classes(
            listed,
            walk_listing(Listing::Unreadable { message }, Seq::empty(), 0, opts).entries,
        ),
        issues == walk_listing(Listing::Unreadable { message }, Seq::empty(), 0, opts).issues,
    ensures
        listed.len() == 0,
        issues == seq![crate::entry::IssueModel { path: Seq::empty(), message: message@ }],
{
    broadcast use vstd::seq_lib::group_to_multiset_ensures;

    let walked = walk_listing(Listing::Unreadable { message }, Seq::empty(), 0, opts).entries;
    law_same_classes_same_entries(listed, walked);
    assert(walked.len() == 0);
    assert(walked.to_multiset().len() == 0);
}

/// A read failure with message `msg` at path `p` below a directory: the
/// directory itself could not be listed, or one of its items could not be
/// read (at the directory), or an item's metadata could not be read (at
/// that item), or such a failure lies below a subdirectory.
pub open spec fn failure_in_listing(l: Listing, p: Seq<Seq<u8>>, msg: Seq<char>) -> bool
    decreases l,
{
    match l {
        Listing::Unreadable { message } => p.len() == 0 && msg == message@,
        Listing::Read { items } => failure_in_items(items@, p, msg),
    }
}

/// A read failure with message `msg` at path `p` among or below `items`.
pub open spec fn failure_in_items(items: Seq<DirItem>, p: Seq<Seq<u8>>, msg: Seq<char>) -> bool
    decreases items,
{
    if items.len() == 0 {
        false
    } else {
        failure_in_items(items.subrange(0, items.len() - 1), p, msg) || match items[items.len()
            - 1] {
            DirItem::ReadError { message } => p.len() == 0 && msg == message@,
            DirItem::MetadataError { name, message } => p == seq![name@] && msg == message@,
            DirItem::Directory { name, listing } => p.len() > 0 && p[0] == name@
                && failure_in_listing(listing, p.subrange(1, p.len() as int), msg),
            _ => false,
        }
    }
}

/// The issue `x` reports a failure below `dir` in the listing `l`.
pub open spec fn issue_in_listing(l: Listing, dir: Seq<Seq<u8>>, x: IssueModel) -> bool {
    &&& x.path.len() >= dir.len()
    &&& x.path.subrange(0, dir.len() as int) == dir
    &&& failure_in_listing(l, x.path.subrange(dir.len() as int, x.path.len() as int), x.message)
}

/// The issue `x` reports a failure below `dir` among `items`.
pub open spec fn issue_in_items(items: Seq<DirItem>, dir: Seq<Seq<u8>>, x: IssueModel) -> bool {
    &&& x.path.len() >= dir.len()
    &&& x.path.subrange(0, dir.len() as int) == dir
    &&& failure_in_items(items, x.path.subrange(dir.len() as int, x.path.len() as int), x.message)
}

/// The issues of a walk are exactly its read failures: each issue is a
/// failure at its path with its message, and each failure is reported.
pub proof fn law_issues_exact(l: Listing, dir: Seq<Seq<u8>>, depth: usize, opts: ScanOptions)
    ensures
        forall|t: int|
            0 <= t < walk_listing(l, dir, depth, opts).issues.len() ==> issue_in_listing(
                l,
                dir,
                #[trigger] walk_listing(l, dir, depth, opts).issues[t],
            ),
        forall|x: IssueModel|
            #[trigger] issue_in_listing(l, dir, x) ==> walk_listing(
                l,
                dir,
                depth,
                opts,
            ).issues.contains(x),
    decreases l,
{
    let issues = walk_listing(l, dir, depth, opts).issues;
    match l {
        Listing::Unreadable { message } => {
            let only = IssueModel { path: dir, message: message@ };
            assert(issues == seq![only]);
            assert(dir.subrange(0, dir.len() as int) =~= dir);
            assert(dir.subrange(dir.len() as int, dir.len() as int) =~= Seq::<Seq<u8>>::empty());
            assert forall|x: IssueModel| #[trigger] issue_in_listing(l, dir, x) implies issues.contains(x) by {
                assert(x.path =~= dir);
                assert(issues[0] == x);
            }
        },
        Listing::Read { items } => {
            assert(decreases_to!(l => l->items));
            law_item_issues_exact(items@, dir, depth, opts);
            assert(walk_listing(l, dir, depth, opts) == walk_items(items@, dir, depth, opts));
            assert forall|x: IssueModel| #[trigger] issue_in_listing(l, dir, x) == issue_in_items(items@, dir, x) by {}
        },
    }
}

/// The issues of a walk over some items are exactly their read failures.
pub proof fn law_item_issues_exact(items: Seq<DirItem>, dir: Seq<Seq<u8>>, depth: usize, opts: ScanOptions)
    ensures
        forall|t: int|
            0 <= t < walk_items(items, dir, depth, opts).issues.len() ==> issue_in_items(
                items,
                dir,
                #[trigger] walk_items(items, dir, depth, opts).issues[t],
            ),
        forall|x: IssueModel|
            #[trigger] issue_in_items(items, dir, x) ==> walk_items(
                items,
                dir,
                depth,
                opts,
            ).issues.contains(x),
    decreases items,
{
    if items.len() > 0 {
        let prefix = items.subrange(0, items.len() - 1);
        let w = walk_items(prefix, dir, depth, opts).issues;
        let all = walk_items(items, dir, depth, opts).issues;
        law_item_issues_exact(prefix, dir, depth, opts);
        assert forall|x: IssueModel| #[trigger] issue_in_items(prefix, dir, x) implies issue_in_items(items, dir, x) by {}
        assert(dir.subrange(0, dir.len() as int) =~= dir);
        assert(dir.subrange(dir.len() as int, dir.len() as int) =~= Seq::<Seq<u8>>::empty());
        match items[items.len() - 1] {
            DirItem::ReadError { message } => {
                let x0 = IssueModel { path: dir, message: message@ };
                assert(all == w.push(x0));
                assert forall|t: int| 0 <= t < all.len() implies issue_in_items(items, dir, #[trigger] all[t]) by {
                    if t < w.len() {
                        assert(all[t] == w[t]);
                        assert(issue_in_items(prefix, dir, w[t]));
                    }
                }
                assert forall|x: IssueModel| #[trigger] issue_in_items(items, dir, x) implies all.contains(x) by {
                    if issue_in_items(prefix, dir, x) {
                        let k = choose|k: int| 0 <= k < w.len() && w[k] == x;
                        assert(all[k] == x);
                    } else {
                        assert(x.path =~= dir);
                        assert(all[w.len() as int] == x);
                    }
                }
            },
            DirItem::MetadataError { name, message } => {
                let x0 = IssueModel { path: dir.push(name@), message: message@ };
                assert(all == w.push(x0));
                assert(dir.push(name@).subrange(0, dir.len() as int) =~= dir);
                assert(dir.push(name@).subrange(dir.len() as int, dir.len() + 1int) =~= seq![name@]);
                assert forall|t: int| 0 <= t < all.len() implies issue_in_items(items, dir, #[trigger] all[t]) by {
                    if t < w.len() {
                        assert(all[t] == w[t]);
                        assert(issue_in_items(prefix, dir, w[t]));
                    }
                }
                assert forall|x: IssueModel| #[trigger] issue_in_items(items, dir, x) implies all.contains(x) by {
                    if issue_in_items(prefix, dir, x) {
                        let k = choose|k: int| 0 <= k < w.len() && w[k] == x;
                        assert(all[k] == x);
                    } else {
                        let r = x.path.subrange(dir.len() as int, x.path.len() as int);
                        assert(r == seq![name@]);
                        assert(x.path =~= x.path.subrange(0, dir.len() as int) + r);
                        assert(x.path =~= dir.push(name@));
                        assert(all[w.len() as int] == x);
                    }
                }
            },
            DirItem::Directory { name, listing } => {
                assert(decreases_to!(items => items[items.len() - 1]));
                assert(decreases_to!(items[items.len() - 1] => items[items.len() - 1]->listing));
                let sub = dir.push(name@);
                let c = walk_listing(listing, sub, deeper(depth), opts).issues;
                law_issues_exact(listing, sub, deeper(depth), opts);
                assert(all == w + c);
                assert forall|t: int| 0 <= t < all.len() implies issue_in_items(items, dir, #[trigger] all[t]) by {
                    if t < w.len() {
                        assert(all[t] == w[t]);
                        assert(issue_in_items(prefix, dir, w[t]));
                    } else {
                        let x = c[t - w.len()];
                        assert(all[t] == x);
                        assert(issue_in_listing(listing, sub, x));
                        let r = x.path.subrange(dir.len() as int, x.path.len() as int);
                        assert(x.path.subrange(0, sub.len() as int).subrange(0, dir.len() as int) =~= x.path.subrange(0, dir.len() as int));
                        assert(x.path.subrange(0, sub.len() as int)[dir.len() as int] == x.path[dir.len() as int]);
                        assert(sub.subrange(0, dir.len() as int) =~= dir);
                        assert(x.path.subrange(0, dir.len() as int) == dir);
                        assert(r[0] == name@);
                        assert(r.subrange(1, r.len() as int) =~= x.path.subrange(sub.len() as int, x.path.len() as int));
                        assert(failure_in_listing(listing, r.subrange(1, r.len() as int), x.message));
                        assert(failure_in_items(items, r, x.message));
                    }
                }
                assert forall|x: IssueModel| #[trigger] issue_in_items(items, dir, x) implies all.contains(x) by {
                    if issue_in_items(prefix, dir, x) {
                        let k = choose|k: int| 0 <= k < w.len() && w[k] == x;
                        assert(all[k] == x);
                    } else {
                        let r = x.path.subrange(dir.len() as int, x.path.len() as int);
                        assert(r.len() > 0 && r[0] == name@);
                        assert(x.path.subrange(0, sub.len() as int) =~= sub);
                        assert(r.subrange(1, r.len() as int) =~= x.path.subrange(sub.len() as int, x.path.len() as int));
                        assert(issue_in_listing(listing, sub, x));
                        let k = choose|k: int| 0 <= k < c.len() && c[k] == x;
                        assert(all[w.len() + k] == x);
                    }
                }
            },
            _ => {
                assert(all == w);
                assert forall|x: IssueModel| #[trigger] issue_in_items(items, dir, x) == issue_in_items(prefix, dir, x) by {}
            },
        }
    }
}

} // verus!
