//! A stable merge sort of entries into listing order.
//!
//! A stable sort is pinned down by two facts: the result is sorted, and for
//! every sort key the entries with that key appear in the same order as in
//! the input (`same_classes`).
use vstd::prelude::*;
use crate::order::Order;
use crate::entry::{Entry, EntryModel, entry_models, entry_order, same_key, compare_entries, lemma_entry_flip, lemma_entry_equal, lemma_entry_trans};

verus! {

/// Entries are in listing order: no entry is followed by one that comes
/// before it.
pub open spec fn sorted(s: Seq<EntryModel>) -> bool {
    forall|i: int, j: int|
        0 <= i < j < s.len() ==> entry_order(#[trigger] s[i], #[trigger] s[j]) != Order::Greater
}

/// The entries of `s` that have the same sort key as `k`, in their order in `s`.
pub open spec fn class_of(s: Seq<EntryModel>, k: EntryModel) -> Seq<EntryModel>
    decreases s.len(),
{
    if s.len() == 0 {
        Seq::empty()
    } else {
        let rest = class_of(s.drop_last(), k);
        if same_key(s.last(), k) {
            rest.push(s.last())
        } else {
            rest
        }
    }
}

/// `s` and `t` hold, for every sort key, the same entries with that key in
/// the same order.
pub open spec fn same_classes(s: Seq<EntryModel>, t: Seq<EntryModel>) -> bool {
    forall|k: EntryModel| #[trigger] class_of(s, k) == class_of(t, k)
}

/// Appending one entry extends its class and leaves the others.
pub proof fn lemma_class_push(s: Seq<EntryModel>, x: EntryModel, k: EntryModel)
    ensures
        class_of(s.push(x), k) == (if same_key(x, k) {
            class_of(s, k).push(x)
        } else {
            class_of(s, k)
        }),
{
    assert(s.push(x).drop_last() =~= s);
}

/// The class of a concatenation is the concatenation of the classes.
pub proof fn lemma_class_concat(a: Seq<EntryModel>, b: Seq<EntryModel>, k: EntryModel)
    ensures
        class_of(a + b, k) == class_of(a, k) + class_of(b, k),
    decreases b.len(),
{
    if b.len() == 0 {
        assert(a + b =~= a);
        assert(class_of(a, k) + class_of(b, k) =~= class_of(a, k));
    } else {
        let c = b.drop_last();
        assert(b =~= c.push(b.last()));
        assert(a + b =~= (a + c).push(b.last()));
        lemma_class_concat(a, c, k);
        lemma_class_push(a + c, b.last(), k);
        lemma_class_push(c, b.last(), k);
        assert((class_of(a, k) + class_of(c, k)).push(b.last()) =~= class_of(a, k) + class_of(
            c,
            k,
        ).push(b.last()));
    }
}

/// A sequence with no entry of key `k` has an empty class for `k`.
pub proof fn lemma_class_none(s: Seq<EntryModel>, k: EntryModel)
    requires
        forall|t: int| 0 <= t < s.len() ==> !same_key(#[trigger] s[t], k),
    ensures
        class_of(s, k) == Seq::<EntryModel>::empty(),
    decreases s.len(),
{
    if s.len() > 0 {
        assert(!same_key(s[s.len() - 1], k));
        lemma_class_none(s.drop_last(), k);
    }
}

/// Reverses a vector by moving its elements.
fn reversed(v: Vec<Entry>) -> (r: Vec<Entry>)
    ensures
        r@.len() == v@.len(),
        forall|t: int| 0 <= t < v@.len() ==> #[trigger] r@[t] == v@[v@.len() - 1 - t],
{
    let ghost orig = v@;
    let mut v = v;
    let mut r: Vec<Entry> = Vec::new();
    while v.len() > 0
        invariant
            v@.len() + r@.len() == orig.len(),
            v@ == orig.subrange(0, v@.len() as int),
            forall|t: int| 0 <= t < r@.len() ==> #[trigger] r@[t] == orig[orig.len() - 1 - t],
        decreases v@.len(),
    {
        let x = v.pop().unwrap();
        r.push(x);
    }
    r
}

/// Merges two sorted vectors; on equal keys the entries of `a` come first.
fn merge(a: Vec<Entry>, b: Vec<Entry>) -> (out: Vec<Entry>)
    requires
        sorted(entry_models(a@)),
        sorted(entry_models(b@)),
    ensures
        sorted(entry_models(out@)),
        forall|k: EntryModel|
            #[trigger] class_of(entry_models(out@), k) == class_of(entry_models(a@), k) + class_of(
                entry_models(b@),
                k,
            ),
{
    let ghost sa = entry_models(a@);
    let ghost sb = entry_models(b@);
    let na = a.len();
    let nb = b.len();
    let mut ar = reversed(a);
    let mut br = reversed(b);
    let mut out: Vec<Entry> = Vec::new();
    let mut i: usize = 0;
    let mut j: usize = 0;
    assert(entry_models(out@) =~= Seq::<EntryModel>::empty());
    assert forall|k: EntryModel|
        #[trigger] class_of(entry_models(out@), k) == class_of(sa.take(i as int), k) + class_of(
            sb.take(j as int),
            k,
        ) by {
        assert(sa.take(0) =~= Seq::<EntryModel>::empty());
        assert(sb.take(0) =~= Seq::<EntryModel>::empty());
        assert(class_of(sa.take(0), k) + class_of(sb.take(0), k) =~= Seq::<EntryModel>::empty());
    }
    while ar.len() > 0 || br.len() > 0
        invariant
            sa.len() == na,
            sb.len() == nb,
            sorted(sa),
            sorted(sb),
            ar@.len() + i == na,
            br@.len() + j == nb,
            forall|t: int| 0 <= t < ar@.len() ==> (#[trigger] ar@[t])@ == sa[na - 1 - t],
            forall|t: int| 0 <= t < br@.len() ==> (#[trigger] br@[t])@ == sb[nb - 1 - t],
            sorted(entry_models(out@)),
            forall|k: EntryModel|
                #[trigger] class_of(entry_models(out@), k) == class_of(sa.take(i as int), k)
                    + class_of(sb.take(j as int), k),
            out@.len() > 0 && i < na ==> entry_order(out@.last()@, sa[i as int]) != Order::Greater,
            out@.len() > 0 && j < nb ==> entry_order(out@.last()@, sb[j as int]) != Order::Greater,
            j > 0 && i < na ==> entry_order(sb[j - 1], sa[i as int]) == Order::Less,
        decreases ar@.len() + br@.len(),
    {
        let ghost before = entry_models(out@);
        let take_b = if br.len() == 0 {
            false
        } else if ar.len() == 0 {
            true
        } else {
            compare_entries(&br[br.len() - 1], &ar[ar.len() - 1]) == Order::Less
        };
        if take_b {
            assert(br@[br@.len() - 1]@ == sb[j as int]);
            let x = br.pop().unwrap();
            out.push(x);
            proof {
                let xm = sb[j as int];
                assert(entry_models(out@) =~= before.push(xm));
                assert forall|p: int, q: int|
                    0 <= p < q < entry_models(out@).len() implies entry_order(
                    #[trigger] entry_models(out@)[p],
                    #[trigger] entry_models(out@)[q],
                ) != Order::Greater by {
                    if q == before.len() && p < before.len() - 1 {
                        lemma_entry_trans(before[p], before.last(), xm);
                    }
                }
                assert(sb.take(j + 1) =~= sb.take(j as int).push(xm));
                assert forall|k: EntryModel|
                    #[trigger] class_of(entry_models(out@), k) == class_of(sa.take(i as int), k)
                        + class_of(sb.take(j + 1), k) by {
                    lemma_class_push(before, xm, k);
                    lemma_class_push(sb.take(j as int), xm, k);
                    assert((class_of(sa.take(i as int), k) + class_of(sb.take(j as int), k)).push(
                        xm,
                    ) =~= class_of(sa.take(i as int), k) + class_of(sb.take(j as int), k).push(
                        xm,
                    ));
                }
                if j + 1 < nb {
                    assert(entry_order(sb[j as int], sb[j + 1]) != Order::Greater);
                }
            }
            j = j + 1;
        } else {
            assert(ar@[ar@.len() - 1]@ == sa[i as int]);
            let x = ar.pop().unwrap();
            out.push(x);
            proof {
                let xm = sa[i as int];
                assert(entry_models(out@) =~= before.push(xm));
                assert forall|p: int, q: int|
                    0 <= p < q < entry_models(out@).len() implies entry_order(
                    #[trigger] entry_models(out@)[p],
                    #[trigger] entry_models(out@)[q],
                ) != Order::Greater by {
                    if q == before.len() && p < before.len() - 1 {
                        lemma_entry_trans(before[p], before.last(), xm);
                    }
                }
                assert(sa.take(i + 1) =~= sa.take(i as int).push(xm));
                assert forall|k: EntryModel|
                    #[trigger] class_of(entry_models(out@), k) == class_of(sa.take(i + 1), k)
                        + class_of(sb.take(j as int), k) by {
                    lemma_class_push(before, xm, k);
                    lemma_class_push(sa.take(i as int), xm, k);
                    if same_key(xm, k) {
                        assert forall|t: int|
                            0 <= t < sb.take(j as int).len() implies !same_key(
                            #[trigger] sb.take(j as int)[t],
                            k,
                        ) by {
                            let y = sb[t];
                            if t < j - 1 {
                                assert(entry_order(y, sb[j - 1]) != Order::Greater);
                            } else {
                                lemma_entry_equal(y, y);
                            }
                            lemma_entry_trans(y, sb[j - 1], xm);
                            lemma_entry_equal(y, xm);
                        }
                        lemma_class_none(sb.take(j as int), k);
                        assert(class_of(sa.take(i as int), k).push(xm) + Seq::<EntryModel>::empty()
                            =~= class_of(sa.take(i as int), k).push(xm));
                        assert(class_of(sa.take(i as int), k) + Seq::<EntryModel>::empty()
                            =~= class_of(sa.take(i as int), k));
                    }
                }
                if j < nb {
                    lemma_entry_flip(sb[j as int], xm);
                }
                if i + 1 < na {
                    assert(entry_order(xm, sa[i + 1]) != Order::Greater);
                    if j > 0 {
                        lemma_entry_trans(sb[j - 1], xm, sa[i + 1]);
                    }
                }
            }
            i = i + 1;
        }
    }
    assert(sa.take(na as int) =~= sa);
    assert(sb.take(nb as int) =~= sb);
    out
}

/// Sorts entries into listing order, largest first and then by path; entries
/// with the same size and path keep their relative order.
pub fn sort_entries(v: Vec<Entry>) -> (out: Vec<Entry>)
    ensures
        sorted(entry_models(out@)),
        same_classes(entry_models(out@), entry_models(v@)),
    decreases v@.len(),
{
    let n = v.len();
    if n <= 1 {
        return v;
    }
    let mut left = v;
    let ghost whole = entry_models(left@);
    let right = left.split_off(n / 2);
    let ghost l0 = entry_models(left@);
    let ghost r0 = entry_models(right@);
    assert(whole =~= l0 + r0);
    let ls = sort_entries(left);
    let rs = sort_entries(right);
    let out = merge(ls, rs);
    assert forall|k: EntryModel|
        #[trigger] class_of(entry_models(out@), k) == class_of(whole, k) by {
        lemma_class_concat(l0, r0, k);
        assert(class_of(entry_models(ls@), k) == class_of(l0, k));
        assert(class_of(entry_models(rs@), k) == class_of(r0, k));
    }
    out
}

} // verus!
