//! Lexicographic order on byte strings and on paths made of byte-string
//! components, as the component-wise path comparison orders them.
use vstd::prelude::*;

verus! {

/// The outcome of a three-way comparison.
#[derive(Debug, Clone, Copy, PartialEq, Eq, Structural)]
pub enum Order {
    Less,
    Equal,
    Greater,
}

/// The reverse of a comparison outcome.
pub open spec fn flip(o: Order) -> Order {
    match o {
        Order::Less => Order::Greater,
        Order::Equal => Order::Equal,
        Order::Greater => Order::Less,
    }
}

/// Lexicographic comparison of `a` and `b` from position `i` on, where a
/// proper prefix comes first.
pub open spec fn bytes_order_from(a: Seq<u8>, b: Seq<u8>, i: nat) -> Order
    decreases a.len() - i,
{
    if a.len() <= i {
        if b.len() <= i {
            Order::Equal
        } else {
            Order::Less
        }
    } else if b.len() <= i {
        Order::Greater
    } else if a[i as int] < b[i as int] {
        Order::Less
    } else if a[i as int] > b[i as int] {
        Order::Greater
    } else {
        bytes_order_from(a, b, i + 1)
    }
}

/// Lexicographic order of two byte strings.
pub open spec fn bytes_order(a: Seq<u8>, b: Seq<u8>) -> Order {
    bytes_order_from(a, b, 0)
}

/// Lexicographic comparison of two paths component by component, from
/// component `i` on; components are compared as byte strings.
pub open spec fn path_order_from(p: Seq<Seq<u8>>, q: Seq<Seq<u8>>, i: nat) -> Order
    decreases p.len() - i,
{
    if p.len() <= i {
        if q.len() <= i {
            Order::Equal
        } else {
            Order::Less
        }
    } else if q.len() <= i {
        Order::Greater
    } else if bytes_order(p[i as int], q[i as int]) != Order::Equal {
        bytes_order(p[i as int], q[i as int])
    } else {
        path_order_from(p, q, i + 1)
    }
}

/// The order of two paths given as their components.
pub open spec fn path_order(p: Seq<Seq<u8>>, q: Seq<Seq<u8>>) -> Order {
    path_order_from(p, q, 0)
}

/// The components of a path as byte strings.
pub open spec fn path_view(p: Seq<Vec<u8>>) -> Seq<Seq<u8>> {
    p.map_values(|c: Vec<u8>| c@)
}

proof fn lemma_bytes_from_flip(a: Seq<u8>, b: Seq<u8>, i: nat)
    ensures
        bytes_order_from(b, a, i) == flip(bytes_order_from(a, b, i)),
    decreases a.len() - i,
{
    if i < a.len() && i < b.len() && a[i as int] == b[i as int] {
        lemma_bytes_from_flip(a, b, i + 1);
    }
}

proof fn lemma_bytes_from_equal(a: Seq<u8>, b: Seq<u8>, i: nat)
    requires
        i <= a.len(),
        i <= b.len(),
        a.subrange(0, i as int) == b.subrange(0, i as int),
    ensures
        bytes_order_from(a, b, i) == Order::Equal <==> a == b,
    decreases a.len() - i,
{
    if i < a.len() && i < b.len() && a[i as int] == b[i as int] {
        assert(a.subrange(0, i + 1int) =~= a.subrange(0, i as int).push(a[i as int]));
        assert(b.subrange(0, i + 1int) =~= b.subrange(0, i as int).push(b[i as int]));
        lemma_bytes_from_equal(a, b, (i + 1) as nat);
    } else if a.len() <= i && b.len() <= i {
        assert(a =~= a.subrange(0, i as int));
        assert(b =~= b.subrange(0, i as int));
    } else {
        if a == b {
            assert(a[i as int] == b[i as int]);
        }
    }
}

proof fn lemma_bytes_from_trans(a: Seq<u8>, b: Seq<u8>, c: Seq<u8>, i: nat)
    requires
        bytes_order_from(a, b, i) == Order::Less,
        bytes_order_from(b, c, i) == Order::Less,
    ensures
        bytes_order_from(a, c, i) == Order::Less,
    decreases a.len() - i,
{
    if i < a.len() && i < b.len() && i < c.len() && a[i as int] == b[i as int] && b[i as int]
        == c[i as int] {
        lemma_bytes_from_trans(a, b, c, i + 1);
    }
}

/// Byte-string order: swapping the arguments flips the outcome.
pub proof fn lemma_bytes_flip(a: Seq<u8>, b: Seq<u8>)
    ensures
        bytes_order(b, a) == flip(bytes_order(a, b)),
{
    lemma_bytes_from_flip(a, b, 0);
}

/// Byte-string order: `Equal` exactly on equal strings.
pub proof fn lemma_bytes_equal(a: Seq<u8>, b: Seq<u8>)
    ensures
        bytes_order(a, b) == Order::Equal <==> a == b,
{
    assert(a.subrange(0, 0) =~= b.subrange(0, 0));
    lemma_bytes_from_equal(a, b, 0);
}

/// Byte-string order is transitive.
pub proof fn lemma_bytes_trans(a: Seq<u8>, b: Seq<u8>, c: Seq<u8>)
    requires
        bytes_order(a, b) == Order::Less,
        bytes_order(b, c) == Order::Less,
    ensures
        bytes_order(a, c) == Order::Less,
{
    lemma_bytes_from_trans(a, b, c, 0);
}

proof fn lemma_path_from_flip(p: Seq<Seq<u8>>, q: Seq<Seq<u8>>, i: nat)
    ensures
        path_order_from(q, p, i) == flip(path_order_from(p, q, i)),
    decreases p.len() - i,
{
    if i < p.len() && i < q.len() {
        lemma_bytes_flip(p[i as int], q[i as int]);
        if bytes_order(p[i as int], q[i as int]) == Order::Equal {
            lemma_path_from_flip(p, q, i + 1);
        }
    }
}

proof fn lemma_path_from_equal(p: Seq<Seq<u8>>, q: Seq<Seq<u8>>, i: nat)
    requires
        i <= p.len(),
        i <= q.len(),
        p.subrange(0, i as int) == q.subrange(0, i as int),
    ensures
        path_order_from(p, q, i) == Order::Equal <==> p == q,
    decreases p.len() - i,
{
    if i < p.len() && i < q.len() {
        lemma_bytes_equal(p[i as int], q[i as int]);
        if p[i as int] == q[i as int] {
            assert(p.subrange(0, i + 1int) =~= p.subrange(0, i as int).push(p[i as int]));
            assert(q.subrange(0, i + 1int) =~= q.subrange(0, i as int).push(q[i as int]));
            lemma_path_from_equal(p, q, (i + 1) as nat);
        } else {
            if p == q {
                assert(p[i as int] == q[i as int]);
            }
        }
    } else if p.len() <= i && q.len() <= i {
        assert(p =~= p.subrange(0, i as int));
        assert(q =~= q.subrange(0, i as int));
    } else {
        if p == q {
            assert(p.len() == q.len());
        }
    }
}

proof fn lemma_path_from_trans(p: Seq<Seq<u8>>, q: Seq<Seq<u8>>, r: Seq<Seq<u8>>, i: nat)
    requires
        path_order_from(p, q, i) == Order::Less,
        path_order_from(q, r, i) == Order::Less,
    ensures
        path_order_from(p, r, i) == Order::Less,
    decreases p.len() - i,
{
    if i < p.len() && i < q.len() && i < r.len() {
        let (x, y, z) = (p[i as int], q[i as int], r[i as int]);
        lemma_bytes_equal(x, y);
        lemma_bytes_equal(y, z);
        lemma_bytes_equal(x, z);
        if bytes_order(x, y) == Order::Equal && bytes_order(y, z) == Order::Equal {
            lemma_path_from_trans(p, q, r, i + 1);
        } else if bytes_order(x, y) == Order::Less && bytes_order(y, z) == Order::Less {
            lemma_bytes_trans(x, y, z);
        }
    }
}

/// Path order: swapping the arguments flips the outcome.
pub proof fn lemma_path_flip(p: Seq<Seq<u8>>, q: Seq<Seq<u8>>)
    ensures
        path_order(q, p) == flip(path_order(p, q)),
{
    lemma_path_from_flip(p, q, 0);
}

/// Path order: `Equal` exactly on equal paths.
pub proof fn lemma_path_equal(p: Seq<Seq<u8>>, q: Seq<Seq<u8>>)
    ensures
        path_order(p, q) == Order::Equal <==> p == q,
{
    assert(p.subrange(0, 0) =~= q.subrange(0, 0));
    lemma_path_from_equal(p, q, 0);
}

/// Path order is transitive.
pub proof fn lemma_path_trans(p: Seq<Seq<u8>>, q: Seq<Seq<u8>>, r: Seq<Seq<u8>>)
    requires
        path_order(p, q) == Order::Less,
        path_order(q, r) == Order::Less,
    ensures
        path_order(p, r) == Order::Less,
{
    lemma_path_from_trans(p, q, r, 0);
}

/// Compares two byte strings lexicographically.
pub fn compare_bytes(a: &Vec<u8>, b: &Vec<u8>) -> (o: Order)
    ensures
        o == bytes_order(a@, b@),
{
    let mut i: usize = 0;
    while i < a.len() && i < b.len()
        invariant
            i <= a@.len(),
            i <= b@.len(),
            bytes_order(a@, b@) == bytes_order_from(a@, b@, i as nat),
        decreases a@.len() - i,
    {
        if a[i] < b[i] {
            return Order::Less;
        }
        if a[i] > b[i] {
            return Order::Greater;
        }
        i = i + 1;
    }
    if i < a.len() {
        Order::Greater
    } else if i < b.len() {
        Order::Less
    } else {
        Order::Equal
    }
}

/// Compares two paths component by component.
pub fn compare_paths(p: &Vec<Vec<u8>>, q: &Vec<Vec<u8>>) -> (o: Order)
    ensures
        o == path_order(path_view(p@), path_view(q@)),
{
    let ghost pv = path_view(p@);
    let ghost qv = path_view(q@);
    let mut i: usize = 0;
    while i < p.len() && i < q.len()
        invariant
            i <= p@.len(),
            i <= q@.len(),
            pv == path_view(p@),
            qv == path_view(q@),
            path_order(pv, qv) == path_order_from(pv, qv, i as nat),
        decreases p@.len() - i,
    {
        let o = compare_bytes(&p[i], &q[i]);
        if o != Order::Equal {
            return o;
        }
        i = i + 1;
    }
    if i < p.len() {
        Order::Greater
    } else if i < q.len() {
        Order::Less
    } else {
        Order::Equal
    }
}

/// `a` comes before `b` at position `k`: they agree before `k`, and there
/// `a` ends while `b` goes on, or `a` has the smaller byte.
pub open spec fn bytes_differ_at(a: Seq<u8>, b: Seq<u8>, k: int) -> bool {
    &&& 0 <= k <= a.len()
    &&& k <= b.len()
    &&& a.subrange(0, k) == b.subrange(0, k)
    &&& ((k == a.len() && k < b.len()) || (k < a.len() && k < b.len() && a[k] < b[k]))
}

/// `a` comes before `b` in dictionary order of bytes.
pub open spec fn bytes_before(a: Seq<u8>, b: Seq<u8>) -> bool {
    exists|k: int| #[trigger] bytes_differ_at(a, b, k)
}

/// `p` comes before `q` at component `k`: they agree before `k`, and there
/// `p` ends while `q` goes on, or `p`'s component comes first.
pub open spec fn path_differs_at(p: Seq<Seq<u8>>, q: Seq<Seq<u8>>, k: int) -> bool {
    &&& 0 <= k <= p.len()
    &&& k <= q.len()
    &&& p.subrange(0, k) == q.subrange(0, k)
    &&& ((k == p.len() && k < q.len()) || (k < p.len() && k < q.len() && bytes_before(p[k], q[k])))
}

/// `p` comes before `q` in dictionary order of components.
pub open spec fn path_before(p: Seq<Seq<u8>>, q: Seq<Seq<u8>>) -> bool {
    exists|k: int| #[trigger] path_differs_at(p, q, k)
}

proof fn lemma_bytes_before_from(a: Seq<u8>, b: Seq<u8>, i: nat)
    requires
        i <= a.len(),
        i <= b.len(),
        a.subrange(0, i as int) == b.subrange(0, i as int),
    ensures
        bytes_order_from(a, b, i) == Order::Less <==> exists|k: int|
            i <= k && #[trigger] bytes_differ_at(a, b, k),
    decreases a.len() - i,
{
    if a.len() <= i {
        if i < b.len() {
            assert(bytes_differ_at(a, b, i as int));
        }
    } else if b.len() <= i {
    } else if a[i as int] < b[i as int] {
        assert(bytes_differ_at(a, b, i as int));
    } else {
        if exists|k: int| i <= k && #[trigger] bytes_differ_at(a, b, k) {
            let k = choose|k: int| i <= k && #[trigger] bytes_differ_at(a, b, k);
            if k > i {
                assert(a.subrange(0, k)[i as int] == b.subrange(0, k)[i as int]);
            }
        }
        if a[i as int] == b[i as int] {
            assert(a.subrange(0, i + 1int) =~= a.subrange(0, i as int).push(a[i as int]));
            assert(b.subrange(0, i + 1int) =~= b.subrange(0, i as int).push(b[i as int]));
            lemma_bytes_before_from(a, b, (i + 1) as nat);
            if exists|k: int| i <= k && #[trigger] bytes_differ_at(a, b, k) {
                let k = choose|k: int| i <= k && #[trigger] bytes_differ_at(a, b, k);
                assert(k != i);
            }
        }
    }
}

/// Byte strings are ordered as in a dictionary: one comes first exactly
/// when it is a proper prefix of the other or has the smaller byte at the
/// first difference, they are equal exactly when identical, and otherwise
/// the other comes first.
pub proof fn law_bytes_order(a: Seq<u8>, b: Seq<u8>)
    ensures
        bytes_order(a, b) == Order::Less <==> bytes_before(a, b),
        bytes_order(a, b) == Order::Equal <==> a == b,
        bytes_order(a, b) == Order::Greater <==> bytes_before(b, a),
{
    assert(a.subrange(0, 0) =~= b.subrange(0, 0));
    lemma_bytes_before_from(a, b, 0);
    lemma_bytes_before_from(b, a, 0);
    lemma_bytes_equal(a, b);
    lemma_bytes_flip(a, b);
}

proof fn lemma_path_before_from(p: Seq<Seq<u8>>, q: Seq<Seq<u8>>, i: nat)
    requires
        i <= p.len(),
        i <= q.len(),
        p.subrange(0, i as int) == q.subrange(0, i as int),
    ensures
        path_order_from(p, q, i) == Order::Less <==> exists|k: int|
            i <= k && #[trigger] path_differs_at(p, q, k),
    decreases p.len() - i,
{
    if p.len() <= i {
        if i < q.len() {
            assert(path_differs_at(p, q, i as int));
        }
    } else if q.len() <= i {
    } else {
        law_bytes_order(p[i as int], q[i as int]);
        if bytes_order(p[i as int], q[i as int]) == Order::Less {
            assert(path_differs_at(p, q, i as int));
        } else {
            if exists|k: int| i <= k && #[trigger] path_differs_at(p, q, k) {
                let k = choose|k: int| i <= k && #[trigger] path_differs_at(p, q, k);
                if k > i {
                    assert(p.subrange(0, k)[i as int] == q.subrange(0, k)[i as int]);
                }
            }
            if p[i as int] == q[i as int] {
                assert(p.subrange(0, i + 1int) =~= p.subrange(0, i as int).push(p[i as int]));
                assert(q.subrange(0, i + 1int) =~= q.subrange(0, i as int).push(q[i as int]));
                lemma_path_before_from(p, q, (i + 1) as nat);
                if exists|k: int| i <= k && #[trigger] path_differs_at(p, q, k) {
                    let k = choose|k: int| i <= k && #[trigger] path_differs_at(p, q, k);
                    assert(k != i);
                }
            }
        }
    }
}

/// Paths are ordered as in a dictionary of components: one comes first
/// exactly when it is a proper prefix of the other or has the earlier
/// component at the first difference, they are equal exactly when
/// identical, and otherwise the other comes first.
pub proof fn law_path_order(p: Seq<Seq<u8>>, q: Seq<Seq<u8>>)
    ensures
        path_order(p, q) == Order::Less <==> path_before(p, q),
        path_order(p, q) == Order::Equal <==> p == q,
        path_order(p, q) == Order::Greater <==> path_before(q, p),
{
    assert(p.subrange(0, 0) =~= q.subrange(0, 0));
    lemma_path_before_from(p, q, 0);
    lemma_path_before_from(q, p, 0);
    lemma_path_equal(p, q);
    lemma_path_flip(p, q);
}

} // verus!
