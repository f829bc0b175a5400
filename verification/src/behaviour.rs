//! What the operations are for, stated over their inputs and results in
//! plain terms: the listing order in sizes, the depth limit as a plain
//! comparison, the path argument kept as given, numbers read in base ten,
//! and the unit a size is shown in.
use vstd::prelude::*;
use crate::order::{Order, path_order, path_before, law_path_order};
use crate::entry::{EntryModel, visible, entry_order};
use crate::sort::sorted;
use crate::tree::deeper;
use crate::laws::{depth_below, strictly_sorted};
use crate::display::MAX_WARNINGS_TO_PRINT;
use crate::cli::{DEFAULT_LIMIT, ArgState, CliModel, parse_from, initial_state, parsed_usize, unsigned_digits, all_digits, is_digit, digits_value, positive_outcome, non_negative_outcome};
use crate::text::{decimal, digit_char};
use crate::size::{size_text, nearest_float, unit_index, round_half_even, kib_to, unit_name, law_unit_fits, law_large_sizes_use_units};

verus! {

/// A sorted listing is largest first: sizes never increase along it, and
/// entries of equal size come in path order.
pub proof fn law_sorted_is_largest_first(s: Seq<EntryModel>)
    requires
        sorted(s),
    ensures
        forall|i: int, j: int|
            0 <= i < j < s.len() ==> (#[trigger] s[i]).size >= (#[trigger] s[j]).size,
        forall|i: int, j: int|
            0 <= i < j < s.len() && (#[trigger] s[i]).size == (#[trigger] s[j]).size ==> path_order(
                s[i].path,
                s[j].path,
            ) != Order::Greater && !path_before(s[j].path, s[i].path),
{
    assert forall|i: int, j: int| 0 <= i < j < s.len() implies (#[trigger] s[i]).size >= (
    #[trigger] s[j]).size by {
        assert(entry_order(s[i], s[j]) != Order::Greater);
    }
    assert forall|i: int, j: int|
        0 <= i < j < s.len() && (#[trigger] s[i]).size == (#[trigger] s[j]).size implies path_order(
        s[i].path,
        s[j].path,
    ) != Order::Greater && !path_before(s[j].path, s[i].path) by {
        assert(entry_order(s[i], s[j]) != Order::Greater);
        law_path_order(s[i].path, s[j].path);
    }
}

/// A strictly sorted listing (as a report of a tree with distinct names
/// is) puts every entry before the next by size, larger first, or on equal
/// size by path in dictionary order of components.
pub proof fn law_strict_listing(s: Seq<EntryModel>)
    requires
        strictly_sorted(s),
    ensures
        forall|i: int, j: int|
            0 <= i < j < s.len() ==> (#[trigger] s[i]).size > (#[trigger] s[j]).size || (s[i].size
                == s[j].size && path_before(s[i].path, s[j].path)),
{
    assert forall|i: int, j: int| 0 <= i < j < s.len() implies (#[trigger] s[i]).size > (
    #[trigger] s[j]).size || (s[i].size == s[j].size && path_before(s[i].path, s[j].path)) by {
        assert(entry_order(s[i], s[j]) == Order::Less);
        law_path_order(s[i].path, s[j].path);
    }
}

/// The depth limit is a plain comparison: without a limit every depth is
/// shown, with limit `m` exactly the depths up to `m`.
pub proof fn law_depth_limit(depth: usize, limit: usize)
    ensures
        visible(depth, None),
        visible(depth, Some(limit)) <==> depth <= limit,
{
}

/// An argument that does not begin with '-', so is no option.
pub open spec fn plain_argument(a: Seq<char>) -> bool {
    !(a.len() > 0 && a[0] == '-')
}

/// The last argument from position `i` on that is neither an option nor
/// the value after `--limit` or `--depth`; `found` if there is none.
pub open spec fn lone_argument_from(args: Seq<Seq<char>>, i: nat, found: Option<Seq<char>>) -> Option<Seq<char>>
    decreases args.len() - i,
{
    if args.len() <= i {
        found
    } else if !plain_argument(args[i as int]) || (i > 0 && (args[i - 1] == "--limit"@ || args[i - 1]
        == "--depth"@)) {
        lone_argument_from(args, i + 1, found)
    } else {
        lone_argument_from(args, i + 1, Some(args[i as int]))
    }
}

/// A text that reads as a number is not an option's name.
proof fn lemma_number_is_plain(v: Seq<char>)
    requires
        parsed_usize(v) is Some,
    ensures
        plain_argument(v),
        v != "--limit"@,
        v != "--depth"@,
{
    reveal_strlit("--limit");
    reveal_strlit("--depth");
    let d = unsigned_digits(v);
    assert(all_digits(d) && d.len() > 0);
    assert(is_digit(d[0]));
    if !(v.len() > 0 && v[0] == '+') {
        assert(d == v);
    }
    assert(v.len() > 0);
    assert("--limit"@[0] == '-');
    assert("--depth"@[0] == '-');
}

proof fn lemma_path_from(args: Seq<Seq<char>>, i: nat, st: ArgState)
    requires
        i == 0 || (args[i - 1] != "--limit"@ && args[i - 1] != "--depth"@),
        i <= args.len(),
    ensures
        parse_from(args, i, st) matches Ok(cli) ==> cli.path == (match lone_argument_from(
            args,
            i,
            st.path,
        ) {
            Some(p) => p,
            None => "."@,
        }),
    decreases args.len() - i,
{
    reveal_strlit("--files");
    reveal_strlit("--dirs");
    reveal_strlit("--limit");
    reveal_strlit("--depth");
    assert("--files"@[0] == '-' && "--dirs"@[0] == '-' && "--limit"@[0] == '-' && "--depth"@[0]
        == '-');
    assert("--files"@ != "--limit"@ && "--files"@ != "--depth"@) by {
        assert("--files"@[2] != "--limit"@[2]);
        assert("--files"@[2] != "--depth"@[2]);
    }
    assert("--dirs"@ != "--limit"@ && "--dirs"@ != "--depth"@) by {
        assert("--dirs"@.len() != "--limit"@.len());
        assert("--dirs"@.len() != "--depth"@.len());
    }
    if i < args.len() {
        let a = args[i as int];
        if a == "-h"@ || a == "--help"@ {
        } else if a == "--version"@ {
        } else if a == "--files"@ {
            lemma_path_from(args, i + 1, ArgState { files: true, ..st });
        } else if a == "--dirs"@ {
            lemma_path_from(args, i + 1, ArgState { dirs: true, ..st });
        } else if a == "--limit"@ {
            if i + 1 < args.len() {
                let v = args[i + 1int];
                if let Ok(n) = positive_outcome("--limit"@, v) {
                    lemma_number_is_plain(v);
                    assert(lone_argument_from(args, i + 1, st.path) == lone_argument_from(
                        args,
                        (i + 2) as nat,
                        st.path,
                    ));
                    lemma_path_from(args, (i + 2) as nat, ArgState { limit: n, ..st });
                }
            }
        } else if a == "--depth"@ {
            if i + 1 < args.len() {
                let v = args[i + 1int];
                if let Ok(n) = non_negative_outcome("--depth"@, v) {
                    lemma_number_is_plain(v);
                    assert(lone_argument_from(args, i + 1, st.path) == lone_argument_from(
                        args,
                        (i + 2) as nat,
                        st.path,
                    ));
                    lemma_path_from(args, (i + 2) as nat, ArgState { max_depth: Some(n), ..st });
                }
            }
        } else if a.len() > 0 && a[0] == '-' {
        } else if st.path is Some {
        } else {
            lemma_path_from(args, i + 1, ArgState { path: Some(a), ..st });
        }
    }
}

/// The path to scan is kept exactly as given: when parsing succeeds it is
/// the one argument that is neither an option nor an option's value,
/// character for character, or "." when there is none.
pub proof fn law_path_is_the_lone_argument(args: Seq<Seq<char>>)
    ensures
        parse_from(args, 0, initial_state()) matches Ok(cli) ==> cli.path == (
        match lone_argument_from(args, 0, None) {
            Some(p) => p,
            None => "."@,
        }),
{
    lemma_path_from(args, 0, initial_state());
}

/// The decimal notation of `n` is all digits, and its digits denote `n`.
proof fn lemma_decimal_digits(n: nat)
    ensures
        all_digits(decimal(n)),
        decimal(n).len() > 0,
        digits_value(decimal(n)) == n,
        decimal(n)[0] != '+',
    decreases n,
{
    if n >= 10 {
        lemma_decimal_digits(n / 10);
        let d = decimal(n / 10);
        let c = digit_char(n % 10);
        assert(decimal(n) == d.push(c));
        assert(d.push(c).drop_last() =~= d);
        assert(forall|i: int| 0 <= i < d.len() ==> d.push(c)[i] == d[i]);
        assert(c as nat - '0' as nat == n % 10);
        assert(d.push(c).last() == c);
        assert(digits_value(d.push(c)) == digits_value(d) * 10 + (c as nat - '0' as nat) as nat);
        assert((n / 10) * 10 + n % 10 == n);
    } else {
        let one = seq![digit_char(n)];
        assert(digit_char(n) as nat - '0' as nat == n);
        assert(one.drop_last() =~= Seq::<char>::empty());
        assert(one.last() == digit_char(n));
        assert(digits_value(one) == digits_value(one.drop_last()) * 10 + (one.last() as nat - '0' as nat) as nat);
        assert(digits_value(Seq::<char>::empty()) == 0);
    }
}

/// Numbers are read in base ten: a single digit `c` reads as its code
/// minus 48, appending a digit `c` to a text that reads as `v` gives
/// `10 * v` plus that digit, and the decimal notation of any `n` that fits
/// reads back as `n`, with or without a leading '+'.
pub proof fn law_numbers_read_in_base_ten(s: Seq<char>, v: usize, c: char, n: nat)
    ensures
        '0' <= c <= '9' ==> parsed_usize(seq![c]) == Some((c as int - 48) as usize),
        '0' <= c <= '9' && s.len() > 0 && s[0] != '+' && parsed_usize(s) == Some(v) && 10 * v + (
        c as int - 48) <= usize::MAX ==> parsed_usize(s.push(c)) == Some(
            (10 * v + (c as int - 48)) as usize,
        ),
        n <= usize::MAX ==> parsed_usize(decimal(n)) == Some(n as usize),
        n <= usize::MAX ==> parsed_usize(seq!['+'] + decimal(n)) == Some(n as usize),
{
    assert('0' as int == 48);
    if '0' <= c <= '9' {
        let one = seq![c];
        assert(unsigned_digits(one) == one);
        assert(one.drop_last() =~= Seq::<char>::empty());
        assert(one.last() == c);
        assert(digits_value(one) == digits_value(one.drop_last()) * 10 + (c as nat - '0' as nat) as nat);
        assert(digits_value(Seq::<char>::empty()) == 0);
        assert(digits_value(one) == c as int - 48);
        assert(all_digits(one));
        if s.len() > 0 && s[0] != '+' && parsed_usize(s) == Some(v) {
            let t = s.push(c);
            assert(unsigned_digits(s) == s);
            assert(t[0] == s[0]);
            assert(unsigned_digits(t) == t);
            assert(t.drop_last() =~= s);
            assert(all_digits(t)) by {
                assert forall|i: int| 0 <= i < t.len() implies is_digit(#[trigger] t[i]) by {
                    if i < s.len() {
                        assert(t[i] == s[i]);
                    }
                }
            }
        }
    }
    lemma_decimal_digits(n);
    let p = seq!['+'] + decimal(n);
    assert(p.drop_first() =~= decimal(n));
}

/// `bytes` is shown in unit `k` as `tenths` tenths: `k` is the largest
/// unit, from KiB up to TiB, that the float value of `bytes` reaches,
/// `tenths` is that value divided by the unit, times ten, rounded to a
/// nearest integer, and the text is those tenths, a space and the unit's
/// name.
pub open spec fn shown_as(bytes: u64, k: nat, tenths: nat) -> bool {
    let m = nearest_float(bytes as nat);
    &&& 1 <= k <= 4
    &&& kib_to(k) <= m
    &&& (k == 4 || m < kib_to(k + 1))
    &&& 2 * tenths * kib_to(k) <= 20 * m + kib_to(k)
    &&& 20 * m <= 2 * tenths * kib_to(k) + kib_to(k)
    &&& size_text(bytes) == decimal(tenths / 10) + "."@ + decimal(tenths % 10) + " "@ + unit_name(k)
}

/// A size of at least 1 KiB is shown in the largest unit, up to TiB, that
/// its float value reaches, as that value divided by the unit and rounded
/// to the nearest tenth; the unit named is that unit and nothing else.
pub proof fn law_size_unit(bytes: u64)
    requires
        bytes >= 1024,
    ensures
        exists|k: nat, tenths: nat| #[trigger] shown_as(bytes, k, tenths),
{
    let m = nearest_float(bytes as nat);
    let k = unit_index(m, 0);
    law_large_sizes_use_units(bytes);
    reveal_with_fuel(kib_to, 2);
    law_unit_fits(m, 0);
    lemma_kib_positive(k);
    let d = kib_to(k);
    let x = 10 * m;
    let t = round_half_even(x, d);
    let q = x / d;
    let r = x % d;
    vstd::arithmetic::div_mod::lemma_fundamental_div_mod(x as int, d as int);
    assert(x == d * q + r);
    assert(0 <= r < d);
    if t == q {
        assert(2 * r <= d);
        assert(2 * t * d <= 20 * m + d) by (nonlinear_arith)
            requires
                x == d * q + r,
                t == q,
                x == 10 * m,
                r >= 0,
        ;
        assert(20 * m <= 2 * t * d + d) by (nonlinear_arith)
            requires
                x == d * q + r,
                t == q,
                x == 10 * m,
                2 * r <= d,
        ;
    } else {
        assert(t == q + 1);
        assert(2 * r >= d);
        assert(2 * t * d <= 20 * m + d) by (nonlinear_arith)
            requires
                x == d * q + r,
                t == q + 1,
                x == 10 * m,
                2 * r >= d,
        ;
        assert(20 * m <= 2 * t * d + d) by (nonlinear_arith)
            requires
                x == d * q + r,
                t == q + 1,
                x == 10 * m,
                r < d,
        ;
    }
    assert(size_text(bytes) == decimal(t / 10) + "."@ + decimal(t % 10) + " "@ + unit_name(k));
    assert(shown_as(bytes, k, t));
}

/// Every unit is positive.
proof fn lemma_kib_positive(k: nat)
    ensures
        kib_to(k) >= 1,
    decreases k,
{
    if k > 0 {
        lemma_kib_positive((k - 1) as nat);
    }
}

/// The units are the powers of 1024: B, KiB, MiB, GiB and TiB, each 1024
/// times the one before.
pub proof fn law_units_are_powers_of_1024(k: nat)
    ensures
        kib_to(0) == 1,
        kib_to(k + 1) == 1024 * kib_to(k),
        unit_name(0) == "B"@,
        unit_name(1) == "KiB"@,
        unit_name(2) == "MiB"@,
        unit_name(3) == "GiB"@,
        unit_name(4) == "TiB"@,
{
}

/// The defaults: twenty entries are shown, and ten warnings printed.
pub proof fn law_defaults()
    ensures
        DEFAULT_LIMIT == 20,
        MAX_WARNINGS_TO_PRINT == 10,
{
}

/// Depth counts levels: a child is one level deeper, and `n` levels below
/// the root is depth `n` (stopping at `usize::MAX`).
pub proof fn law_depth_counts_levels(depth: usize, n: nat)
    ensures
        depth < usize::MAX ==> deeper(depth) == depth + 1,
        n <= usize::MAX ==> depth_below(0, n) == n,
        depth + n <= usize::MAX ==> depth_below(depth, n) == depth + n,
{
}

/// Only an optional '+' and then decimal digits read as a number: a text
/// that reads as one is not empty, and every character after a leading '+'
/// is a digit from '0' to '9'; a text beginning with '-' never reads.
pub proof fn law_number_texts(s: Seq<char>)
    ensures
        parsed_usize(s) is Some ==> s.len() > 0 && (forall|i: int|
            0 <= i < s.len() && !(i == 0 && s[0] == '+') ==> '0' <= #[trigger] s[i] <= '9') && !(
        s.len() == 1 && s[0] == '+'),
        s.len() > 0 && s[0] == '-' ==> parsed_usize(s) is None,
{
    if parsed_usize(s) is Some {
        let d = unsigned_digits(s);
        assert(all_digits(d));
        assert forall|i: int| 0 <= i < s.len() && !(i == 0 && s[0] == '+') implies '0' <= #[trigger] s[i]
            <= '9' by {
            if s.len() > 0 && s[0] == '+' {
                assert(s[i] == d[i - 1]);
            } else {
                assert(s[i] == d[i]);
            }
        }
    }
    if s.len() > 0 && s[0] == '-' && parsed_usize(s) is Some {
        let d = unsigned_digits(s);
        assert(d == s);
        assert(is_digit(d[0]));
    }
}

/// `z` zero digits.
pub open spec fn zeros(z: nat) -> Seq<char> {
    Seq::new(z, |i: int| '0')
}

/// A non-empty string of digits is some zeros followed by the decimal
/// notation of the number it denotes.
proof fn lemma_digits_are_decimal(d: Seq<char>) -> (z: nat)
    requires
        d.len() > 0,
        all_digits(d),
    ensures
        d == zeros(z) + decimal(digits_value(d)),
    decreases d.len(),
{
    let c = d.last();
    assert(is_digit(d[d.len() - 1]));
    let cv: nat = (c as nat - '0' as nat) as nat;
    assert(cv < 10);
    assert(digit_char(cv) == c);
    if d.len() == 1 {
        assert(d.drop_last() =~= Seq::<char>::empty());
        assert(digits_value(Seq::<char>::empty()) == 0);
        assert(digits_value(d) == digits_value(d.drop_last()) * 10 + (c as nat - '0' as nat) as nat);
        assert(digits_value(d) == cv);
        assert(d =~= zeros(0) + decimal(cv));
        0
    } else {
        let e = d.drop_last();
        assert forall|i: int| 0 <= i < e.len() implies is_digit(#[trigger] e[i]) by {
            assert(e[i] == d[i]);
        }
        assert(all_digits(e));
        let z0 = lemma_digits_are_decimal(e);
        let v0 = digits_value(e);
        let v = digits_value(d);
        assert(v == v0 * 10 + cv);
        assert(d =~= e.push(c));
        if v0 == 0 {
            assert(decimal(0) == seq!['0']);
            if cv == 0 {
                assert(v == 0);
                assert(d =~= zeros(z0 + 1) + decimal(0));
                z0 + 1
            } else {
                assert(v == cv);
                assert(d =~= zeros(z0 + 1) + decimal(cv));
                z0 + 1
            }
        } else {
            assert(v >= 10);
            assert(v / 10 == v0 && v % 10 == cv);
            assert(decimal(v) == decimal(v0).push(c));
            assert(d =~= zeros(z0) + decimal(v));
            z0
        }
    }
}

/// A text that reads as a number is exactly an optional '+', some zeros
/// and the decimal notation of that number, so nothing that does not fit
/// in a `usize` is read (as a smaller number or otherwise).
pub proof fn law_numbers_read_exactly(s: Seq<char>, v: usize)
    requires
        parsed_usize(s) == Some(v),
    ensures
        exists|z: nat| #[trigger] zeros(z) + decimal(v as nat) == s || seq!['+'] + zeros(z) + decimal(
            v as nat,
        ) == s,
{
    let d = unsigned_digits(s);
    let z = lemma_digits_are_decimal(d);
    if s.len() > 0 && s[0] == '+' {
        assert(s =~= seq!['+'] + d);
        assert(seq!['+'] + zeros(z) + decimal(v as nat) == s);
    } else {
        assert(zeros(z) + decimal(v as nat) == s);
    }
}

} // verus!
