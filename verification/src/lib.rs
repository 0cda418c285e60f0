//! Display formatting of raw gas counts.
//!
//! A gas count is a non-negative 64-bit integer reported by a contract
//! execution. This crate renders such a count for humans in two ways:
//! [`comma_separate`] groups its decimal digits in threes with a `','`
//! between the groups, and [`to_near_parts`] splits the count into whole
//! high-level currency units and the raw remainder, ready for a caller to
//! display as a fraction.

use vstd::arithmetic::div_mod::lemma_fundamental_div_mod;
use vstd::prelude::*;

verus! {

/// Number of raw gas units that make up one high-level currency unit.
pub const GAS_PER_NEAR: u64 = 1_000_000_000_000_000;

/// The decimal digit character for a value `d`; values outside `0..10`
/// are mapped to `'9'` (callers only apply it to digit values).
pub open spec fn digit_char(d: int) -> char {
    if d == 0 {
        '0'
    } else if d == 1 {
        '1'
    } else if d == 2 {
        '2'
    } else if d == 3 {
        '3'
    } else if d == 4 {
        '4'
    } else if d == 5 {
        '5'
    } else if d == 6 {
        '6'
    } else if d == 7 {
        '7'
    } else if d == 8 {
        '8'
    } else {
        '9'
    }
}

/// The numeric value of a decimal digit character; non-digits map to `0`.
pub open spec fn digit_val(c: char) -> nat {
    if c == '0' {
        0
    } else if c == '1' {
        1
    } else if c == '2' {
        2
    } else if c == '3' {
        3
    } else if c == '4' {
        4
    } else if c == '5' {
        5
    } else if c == '6' {
        6
    } else if c == '7' {
        7
    } else if c == '8' {
        8
    } else if c == '9' {
        9
    } else {
        0
    }
}

/// Whether `c` is one of the ten decimal digit characters.
pub open spec fn is_dec_digit(c: char) -> bool {
    c == '0' || c == '1' || c == '2' || c == '3' || c == '4' || c == '5' || c == '6' || c == '7'
        || c == '8' || c == '9'
}

/// The base-10 rendering of `n`, most significant digit first, with no
/// leading zeros (`0` itself renders as the single digit `'0'`).
pub open spec fn spec_digits(n: nat) -> Seq<char>
    decreases n,
{
    if n < 10 {
        seq![digit_char(n as int)]
    } else {
        spec_digits(n / 10) + seq![digit_char((n % 10) as int)]
    }
}

/// `digits` with a `','` inserted before every complete group of three
/// digits counted from the right; the leftmost group keeps one to three
/// digits and no separator precedes it.
pub open spec fn spec_group(digits: Seq<char>) -> Seq<char>
    decreases digits.len(),
{
    if digits.len() <= 3 {
        digits
    } else {
        spec_group(digits.take(digits.len() - 3)) + seq![','] + digits.skip(digits.len() - 3)
    }
}

/// The thousands-separated base-10 rendering of `n`.
pub open spec fn spec_comma_group(n: nat) -> Seq<char> {
    spec_group(spec_digits(n))
}

/// `s` with every `','` removed, all other characters kept in order.
pub open spec fn strip_separators(s: Seq<char>) -> Seq<char>
    decreases s.len(),
{
    if s.len() == 0 {
        Seq::empty()
    } else if s[0] == ',' {
        strip_separators(s.skip(1))
    } else {
        seq![s[0]] + strip_separators(s.skip(1))
    }
}

/// The number denoted by a sequence of decimal digit characters, most
/// significant digit first.
pub open spec fn spec_number_of(s: Seq<char>) -> nat
    decreases s.len(),
{
    if s.len() == 0 {
        0
    } else {
        spec_number_of(s.drop_last()) * 10 + digit_val(s.last())
    }
}

/// The digit characters for a sequence of digit values.
spec fn chars_of(ds: Seq<u64>) -> Seq<char> {
    ds.map_values(|d: u64| digit_char(d as int))
}

/// A one-character string slice holding the digit character for `d`.
fn digit_str(d: u64) -> (s: &'static str)
    requires
        d < 10,
    ensures
        s@ == seq![digit_char(d as int)],
{
    let s: &'static str = if d == 0 {
        "0"
    } else if d == 1 {
        "1"
    } else if d == 2 {
        "2"
    } else if d == 3 {
        "3"
    } else if d == 4 {
        "4"
    } else if d == 5 {
        "5"
    } else if d == 6 {
        "6"
    } else if d == 7 {
        "7"
    } else if d == 8 {
        "8"
    } else {
        "9"
    };
    proof {
        reveal_strlit("0");
        reveal_strlit("1");
        reveal_strlit("2");
        reveal_strlit("3");
        reveal_strlit("4");
        reveal_strlit("5");
        reveal_strlit("6");
        reveal_strlit("7");
        reveal_strlit("8");
        reveal_strlit("9");
        assert(s@ =~= seq![digit_char(d as int)]);
    }
    s
}

/// The decimal digit values of `x`, most significant first.
fn collect_digits(x: u64) -> (ds: Vec<u64>)
    ensures
        ds@.len() >= 1,
        forall|i: int| 0 <= i < ds@.len() ==> ds@[i] < 10,
        chars_of(ds@) == spec_digits(x as nat),
{
    let mut ds: Vec<u64> = Vec::new();
    if x == 0 {
        ds.push(0);
        proof {
            assert(chars_of(ds@) =~= spec_digits(0));
        }
    } else {
        let mut rest: u64 = x;
        while rest > 0
            invariant
                forall|i: int| 0 <= i < ds@.len() ==> ds@[i] < 10,
                rest > 0 ==> spec_digits(x as nat) == spec_digits(rest as nat) + chars_of(ds@),
                rest == 0 ==> ds@.len() >= 1 && spec_digits(x as nat) == chars_of(ds@),
            decreases rest,
        {
            let ghost pre: Seq<u64> = ds@;
            let d: u64 = rest % 10;
            ds.insert(0, d);
            proof {
                assert(ds@ =~= seq![d] + pre);
                assert(chars_of(ds@) =~= seq![digit_char(d as int)] + chars_of(pre));
                if rest >= 10 {
                    assert(spec_digits(rest as nat) == spec_digits((rest as nat) / 10) + seq![
                        digit_char(((rest as nat) % 10) as int),
                    ]);
                    assert(spec_digits(x as nat) =~= spec_digits((rest / 10) as nat) + chars_of(
                        ds@,
                    ));
                } else {
                    assert(spec_digits(rest as nat) == seq![digit_char(rest as int)]);
                    assert(spec_digits(x as nat) =~= chars_of(ds@));
                }
            }
            rest = rest / 10;
        }
    }
    ds
}

/// Renders `x` in base 10 with a `','` between each group of three digits,
/// grouping from the least significant digit: `1234567` becomes
/// `"1,234,567"`, and a count of at most three digits is left unchanged.
pub fn comma_separate(x: u64) -> (r: String)
    ensures
        r@ == spec_comma_group(x as nat),
{
    let ds = collect_digits(x);
    let len = ds.len();
    let mut tail = String::new();
    let mut j: usize = len;
    proof {
        assert(chars_of(ds@).take(len as int) =~= chars_of(ds@));
        assert(spec_group(chars_of(ds@)) =~= spec_group(chars_of(ds@).take(len as int)) + tail@);
    }
    while j > 3
        invariant
            1 <= j <= len,
            len == ds@.len(),
            forall|i: int| 0 <= i < ds@.len() ==> ds@[i] < 10,
            (len - j) % 3 == 0,
            spec_group(chars_of(ds@)) == spec_group(chars_of(ds@).take(j as int)) + tail@,
        decreases j,
    {
        let mut piece = String::from_str(",");
        piece.append(digit_str(ds[j - 3]));
        piece.append(digit_str(ds[j - 2]));
        piece.append(digit_str(ds[j - 1]));
        piece.append(tail.as_str());
        proof {
            reveal_strlit(",");
            let c = chars_of(ds@);
            let jj = j as int;
            assert(c.take(jj).len() == jj);
            assert(c.take(jj).take(jj - 3) =~= c.take(jj - 3));
            assert(c.take(jj).skip(jj - 3) =~= seq![c[jj - 3], c[jj - 2], c[jj - 1]]);
            assert(piece@ =~= (seq![','] + c.take(jj).skip(jj - 3)) + tail@);
            assert(spec_group(c.take(jj)) == spec_group(c.take(jj - 3)) + seq![','] + c.take(
                jj,
            ).skip(jj - 3));
            assert(spec_group(c) =~= spec_group(c.take(jj - 3)) + piece@);
        }
        tail = piece;
        j = j - 3;
    }
    let mut out = String::new();
    let mut i: usize = 0;
    proof {
        assert(out@ =~= chars_of(ds@).take(0));
    }
    while i < j
        invariant
            0 <= i <= j <= len,
            j <= 3,
            len == ds@.len(),
            forall|k: int| 0 <= k < ds@.len() ==> ds@[k] < 10,
            spec_group(chars_of(ds@)) == spec_group(chars_of(ds@).take(j as int)) + tail@,
            out@ == chars_of(ds@).take(i as int),
        decreases j - i,
    {
        out.append(digit_str(ds[i]));
        proof {
            assert(out@ =~= chars_of(ds@).take(i + 1));
        }
        i = i + 1;
    }
    out.append(tail.as_str());
    proof {
        let c = chars_of(ds@);
        assert(spec_group(c.take(j as int)) == c.take(j as int));
        assert(out@ =~= spec_group(c));
    }
    out
}

/// Every character of the base-10 rendering of `n` is a decimal digit.
proof fn lemma_digits_are_digits(n: nat)
    ensures
        forall|i: int| 0 <= i < spec_digits(n).len() ==> is_dec_digit(#[trigger] spec_digits(n)[i]),
    decreases n,
{
    if n < 10 {
    } else {
        lemma_digits_are_digits(n / 10);
        assert forall|i: int| 0 <= i < spec_digits(n).len() implies is_dec_digit(
            #[trigger] spec_digits(n)[i],
        ) by {
            if i < spec_digits(n / 10).len() {
                assert(spec_digits(n)[i] == spec_digits(n / 10)[i]);
            } else {
                assert(spec_digits(n)[i] == digit_char((n % 10) as int));
            }
        }
    }
}

/// How many digits the base-10 rendering of `n` has, for small `n`.
proof fn lemma_digits_len(n: nat)
    ensures
        n < 10 ==> spec_digits(n).len() == 1,
        10 <= n < 100 ==> spec_digits(n).len() == 2,
        100 <= n < 1000 ==> spec_digits(n).len() == 3,
    decreases n,
{
    if n < 10 {
    } else if n < 100 {
        assert(1 <= n / 10 && n / 10 < 10) by (nonlinear_arith)
            requires
                10 <= n && n < 100,
        ;
        lemma_digits_len(n / 10);
    } else if n < 1000 {
        assert(10 <= n / 10 && n / 10 < 100) by (nonlinear_arith)
            requires
                100 <= n && n < 1000,
        ;
        lemma_digits_len(n / 10);
    }
}

/// A count of one to three digits is rendered without any separator: its
/// grouped form is its plain base-10 rendering, which holds no `','`.
pub proof fn lemma_short_count_has_no_separator(n: nat)
    requires
        n < 1000,
    ensures
        spec_comma_group(n) == spec_digits(n),
        forall|i: int|
            0 <= i < spec_comma_group(n).len() ==> #[trigger] spec_comma_group(n)[i] != ',',
{
    lemma_digits_len(n);
    lemma_digits_are_digits(n);
    assert(spec_digits(n).len() <= 3);
}

/// Removing separators distributes over concatenation.
proof fn lemma_strip_append(a: Seq<char>, b: Seq<char>)
    ensures
        strip_separators(a + b) == strip_separators(a) + strip_separators(b),
    decreases a.len(),
{
    if a.len() == 0 {
        assert(a + b =~= b);
        assert(strip_separators(a) + strip_separators(b) =~= strip_separators(b));
    } else {
        assert((a + b).skip(1) =~= a.skip(1) + b);
        lemma_strip_append(a.skip(1), b);
        assert((a + b)[0] == a[0]);
        if a[0] == ',' {
        } else {
            assert(seq![a[0]] + (strip_separators(a.skip(1)) + strip_separators(b)) =~= (seq![
                a[0],
            ] + strip_separators(a.skip(1))) + strip_separators(b));
        }
    }
}

/// A sequence without separators is unchanged by removing them.
proof fn lemma_strip_no_separators(s: Seq<char>)
    requires
        forall|i: int| 0 <= i < s.len() ==> s[i] != ',',
    ensures
        strip_separators(s) == s,
    decreases s.len(),
{
    if s.len() == 0 {
        assert(strip_separators(s) =~= s);
    } else {
        assert(forall|i: int| 0 <= i < s.skip(1).len() ==> s.skip(1)[i] == s[i + 1]);
        lemma_strip_no_separators(s.skip(1));
        assert(seq![s[0]] + s.skip(1) =~= s);
    }
}

/// Removing every separator from the grouped form of a separator-free
/// digit sequence gives the sequence back.
proof fn lemma_strip_group(d: Seq<char>)
    requires
        forall|i: int| 0 <= i < d.len() ==> d[i] != ',',
    ensures
        strip_separators(spec_group(d)) == d,
    decreases d.len(),
{
    if d.len() <= 3 {
        lemma_strip_no_separators(d);
    } else {
        let l = d.len() as int;
        assert(forall|i: int| 0 <= i < d.take(l - 3).len() ==> #[trigger] d.take(l - 3)[i] == d[i]);
        assert(forall|i: int|
            0 <= i < d.skip(l - 3).len() ==> #[trigger] d.skip(l - 3)[i] == d[i + l - 3]);
        lemma_strip_group(d.take(l - 3));
        lemma_strip_append(spec_group(d.take(l - 3)) + seq![','], d.skip(l - 3));
        lemma_strip_append(spec_group(d.take(l - 3)), seq![',']);
        assert(seq![','].skip(1) =~= Seq::<char>::empty());
        assert(strip_separators(Seq::<char>::empty()) =~= Seq::<char>::empty());
        assert(strip_separators(seq![',']) =~= Seq::<char>::empty());
        lemma_strip_no_separators(d.skip(l - 3));
        assert(strip_separators(spec_group(d)) =~= d.take(l - 3) + d.skip(l - 3));
        assert(d.take(l - 3) + d.skip(l - 3) =~= d);
    }
}

/// Reading the base-10 rendering of `n` back as a number yields `n`.
proof fn lemma_number_of_digits(n: nat)
    ensures
        spec_number_of(spec_digits(n)) == n,
    decreases n,
{
    if n < 10 {
        let s = spec_digits(n);
        assert(s.drop_last() =~= Seq::<char>::empty());
        assert(spec_number_of(Seq::<char>::empty()) == 0);
        assert(s.last() == digit_char(n as int));
        assert(digit_val(digit_char(n as int)) == n);
    } else {
        lemma_number_of_digits(n / 10);
        let s = spec_digits(n);
        assert(s.drop_last() =~= spec_digits(n / 10));
        assert(s.last() == digit_char((n % 10) as int));
        assert(digit_val(digit_char((n % 10) as int)) == n % 10);
        lemma_fundamental_div_mod(n as int, 10);
    }
}

/// Round trip: stripping every separator from the grouped rendering of `n`
/// and reading the remaining digits as a base-10 number yields `n` again.
pub proof fn lemma_round_trip(n: nat)
    ensures
        spec_number_of(strip_separators(spec_comma_group(n))) == n,
{
    lemma_digits_are_digits(n);
    assert forall|i: int| 0 <= i < spec_digits(n).len() implies #[trigger] spec_digits(n)[i]
        != ',' by {
        assert(is_dec_digit(spec_digits(n)[i]));
    }
    lemma_strip_group(spec_digits(n));
    lemma_number_of_digits(n);
}

/// Splits a raw gas count into whole high-level units and the raw units
/// left over, so that `gas == r.0 * GAS_PER_NEAR + r.1`. A caller that
/// wants the count as a fractional number of high-level units divides
/// `r.1` by `GAS_PER_NEAR` in whatever numeric type suits its display.
pub fn to_near_parts(gas: u64) -> (r: (u64, u64))
    ensures
        r.0 == gas as int / GAS_PER_NEAR as int,
        r.1 == gas as int % GAS_PER_NEAR as int,
        gas == r.0 * GAS_PER_NEAR + r.1,
        r.1 < GAS_PER_NEAR,
{
    proof {
        lemma_fundamental_div_mod(gas as int, GAS_PER_NEAR as int);
    }
    (gas / GAS_PER_NEAR, gas % GAS_PER_NEAR)
}

} // verus!

