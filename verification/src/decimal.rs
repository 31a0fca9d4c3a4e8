//! Whether a decimal float literal reads as zero: `f64` parsing rounds to the
//! nearest representable value, ties to even, so a positive value reads as
//! zero exactly when it is at most half the smallest subnormal, 2^-1075,
//! which is 5^1075 / 10^1075.
//!
//! Deciding it exactly takes numbers far wider than a machine word, so this
//! module keeps natural numbers as little-endian decimal digits.

use vstd::prelude::*;

use crate::text::{
    all_digits, find_char, find_in, is_ascii_digit, is_decimal_literal, is_exponent_digits,
    is_mantissa, mantissa_of, without_sign,
};
use crate::view::lod::digits_value;

verus! {

/// Ten to the `n`.
pub open spec fn pow10(n: nat) -> nat
    decreases n,
{
    if n == 0 {
        1
    } else {
        10 * pow10((n - 1) as nat)
    }
}

/// Five to the `n`.
pub open spec fn pow5(n: nat) -> nat
    decreases n,
{
    if n == 0 {
        1
    } else {
        5 * pow5((n - 1) as nat)
    }
}

/// Whether `m * 10^t` is more than 2^-1075 = 5^1075 / 10^1075, so that it
/// does not round to zero as an `f64`.
pub open spec fn above_half_tiny(m: nat, t: int) -> bool {
    if t + 1075 >= 0 {
        m * pow10((t + 1075) as nat) > pow5(1075)
    } else {
        m > pow5(1075) * pow10((-(t + 1075)) as nat)
    }
}

/// The digits of a mantissa, its point removed.
pub open spec fn mantissa_digits(m: Seq<char>) -> Seq<char> {
    match find_char(m, '.') {
        None => m,
        Some(p) => m.take(p) + m.skip(p + 1),
    }
}

/// How many digits of a mantissa follow its point.
pub open spec fn fraction_len(m: Seq<char>) -> nat {
    match find_char(m, '.') {
        None => 0,
        Some(p) => (m.len() - p - 1) as nat,
    }
}

/// The exponent a lowercased, unsigned decimal literal is written with.
pub open spec fn exponent_of(u: Seq<char>) -> int {
    match find_char(u, 'e') {
        None => 0,
        Some(p) => {
            let x = u.skip(p + 1);
            if x.len() > 0 && x[0] == '-' {
                -(digits_value(x.drop_first()) as int)
            } else {
                digits_value(without_sign(x)) as int
            }
        },
    }
}

/// Whether a lowercased, unsigned decimal literal denotes a value that does
/// not round to zero: its mantissa's digits, scaled by its exponent less the
/// count of fraction digits, exceed 2^-1075.
pub open spec fn decimal_rounds_nonzero(u: Seq<char>) -> bool {
    above_half_tiny(
        digits_value(mantissa_digits(mantissa_of(u))),
        exponent_of(u) - fraction_len(mantissa_of(u)),
    )
}

/// The value of little-endian decimal digits.
pub open spec fn le_val(s: Seq<u8>) -> nat
    decreases s.len(),
{
    if s.len() == 0 {
        0
    } else {
        le_val(s.drop_last()) + (s.last() as nat) * pow10((s.len() - 1) as nat)
    }
}

/// Every entry is a decimal digit.
pub open spec fn digits_ok(s: Seq<u8>) -> bool {
    forall|i: int| 0 <= i < s.len() ==> #[trigger] s[i] <= 9
}

proof fn lemma_pow10_add(a: nat, b: nat)
    ensures
        pow10(a + b) == pow10(a) * pow10(b),
    decreases a,
{
    if a == 0 {
        assert(pow10(0) == 1);
        assert(a + b == b);
    } else {
        lemma_pow10_add((a - 1) as nat, b);
        assert(pow10(a + b) == 10 * pow10((a - 1 + b) as nat));
        assert(pow10(a) == 10 * pow10((a - 1) as nat));
        assert(10 * (pow10((a - 1) as nat) * pow10(b)) == (10 * pow10((a - 1) as nat)) * pow10(b))
            by (nonlinear_arith);
    }
}

proof fn lemma_pow10_positive(n: nat)
    ensures
        pow10(n) >= 1,
    decreases n,
{
    if n > 0 {
        lemma_pow10_positive((n - 1) as nat);
    }
}

proof fn lemma_pow10_grows(a: nat, b: nat)
    requires
        a <= b,
    ensures
        pow10(a) <= pow10(b),
    decreases b,
{
    if a < b {
        lemma_pow10_grows(a, (b - 1) as nat);
        lemma_pow10_positive((b - 1) as nat);
    }
}

proof fn lemma_pow5_below_pow10(n: nat)
    ensures
        1 <= pow5(n),
        n > 0 ==> pow5(n) < pow10(n),
        pow5(n) <= pow10(n),
    decreases n,
{
    if n > 0 {
        lemma_pow5_below_pow10((n - 1) as nat);
    }
}

proof fn lemma_le_bound(s: Seq<u8>)
    requires
        digits_ok(s),
    ensures
        le_val(s) < pow10(s.len()),
    decreases s.len(),
{
    if s.len() > 0 {
        let p = pow10((s.len() - 1) as nat);
        assert(digits_ok(s.drop_last()) && s.last() <= 9) by {
            assert(s.last() == s[s.len() - 1]);
            assert forall|i: int| 0 <= i < s.drop_last().len() implies #[trigger] s.drop_last()[i]
                <= 9 by {
                assert(s.drop_last()[i] == s[i]);
            }
        }
        lemma_le_bound(s.drop_last());
        let l = s.last() as nat;
        assert(l * p <= 9 * p) by (nonlinear_arith)
            requires
                l <= 9,
        ;
    }
}

proof fn lemma_le_top(s: Seq<u8>)
    requires
        s.len() > 0,
        s.last() >= 1,
    ensures
        le_val(s) >= pow10((s.len() - 1) as nat),
{
    let p = pow10((s.len() - 1) as nat);
    let l = s.last() as nat;
    assert(l * p >= p) by (nonlinear_arith)
        requires
            l >= 1,
    ;
}

proof fn lemma_le_prepend(d: u8, a: Seq<u8>)
    ensures
        le_val(seq![d] + a) == d + 10 * le_val(a),
    decreases a.len(),
{
    let s = seq![d] + a;
    if a.len() == 0 {
        assert(s.drop_last() =~= Seq::<u8>::empty());
        assert(s.last() == d);
        assert(pow10(0) == 1);
        assert(le_val(Seq::<u8>::empty()) == 0);
        assert((d as nat) * pow10(0) == d as nat) by (nonlinear_arith)
            requires
                pow10(0) == 1,
        ;
    } else {
        assert(s.drop_last() =~= seq![d] + a.drop_last());
        assert(s.last() == a.last());
        assert(s.len() - 1 == a.len());
        lemma_le_prepend(d, a.drop_last());
        let p = pow10((a.len() - 1) as nat);
        let l = a.last() as nat;
        assert(pow10(a.len()) == 10 * p);
        assert(l * (10 * p) == 10 * (l * p)) by (nonlinear_arith);
        assert(le_val(s) == le_val(s.drop_last()) + l * pow10(a.len()));
        assert(le_val(a) == le_val(a.drop_last()) + l * p);
    }
}

proof fn lemma_le_push_zero(s: Seq<u8>)
    ensures
        le_val(s.push(0)) == le_val(s),
{
    assert(s.push(0).drop_last() =~= s);
    assert(s.push(0).last() == 0);
    assert(0 * pow10(s.len()) == 0);
}

proof fn lemma_le_compare(a: Seq<u8>, b: Seq<u8>, j: int)
    requires
        a.len() == b.len(),
        0 <= j < a.len(),
        digits_ok(a),
        digits_ok(b),
        a.skip(j + 1) == b.skip(j + 1),
        a[j] < b[j],
    ensures
        le_val(a) < le_val(b),
    decreases a.len(),
{
    let n = a.len();
    let p = pow10((n - 1) as nat);
    assert(digits_ok(a.drop_last())) by {
        assert forall|i: int| 0 <= i < a.drop_last().len() implies #[trigger] a.drop_last()[i] <= 9 by {
            assert(a.drop_last()[i] == a[i]);
        }
    }
    assert(digits_ok(b.drop_last())) by {
        assert forall|i: int| 0 <= i < b.drop_last().len() implies #[trigger] b.drop_last()[i] <= 9 by {
            assert(b.drop_last()[i] == b[i]);
        }
    }
    if j == n - 1 {
        lemma_le_bound(a.drop_last());
        let x = a.last() as nat;
        let y = b.last() as nat;
        assert(a.last() == a[j] && b.last() == b[j]);
        assert((x + 1) * p <= y * p) by (nonlinear_arith)
            requires
                x + 1 <= y,
        ;
        assert((x + 1) * p == x * p + p) by (nonlinear_arith);
    } else {
        assert(a.last() == a.skip(j + 1)[n - j - 2]);
        assert(b.last() == b.skip(j + 1)[n - j - 2]);
        assert(a.drop_last().skip(j + 1) =~= a.skip(j + 1).drop_last());
        assert(b.drop_last().skip(j + 1) =~= b.skip(j + 1).drop_last());
        assert(a.drop_last()[j] == a[j] && b.drop_last()[j] == b[j]);
        lemma_le_compare(a.drop_last(), b.drop_last(), j);
    }
}

/// Whether `a` is more than `b`, both little-endian digits of one length.
fn le_greater(a: &Vec<u8>, b: &Vec<u8>) -> (r: bool)
    requires
        a@.len() == b@.len(),
        digits_ok(a@),
        digits_ok(b@),
    ensures
        r == (le_val(a@) > le_val(b@)),
{
    let mut i: usize = a.len();
    assert(a@.skip(i as int) =~= b@.skip(i as int));
    while i > 0
        invariant
            i <= a@.len(),
            a@.len() == b@.len(),
            digits_ok(a@),
            digits_ok(b@),
            a@.skip(i as int) == b@.skip(i as int),
        decreases i,
    {
        let j = i - 1;
        if a[j] != b[j] {
            proof {
                if a[j as int] < b[j as int] {
                    lemma_le_compare(a@, b@, j as int);
                } else {
                    lemma_le_compare(b@, a@, j as int);
                }
            }
            return a[j] > b[j];
        }
        assert(a@.skip(j as int) =~= seq![a@[j as int]] + a@.skip(i as int));
        assert(b@.skip(j as int) =~= seq![b@[j as int]] + b@.skip(i as int));
        i = j;
    }
    assert(a@ =~= a@.skip(0));
    assert(b@ =~= b@.skip(0));
    false
}

/// Five times a number.
fn times_five(a: &Vec<u8>) -> (r: Vec<u8>)
    requires
        digits_ok(a@),
    ensures
        digits_ok(r@),
        le_val(r@) == 5 * le_val(a@),
{
    let mut out: Vec<u8> = Vec::new();
    let mut carry: u8 = 0;
    let mut i: usize = 0;
    while i < a.len()
        invariant
            digits_ok(a@),
            i <= a@.len(),
            out@.len() == i,
            digits_ok(out@),
            carry <= 4,
            le_val(out@) + carry * pow10(i as nat) == 5 * le_val(a@.take(i as int)),
        decreases a@.len() - i,
    {
        assert(a[i as int] <= 9);
        let x: u8 = a[i] * 5 + carry;
        let d: u8 = x % 10;
        let ghost before = out@;
        let ghost c0 = carry;
        out.push(d);
        carry = x / 10;
        proof {
            let p = pow10(i as nat);
            assert(a@.take(i + 1).drop_last() =~= a@.take(i as int));
            assert(a@.take(i + 1).last() == a[i as int]);
            assert(out@.drop_last() =~= before);
            assert(pow10((i + 1) as nat) == 10 * p);
            assert(le_val(out@) == le_val(before) + (d as nat) * p);
            assert(le_val(a@.take(i + 1)) == le_val(a@.take(i as int)) + (a[i as int] as nat) * p);
            assert((d as nat) * p + (carry as nat) * (10 * p) == ((a[i as int] as nat) * 5 + c0) * p)
                by (nonlinear_arith)
                requires
                    (d as nat) + 10 * (carry as nat) == (a[i as int] as nat) * 5 + c0,
            ;
            assert(5 * ((a[i as int] as nat) * p) == ((a[i as int] as nat) * 5) * p) by (nonlinear_arith);
            assert(((a[i as int] as nat) * 5 + c0) * p == ((a[i as int] as nat) * 5) * p + (c0 as nat) * p)
                by (nonlinear_arith);
            assert((carry as nat) * pow10((i + 1) as nat) == (carry as nat) * (10 * p));
            assert forall|k: int| 0 <= k < out@.len() implies #[trigger] out@[k] <= 9 by {
                if k < before.len() {
                    assert(out@[k] == before[k]);
                }
            }
        }
        i = i + 1;
    }
    assert(a@.take(i as int) =~= a@);
    if carry > 0 {
        let ghost before = out@;
        out.push(carry);
        proof {
            assert(out@.drop_last() =~= before);
            assert forall|k: int| 0 <= k < out@.len() implies #[trigger] out@[k] <= 9 by {
                if k < before.len() {
                    assert(out@[k] == before[k]);
                }
            }
        }
    }
    out
}

/// 5^1075, as little-endian digits.
fn five_to_1075() -> (r: Vec<u8>)
    ensures
        digits_ok(r@),
        le_val(r@) == pow5(1075),
{
    let mut v: Vec<u8> = Vec::new();
    v.push(1);
    assert(v@.drop_last() =~= Seq::<u8>::empty());
    assert(pow10(0) == 1);
    assert((1u8 as nat) * pow10(0) == 1) by (nonlinear_arith)
        requires
            pow10(0) == 1,
    ;
    assert(v@.last() == 1u8);
    assert(v@.len() == 1);
    assert(le_val(Seq::<u8>::empty()) == 0);
    assert(le_val(v@) == le_val(v@.drop_last()) + (v@.last() as nat) * pow10(0));
    assert(le_val(v@) == 1);
    assert(digits_ok(v@)) by {
        assert(v@[0] == 1);
    }
    let mut k: usize = 0;
    while k < 1075
        invariant
            k <= 1075,
            digits_ok(v@),
            le_val(v@) == pow5(k as nat),
        decreases 1075 - k,
    {
        v = times_five(&v);
        k = k + 1;
    }
    v
}

/// `a` with `k` zeros below it: `a * 10^k`.
fn shift_up(a: &mut Vec<u8>, k: usize)
    requires
        digits_ok(old(a)@),
    ensures
        digits_ok(final(a)@),
        final(a)@.len() == old(a)@.len() + k,
        le_val(final(a)@) == pow10(k as nat) * le_val(old(a)@),
{
    let mut z: usize = 0;
    proof {
        let v0 = le_val(a@);
        assert(pow10(0) == 1);
        assert(pow10(0) * v0 == v0) by (nonlinear_arith)
            requires
                pow10(0) == 1,
        ;
    }
    while z < k
        invariant
            z <= k,
            digits_ok(a@),
            a@.len() == old(a)@.len() + z,
            le_val(a@) == pow10(z as nat) * le_val(old(a)@),
        decreases k - z,
    {
        let ghost before = a@;
        a.insert(0, 0);
        proof {
            assert(a@ =~= seq![0u8] + before);
            lemma_le_prepend(0, before);
            let ghost v0 = le_val(old(a)@);
            let ghost pz = pow10(z as nat);
            assert(10 * (pz * v0) == (10 * pz) * v0) by (nonlinear_arith);
            assert forall|i: int| 0 <= i < a@.len() implies #[trigger] a@[i] <= 9 by {
                if i > 0 {
                    assert(a@[i] == before[i - 1]);
                }
            }
        }
        z = z + 1;
    }
}

/// `a` with zeros above it, to `n` digits: the same number.
fn pad_to(a: &mut Vec<u8>, n: usize)
    requires
        digits_ok(old(a)@),
        old(a)@.len() <= n,
    ensures
        digits_ok(final(a)@),
        final(a)@.len() == n,
        le_val(final(a)@) == le_val(old(a)@),
{
    while a.len() < n
        invariant
            a@.len() <= n,
            digits_ok(a@),
            le_val(a@) == le_val(old(a)@),
        decreases n - a@.len(),
    {
        let ghost before = a@;
        a.push(0);
        proof {
            lemma_le_push_zero(before);
            assert forall|i: int| 0 <= i < a@.len() implies #[trigger] a@[i] <= 9 by {
                if i < before.len() {
                    assert(a@[i] == before[i]);
                }
            }
        }
    }
}

/// The characters `s[from..to]`.
pub fn chars_between(s: &Vec<char>, from: usize, to: usize) -> (r: Vec<char>)
    requires
        from <= to <= s@.len(),
    ensures
        r@ == s@.subrange(from as int, to as int),
{
    let mut r: Vec<char> = Vec::new();
    let mut i: usize = from;
    while i < to
        invariant
            from <= i <= to <= s@.len(),
            r@ == s@.subrange(from as int, i as int),
        decreases to - i,
    {
        r.push(s[i]);
        i = i + 1;
        assert(r@ =~= s@.subrange(from as int, i as int));
    }
    r
}

/// The number a run of decimal digits spells, as little-endian digits with
/// no zero on top.
fn digits_number(d: &Vec<char>) -> (r: Vec<u8>)
    requires
        all_digits(d@),
    ensures
        digits_ok(r@),
        le_val(r@) == digits_value(d@),
        r@.len() <= d@.len(),
        r@.len() > 0 ==> r@.last() >= 1,
{
    let mut a: Vec<u8> = Vec::new();
    let mut i: usize = 0;
    while i < d.len()
        invariant
            i <= d@.len(),
            all_digits(d@),
            digits_ok(a@),
            a@.len() == i,
            le_val(a@) == digits_value(d@.take(i as int)),
        decreases d@.len() - i,
    {
        let c = d[i];
        assert(is_ascii_digit(d@[i as int]));
        let x: u8 = ((c as u32) - ('0' as u32)) as u8;
        let ghost before = a@;
        a.insert(0, x);
        proof {
            assert(a@ =~= seq![x] + before);
            lemma_le_prepend(x, before);
            assert(d@.take(i + 1).drop_last() =~= d@.take(i as int));
            assert(d@.take(i + 1).last() == c);
            assert forall|k: int| 0 <= k < a@.len() implies #[trigger] a@[k] <= 9 by {
                if k > 0 {
                    assert(a@[k] == before[k - 1]);
                }
            }
        }
        i = i + 1;
    }
    assert(d@.take(i as int) =~= d@);
    while a.len() > 0 && a[a.len() - 1] == 0
        invariant
            digits_ok(a@),
            a@.len() <= d@.len(),
            le_val(a@) == digits_value(d@),
        decreases a@.len(),
    {
        let ghost before = a@;
        a.pop();
        proof {
            assert(a@ =~= before.drop_last());
            assert(before.last() == 0);
            assert(0 * pow10((before.len() - 1) as nat) == 0);
            assert forall|k: int| 0 <= k < a@.len() implies #[trigger] a@[k] <= 9 by {
                assert(a@[k] == before[k]);
            }
        }
    }
    a
}

/// The bound past which an exponent's exact size no longer matters.
const EXPONENT_CAP: i128 = 1180591620717411303424i128;

/// The value of an exponent's digits, or the cap when it is more.
fn exponent_digits(x: &Vec<char>, from: usize) -> (r: i128)
    requires
        from <= x@.len(),
        all_digits(x@.skip(from as int)),
    ensures
        r == (if digits_value(x@.skip(from as int)) < EXPONENT_CAP {
            digits_value(x@.skip(from as int)) as int
        } else {
            EXPONENT_CAP as int
        }),
{
    let ghost e = x@.skip(from as int);
    let mut v: i128 = 0;
    let mut i: usize = from;
    assert(e.take(0) =~= Seq::<char>::empty());
    while i < x.len()
        invariant
            from <= i <= x@.len(),
            e == x@.skip(from as int),
            all_digits(e),
            v == (if digits_value(e.take(i - from)) < EXPONENT_CAP {
                digits_value(e.take(i - from)) as int
            } else {
                EXPONENT_CAP as int
            }),
        decreases x@.len() - i,
    {
        let c = x[i];
        assert(e[i - from] == c);
        assert(is_ascii_digit(e[i - from]));
        assert(e.take(i - from + 1).drop_last() =~= e.take(i - from));
        let d: i128 = ((c as u32) - ('0' as u32)) as i128;
        if v < EXPONENT_CAP {
            let w = v * 10 + d;
            v = if w < EXPONENT_CAP {
                w
            } else {
                EXPONENT_CAP
            };
        }
        i = i + 1;
    }
    assert(e.take(i - from) =~= e);
    v
}

/// The pieces of a decimal literal: its mantissa's digits, how many follow
/// the point, whether the exponent is negative, and the exponent's size, up
/// to the cap.
fn literal_parts(u: &Vec<char>) -> (r: (Vec<char>, usize, bool, i128))
    requires
        is_decimal_literal(u@),
    ensures
        r.0@ == mantissa_digits(mantissa_of(u@)),
        all_digits(r.0@),
        r.0@.len() <= u@.len(),
        r.1 as nat == fraction_len(mantissa_of(u@)),
        r.1 <= u@.len(),
        0 <= r.3 <= EXPONENT_CAP,
        r.3 < EXPONENT_CAP ==> exponent_of(u@) == (if r.2 {
            -r.3
        } else {
            r.3 as int
        }),
        r.3 == EXPONENT_CAP ==> (if r.2 {
            exponent_of(u@) <= -EXPONENT_CAP
        } else {
            exponent_of(u@) >= EXPONENT_CAP
        }),
{
    let n = u.len();
    assert(u@.subrange(0, n as int) =~= u@);
    let (me, neg, e) = match find_in(u, 0, n, 'e') {
        None => (n, false, 0i128),
        Some(p) => {
            let x = chars_between(u, p + 1, n);
            assert(x@ =~= u@.skip(p + 1));
            assert(is_exponent_digits(x@));
            let neg = x.len() > 0 && x[0] == '-';
            let from: usize = if x.len() > 0 && (x[0] == '-' || x[0] == '+') {
                1
            } else {
                0
            };
            assert(x@.skip(from as int) =~= without_sign(x@));
            assert(neg ==> x@.drop_first() =~= x@.skip(from as int));
            let e = exponent_digits(&x, from);
            (p, neg, e)
        },
    };
    let m = chars_between(u, 0, me);
    assert(m@ == mantissa_of(u@)) by {
        match find_char(u@, 'e') {
            None => {},
            Some(p) => {
                assert(m@ =~= u@.take(p));
            },
        }
    }
    assert(is_mantissa(m@));
    assert(m@.subrange(0, m@.len() as int) =~= m@);
    let (d, frac) = match find_in(&m, 0, m.len(), '.') {
        None => (chars_between(&m, 0, m.len()), 0usize),
        Some(p) => {
            let mut d = chars_between(&m, 0, p);
            let tail = chars_between(&m, p + 1, m.len());
            let ghost head = d@;
            let mut k: usize = 0;
            while k < tail.len()
                invariant
                    k <= tail@.len(),
                    d@ == head + tail@.take(k as int),
                decreases tail@.len() - k,
            {
                d.push(tail[k]);
                k = k + 1;
                assert(d@ =~= head + tail@.take(k as int));
            }
            assert(tail@.take(k as int) =~= tail@);
            assert(head =~= m@.take(p as int));
            assert(tail@ =~= m@.skip(p + 1));
            (d, m.len() - p - 1)
        },
    };
    assert(all_digits(d@)) by {
        match find_char(m@, '.') {
            None => {},
            Some(p) => {
                assert forall|i: int| 0 <= i < d@.len() implies #[trigger] is_ascii_digit(d@[i]) by {
                    if i < p {
                        assert(d@[i] == m@.take(p)[i]);
                    } else {
                        assert(d@[i] == m@.skip(p + 1)[i - p]);
                    }
                }
            },
        }
    }
    (d, frac, neg, e)
}

proof fn lemma_high_is_above(big_m: nat, len: nat, t: int)
    requires
        len >= 1,
        big_m >= pow10((len - 1) as nat),
        len + t >= 1,
    ensures
        above_half_tiny(big_m, t),
{
    lemma_pow5_below_pow10(1075);
    if t + 1075 >= 0 {
        let k = (t + 1075) as nat;
        lemma_pow10_add((len - 1) as nat, k);
        lemma_pow10_grows(1075, ((len - 1) + k) as nat);
        assert(big_m * pow10(k) >= pow10((len - 1) as nat) * pow10(k)) by (nonlinear_arith)
            requires
                big_m >= pow10((len - 1) as nat),
        ;
    } else {
        let s = (-(t + 1075)) as nat;
        lemma_pow10_add(1075, s);
        lemma_pow10_grows((1075 + s) as nat, (len - 1) as nat);
        lemma_pow10_positive(s);
        assert(pow5(1075) * pow10(s) < pow10(1075) * pow10(s)) by (nonlinear_arith)
            requires
                pow5(1075) < pow10(1075),
                pow10(s) >= 1,
        ;
    }
}

proof fn lemma_low_is_not_above(big_m: nat, len: nat, t: int)
    requires
        len >= 1,
        big_m < pow10(len),
        len + t <= -1075,
    ensures
        !above_half_tiny(big_m, t),
{
    lemma_pow5_below_pow10(1075);
    let s = (-(t + 1075)) as nat;
    lemma_pow10_grows(len, s);
    assert(pow5(1075) * pow10(s) >= pow10(s)) by (nonlinear_arith)
        requires
            pow5(1075) >= 1,
    ;
}

/// Whether a lowercased, unsigned decimal literal denotes a value that does
/// not round to zero as an `f64`.
pub fn decimal_nonzero(u: &Vec<char>) -> (r: bool)
    requires
        is_decimal_literal(u@),
    ensures
        r == decimal_rounds_nonzero(u@),
{
    let (d, frac, neg, e) = literal_parts(u);
    let mut a = digits_number(&d);
    let ghost big_m = digits_value(d@);
    let ghost t = exponent_of(u@) - fraction_len(mantissa_of(u@));
    assert(decimal_rounds_nonzero(u@) == above_half_tiny(big_m, t));
    if a.len() == 0 {
        proof {
            lemma_pow5_below_pow10(1075);
            if t + 1075 >= 0 {
                assert(0 * pow10((t + 1075) as nat) == 0);
            }
        }
        return false;
    }
    proof {
        lemma_le_top(a@);
        lemma_le_bound(a@);
    }
    let len = a.len();
    let whole = u.len();
    assert(len <= whole && frac <= whole);
    let signed_e: i128 = if neg {
        -e
    } else {
        e
    };
    // The value lies between 10^(order - 1) and 10^order.
    let order: i128 = (len as i128) + signed_e - (frac as i128);
    if order >= 1 {
        proof {
            if e == EXPONENT_CAP {
                assert(!neg);
            }
            lemma_high_is_above(big_m, len as nat, t);
        }
        return true;
    }
    if order <= -1075 {
        proof {
            lemma_low_is_not_above(big_m, len as nat, t);
        }
        return false;
    }
    // Near the threshold: compare exactly.
    assert(e < EXPONENT_CAP);
    assert(t == order - len);
    let mut b = five_to_1075();
    let k: i128 = order - (len as i128) + 1075;
    if k >= 0 {
        shift_up(&mut a, k as usize);
        proof {
            let pk = pow10(k as nat);
            assert(big_m * pk == pk * big_m) by (nonlinear_arith);
        }
    } else {
        shift_up(&mut b, (-k) as usize);
        proof {
            let pk = pow10((-k) as nat);
            let f = pow5(1075);
            assert(f * pk == pk * f) by (nonlinear_arith);
        }
    }
    let width = if a.len() < b.len() {
        b.len()
    } else {
        a.len()
    };
    pad_to(&mut a, width);
    pad_to(&mut b, width);
    le_greater(&a, &b)
}

} // verus!
