//! Level of detail, authored as sibling nodes named `Rock_LOD0`, `Rock_LOD1`…

use vstd::prelude::*;
use vstd::string::*;

use crate::text::{all_digits, ascii_lower, chars_of, is_ascii_digit, lower_chars, lower_seq};

verus! {

/// The value of a run of decimal digits.
pub open spec fn digits_value(s: Seq<char>) -> nat
    decreases s.len(),
{
    if s.len() == 0 {
        0
    } else {
        digits_value(s.drop_last()) * 10 + ((s.last() as u32) - ('0' as u32)) as nat
    }
}

/// What `usize::from_str` accepts: an optional `+`, then one or more ASCII
/// digits whose value fits in a `usize`.
pub open spec fn spec_parse_usize(s: Seq<char>) -> Option<nat> {
    let t = if s.len() > 0 && s[0] == '+' {
        s.drop_first()
    } else {
        s
    };
    if t.len() > 0 && all_digits(t) && digits_value(t) <= usize::MAX {
        Some(digits_value(t))
    } else {
        None
    }
}

pub proof fn lemma_digits_value_grows(s: Seq<char>, i: int)
    requires
        0 <= i <= s.len(),
        all_digits(s),
    ensures
        digits_value(s.take(i)) <= digits_value(s),
    decreases s.len() - i,
{
    if i < s.len() {
        lemma_digits_value_grows(s, i + 1);
        assert(s.take(i + 1).drop_last() =~= s.take(i));
        assert(is_ascii_digit(s[i]));
    }
    assert(s.take(s.len() as int) =~= s);
}

/// Parse `s[start..]` as a `usize`, the way `usize::from_str` does.
pub fn parse_usize(s: &Vec<char>, start: usize) -> (r: Option<usize>)
    requires
        start <= s@.len(),
    ensures
        match r {
            Some(v) => spec_parse_usize(s@.skip(start as int)) == Some(v as nat),
            None => spec_parse_usize(s@.skip(start as int)) is None,
        },
{
    let ghost u = s@.skip(start as int);
    let mut i = start;
    if i < s.len() && s[i] == '+' {
        i = i + 1;
    }
    let ghost t = s@.skip(i as int);
    assert(t == if u.len() > 0 && u[0] == '+' {
        u.drop_first()
    } else {
        u
    }) by {
        if u.len() > 0 && u[0] == '+' {
            assert(u.drop_first() =~= t);
        } else {
            assert(u =~= t);
        }
    }
    if i == s.len() {
        return None;
    }
    let first = i;
    let mut value: usize = 0;
    while i < s.len()
        invariant
            first <= i <= s@.len(),
            t == s@.skip(first as int),
            u == s@.skip(start as int),
            spec_parse_usize(u) == (if t.len() > 0 && all_digits(t) && digits_value(t)
                <= usize::MAX {
                Some(digits_value(t))
            } else {
                None
            }),
            t.len() > 0,
            all_digits(t.take(i - first)),
            value as nat == digits_value(t.take(i - first)),
        decreases s@.len() - i,
    {
        let c = s[i];
        assert(t[i - first] == c);
        assert(t.take(i - first + 1).drop_last() =~= t.take(i - first));
        if !('0' <= c && c <= '9') {
            assert(!is_ascii_digit(t[i - first]));
            assert(!all_digits(t));
            return None;
        }
        let d: usize = ((c as u32) - ('0' as u32)) as usize;
        if value > (usize::MAX - d) / 10 {
            proof {
                assert(digits_value(t.take(i - first + 1)) == value * 10 + d);
                assert(value * 10 + d > usize::MAX) by (nonlinear_arith)
                    requires
                        value > (usize::MAX - d) / 10,
                        d <= 9,
                ;
                if all_digits(t) {
                    lemma_digits_value_grows(t, i - first + 1);
                }
            }
            return None;
        }
        assert(value * 10 + d <= usize::MAX) by (nonlinear_arith)
            requires
                value <= (usize::MAX - d) / 10,
                d <= 9,
        ;
        value = value * 10 + d;
        i = i + 1;
        assert(all_digits(t.take(i - first)));
    }
    assert(t.take(i - first) =~= t);
    Some(value)
}

/// The characters `trim_end_matches(['_', '.', '-', ' '])` removes.
pub open spec fn is_lod_separator(c: char) -> bool {
    c == '_' || c == '.' || c == '-' || c == ' '
}

/// `s` with trailing separators removed.
pub open spec fn trim_separators(s: Seq<char>) -> Seq<char>
    decreases s.len(),
{
    if s.len() > 0 && is_lod_separator(s.last()) {
        trim_separators(s.drop_last())
    } else {
        s
    }
}

/// The position of the last `lod` in `s`.
pub open spec fn rfind_lod(s: Seq<char>) -> Option<int>
    decreases s.len(),
{
    if s.len() < 3 {
        None
    } else if s.subrange(s.len() - 3, s.len() as int) == seq!['l', 'o', 'd'] {
        Some(s.len() - 3)
    } else {
        rfind_lod(s.drop_last())
    }
}

/// What [`parse_lod_name`] gives: the last `lod` (in any case) that is not
/// at the start of the name, followed by a level number, and preceded by a
/// base name that is not only separators.
pub open spec fn spec_parse_lod_name(name: Seq<char>) -> Option<(Seq<char>, nat)> {
    match rfind_lod(lower_seq(name)) {
        None => None,
        Some(m) => if m == 0 {
            None
        } else {
            match spec_parse_usize(name.skip(m + 3)) {
                None => None,
                Some(level) => if trim_separators(name.take(m)).len() == 0 {
                    None
                } else {
                    Some((trim_separators(name.take(m)), level))
                },
            }
        },
    }
}

/// Split a node name into its base and level of detail.
///
/// Accepts `Rock_LOD1`, `Rock.lod1` and `Rock-LOD1`, because which separator
/// a pipeline uses is a coin flip.
pub fn parse_lod_name(name: &str) -> (r: Option<(&str, usize)>)
    ensures
        match r {
            Some((base, level)) => spec_parse_lod_name(name@) == Some((base@, level as nat)),
            None => spec_parse_lod_name(name@) is None,
        },
{
    let lower = lower_chars(name);
    let chars = chars_of(name);
    assert(lower@.len() == chars@.len());
    let mut j: usize = lower.len();
    assert(lower@.take(j as int) =~= lower@);
    let marker = loop
        invariant
            j <= lower@.len(),
            lower@ == lower_seq(name@),
            rfind_lod(lower_seq(name@)) == rfind_lod(lower@.take(j as int)),
        ensures
            match rfind_lod(lower_seq(name@)) {
                Some(m) => m == j - 3 && j >= 3,
                None => j < 3,
            },
        decreases j,
    {
        if j < 3 {
            break;
        }
        let ghost pre = lower@.take(j as int);
        if lower[j - 3] == 'l' && lower[j - 2] == 'o' && lower[j - 1] == 'd' {
            assert(pre.subrange(pre.len() - 3, pre.len() as int) =~= seq!['l', 'o', 'd']);
            break;
        }
        assert(pre.subrange(pre.len() - 3, pre.len() as int) != seq!['l', 'o', 'd']) by {
            if pre.subrange(pre.len() - 3, pre.len() as int) == seq!['l', 'o', 'd'] {
                assert(pre.subrange(pre.len() - 3, pre.len() as int)[0] == lower@[j - 3]);
                assert(pre.subrange(pre.len() - 3, pre.len() as int)[1] == lower@[j - 2]);
                assert(pre.subrange(pre.len() - 3, pre.len() as int)[2] == lower@[j - 1]);
            }
        }
        assert(pre.drop_last() =~= lower@.take(j - 1));
        j = j - 1;
    };
    if j < 3 {
        return None;
    }
    let m = j - 3;
    if m == 0 {
        return None;
    }
    let level = match parse_usize(&chars, m + 3) {
        Some(v) => v,
        None => {
            return None;
        },
    };
    let mut k: usize = m;
    assert(chars@.take(m as int) =~= chars@.take(k as int));
    while k > 0 && (chars[k - 1] == '_' || chars[k - 1] == '.' || chars[k - 1] == '-' || chars[k
        - 1] == ' ')
        invariant
            k <= m < chars@.len(),
            chars@ == name@,
            trim_separators(chars@.take(m as int)) == trim_separators(chars@.take(k as int)),
        decreases k,
    {
        assert(chars@.take(k as int).drop_last() =~= chars@.take(k - 1));
        k = k - 1;
    }
    if k == 0 {
        return None;
    }
    Some((name.substring_char(0, k), level))
}

/// Two characters that lowercase alike are equal where one of them is not a
/// letter.
proof fn lemma_lower_alike(c: char, d: char)
    requires
        ascii_lower(c) == ascii_lower(d),
        !('a' <= c <= 'z') && !('A' <= c <= 'Z'),
    ensures
        c == d,
{
}

proof fn lemma_usize_ignores_case(x: Seq<char>, y: Seq<char>)
    requires
        lower_seq(x) == lower_seq(y),
    ensures
        spec_parse_usize(x) == spec_parse_usize(y),
{
    assert(x.len() == lower_seq(x).len() && y.len() == lower_seq(y).len());
    assert forall|i: int| 0 <= i < x.len() && (is_ascii_digit(x[i]) || x[i] == '+' || is_ascii_digit(y[i])
        || y[i] == '+') implies #[trigger] x[i] == y[i] by {
        assert(lower_seq(x)[i] == lower_seq(y)[i]);
        assert(lower_seq(x)[i] == ascii_lower(x[i]) && lower_seq(y)[i] == ascii_lower(y[i]));
        if is_ascii_digit(x[i]) || x[i] == '+' {
            lemma_lower_alike(x[i], y[i]);
        } else {
            lemma_lower_alike(y[i], x[i]);
        }
    }
    if x.len() > 0 && x[0] == '+' {
        assert(y[0] == '+');
    }
    if y.len() > 0 && y[0] == '+' {
        assert(x[0] == '+');
    }
    let tx = if x.len() > 0 && x[0] == '+' { x.drop_first() } else { x };
    let ty = if y.len() > 0 && y[0] == '+' { y.drop_first() } else { y };
    if all_digits(tx) {
        assert forall|i: int| 0 <= i < ty.len() implies #[trigger] is_ascii_digit(ty[i]) by {
            let o = x.len() - tx.len();
            assert(tx[i] == x[i + o] && ty[i] == y[i + o]);
            assert(is_ascii_digit(tx[i]));
        }
        assert(tx =~= ty) by {
            let o = x.len() - tx.len();
            assert forall|i: int| 0 <= i < tx.len() implies tx[i] == ty[i] by {
                assert(tx[i] == x[i + o] && ty[i] == y[i + o]);
                assert(is_ascii_digit(tx[i]));
            }
        }
    }
    if all_digits(ty) {
        assert forall|i: int| 0 <= i < tx.len() implies #[trigger] is_ascii_digit(tx[i]) by {
            let o = y.len() - ty.len();
            assert(tx[i] == x[i + o] && ty[i] == y[i + o]);
            assert(is_ascii_digit(ty[i]));
        }
    }
}

proof fn lemma_separators_ignore_case(x: Seq<char>, y: Seq<char>)
    requires
        lower_seq(x) == lower_seq(y),
    ensures
        trim_separators(x).len() == trim_separators(y).len(),
    decreases x.len(),
{
    assert(x.len() == lower_seq(x).len() && y.len() == lower_seq(y).len());
    if x.len() > 0 {
        assert(lower_seq(x)[x.len() - 1] == lower_seq(y)[y.len() - 1]);
        assert(lower_seq(x)[x.len() - 1] == ascii_lower(x.last()));
        assert(lower_seq(y)[y.len() - 1] == ascii_lower(y.last()));
        if is_lod_separator(x.last()) {
            lemma_lower_alike(x.last(), y.last());
        } else if is_lod_separator(y.last()) {
            lemma_lower_alike(y.last(), x.last());
        }
        assert(lower_seq(x.drop_last()) =~= lower_seq(x).drop_last());
        assert(lower_seq(y.drop_last()) =~= lower_seq(y).drop_last());
        lemma_separators_ignore_case(x.drop_last(), y.drop_last());
    }
}

proof fn lemma_rfind_lod_bounds(s: Seq<char>)
    ensures
        rfind_lod(s) matches Some(m) ==> 0 <= m && m + 3 <= s.len(),
    decreases s.len(),
{
    if s.len() >= 3 {
        lemma_rfind_lod_bounds(s.drop_last());
    }
}

/// The level-of-detail marker is read in any case: two names that differ
/// only in the case of their letters (`Rock_LOD1`, `Rock_Lod1`,
/// `rock_lod1`) are either both level-of-detail names, of the same level,
/// or neither is.
pub proof fn law_lod_marker_ignores_case(a: Seq<char>, b: Seq<char>)
    requires
        lower_seq(a) == lower_seq(b),
    ensures
        spec_parse_lod_name(a) is Some <==> spec_parse_lod_name(b) is Some,
        spec_parse_lod_name(a) is Some ==> spec_parse_lod_name(a).unwrap().1 == spec_parse_lod_name(
            b,
        ).unwrap().1,
{
    assert(a.len() == lower_seq(a).len() && b.len() == lower_seq(b).len());
    lemma_rfind_lod_bounds(lower_seq(a));
    if let Some(m) = rfind_lod(lower_seq(a)) {
        if m != 0 {
            assert(lower_seq(a.skip(m + 3)) =~= lower_seq(a).skip(m + 3));
            assert(lower_seq(b.skip(m + 3)) =~= lower_seq(b).skip(m + 3));
            lemma_usize_ignores_case(a.skip(m + 3), b.skip(m + 3));
            assert(lower_seq(a.take(m)) =~= lower_seq(a).take(m));
            assert(lower_seq(b.take(m)) =~= lower_seq(b).take(m));
            lemma_separators_ignore_case(a.take(m), b.take(m));
        }
    }
}

proof fn lemma_rfind_lod_at(s: Seq<char>, p: int)
    requires
        0 <= p,
        p + 3 <= s.len(),
        s.subrange(p, p + 3) == seq!['l', 'o', 'd'],
        forall|k: int| p + 3 <= k < s.len() ==> #[trigger] s[k] != 'd',
    ensures
        rfind_lod(s) == Some(p),
    decreases s.len(),
{
    if s.len() > p + 3 {
        let w = s.subrange(s.len() - 3, s.len() as int);
        assert(w[2] == s[s.len() - 1]);
        assert(seq!['l', 'o', 'd'][2] == 'd');
        assert(w != seq!['l', 'o', 'd']);
        let t = s.drop_last();
        assert(t.subrange(p, p + 3) =~= s.subrange(p, p + 3));
        assert forall|k: int| p + 3 <= k < t.len() implies #[trigger] t[k] != 'd' by {
            assert(t[k] == s[k]);
        }
        lemma_rfind_lod_at(t, p);
    }
}

proof fn lemma_trim_separators_after(base: Seq<char>, seps: Seq<char>)
    requires
        base.len() > 0,
        !is_lod_separator(base.last()),
        forall|i: int| 0 <= i < seps.len() ==> is_lod_separator(#[trigger] seps[i]),
    ensures
        trim_separators(base + seps) == base,
    decreases seps.len(),
{
    if seps.len() == 0 {
        assert(base + seps =~= base);
    } else {
        let s = base + seps;
        assert(s.last() == seps.last());
        assert(s.drop_last() =~= base + seps.drop_last());
        lemma_trim_separators_after(base, seps.drop_last());
    }
}

/// A base name, any run of separators, the marker `lod` in any case, and a
/// level number name a level of detail of that base: `Rock_LOD1`,
/// `Rock.lod1`, `Rock-Lod1` and `RockLOD1` are all level 1 of `Rock`.
pub proof fn law_lod_name(base: Seq<char>, seps: Seq<char>, marker: Seq<char>, digits: Seq<char>)
    requires
        base.len() > 0,
        !is_lod_separator(base.last()),
        forall|i: int| 0 <= i < seps.len() ==> is_lod_separator(#[trigger] seps[i]),
        lower_seq(marker) == seq!['l', 'o', 'd'],
        digits.len() > 0,
        all_digits(digits),
        digits_value(digits) <= usize::MAX,
    ensures
        spec_parse_lod_name(base + seps + marker + digits) == Some((base, digits_value(digits))),
{
    let name = base + seps + marker + digits;
    let p = (base.len() + seps.len()) as int;
    let l = lower_seq(name);
    assert(marker.len() == lower_seq(marker).len());
    assert(seq!['l', 'o', 'd'].len() == 3);
    assert(l.len() == name.len());
    assert(l.subrange(p, p + 3) =~= lower_seq(marker)) by {
        assert forall|k: int| 0 <= k < 3 implies l.subrange(p, p + 3)[k] == lower_seq(marker)[k] by {
            assert(name[p + k] == marker[k]);
            assert(l[p + k] == ascii_lower(name[p + k]));
            assert(lower_seq(marker)[k] == ascii_lower(marker[k]));
        }
    }
    assert forall|k: int| p + 3 <= k < l.len() implies #[trigger] l[k] != 'd' by {
        assert(name[k] == digits[k - p - 3]);
        assert(is_ascii_digit(digits[k - p - 3]));
        assert(l[k] == ascii_lower(name[k]));
    }
    lemma_rfind_lod_at(l, p);
    assert(name.skip(p + 3) =~= digits);
    assert(is_ascii_digit(digits[0]));
    assert(name.take(p) =~= base + seps);
    lemma_trim_separators_after(base, seps);
}

} // verus!
