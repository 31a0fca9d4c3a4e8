//! Character and string primitives, each stated as the specification of the
//! standard-library operation it stands for.

use vstd::prelude::*;
use vstd::string::*;

use crate::decimal::{chars_between, decimal_nonzero, decimal_rounds_nonzero};

verus! {

broadcast use vstd::string::group_string_axioms;

/// `char::is_whitespace`: the Unicode `White_Space` property.
pub open spec fn is_whitespace(c: char) -> bool {
    ||| ('\u{9}' <= c && c <= '\u{d}')
    ||| c == ' '
    ||| c == '\u{85}'
    ||| c == '\u{a0}'
    ||| c == '\u{1680}'
    ||| ('\u{2000}' <= c && c <= '\u{200a}')
    ||| c == '\u{2028}'
    ||| c == '\u{2029}'
    ||| c == '\u{202f}'
    ||| c == '\u{205f}'
    ||| c == '\u{3000}'
}

/// `char::is_ascii_digit`.
pub open spec fn is_ascii_digit(c: char) -> bool {
    '0' <= c && c <= '9'
}

/// `char::is_ascii_alphanumeric`.
pub open spec fn is_ascii_alphanumeric(c: char) -> bool {
    ||| ('0' <= c && c <= '9')
    ||| ('a' <= c && c <= 'z')
    ||| ('A' <= c && c <= 'Z')
}

/// `char::to_ascii_lowercase`.
pub open spec fn ascii_lower(c: char) -> char {
    if 'A' <= c && c <= 'Z' {
        ((c as u32) + 32) as char
    } else {
        c
    }
}

/// `str::to_ascii_lowercase`, character by character.
pub open spec fn lower_seq(s: Seq<char>) -> Seq<char> {
    s.map_values(|c: char| ascii_lower(c))
}

/// Whether every character is an ASCII digit.
pub open spec fn all_digits(s: Seq<char>) -> bool {
    forall|i: int| 0 <= i < s.len() ==> #[trigger] is_ascii_digit(s[i])
}

/// `str::trim_end`.
pub open spec fn trim_end(s: Seq<char>) -> Seq<char>
    decreases s.len(),
{
    if s.len() > 0 && is_whitespace(s.last()) {
        trim_end(s.drop_last())
    } else {
        s
    }
}

/// `str::trim_start`.
pub open spec fn trim_start(s: Seq<char>) -> Seq<char>
    decreases s.len(),
{
    if s.len() > 0 && is_whitespace(s[0]) {
        trim_start(s.drop_first())
    } else {
        s
    }
}

/// `str::trim`.
pub open spec fn trim(s: Seq<char>) -> Seq<char> {
    trim_start(trim_end(s))
}

/// The index of the last occurrence of `c`, as `str::rfind` gives it in
/// characters.
pub open spec fn rfind_char(s: Seq<char>, c: char) -> Option<int>
    decreases s.len(),
{
    if s.len() == 0 {
        None
    } else if s.last() == c {
        Some(s.len() - 1)
    } else {
        rfind_char(s.drop_last(), c)
    }
}

/// The index of the first occurrence of `c`, as `str::find` gives it in
/// characters.
pub open spec fn find_char(s: Seq<char>, c: char) -> Option<int>
    decreases s.len(),
{
    if s.len() == 0 {
        None
    } else if s[0] == c {
        Some(0)
    } else {
        match find_char(s.drop_first(), c) {
            Some(i) => Some(i + 1),
            None => None,
        }
    }
}

pub proof fn lemma_find_char_bounds(s: Seq<char>, c: char)
    ensures
        match find_char(s, c) {
            Some(i) => 0 <= i < s.len() && s[i] == c && forall|j: int| 0 <= j < i ==> s[j] != c,
            None => forall|j: int| 0 <= j < s.len() ==> s[j] != c,
        },
    decreases s.len(),
{
    if s.len() > 0 {
        lemma_find_char_bounds(s.drop_first(), c);
        if s[0] != c {
            match find_char(s.drop_first(), c) {
                Some(i) => {
                    assert forall|j: int| 0 <= j < i + 1 implies s[j] != c by {
                        if j > 0 {
                            assert(s[j] == s.drop_first()[j - 1]);
                        }
                    }
                },
                None => {
                    assert forall|j: int| 0 <= j < s.len() implies s[j] != c by {
                        if j > 0 {
                            assert(s[j] == s.drop_first()[j - 1]);
                        }
                    }
                },
            }
        }
    }
}

pub proof fn lemma_rfind_char_bounds(s: Seq<char>, c: char)
    ensures
        match rfind_char(s, c) {
            Some(i) => 0 <= i < s.len() && s[i] == c && forall|j: int| i < j < s.len() ==> s[j] != c,
            None => forall|j: int| 0 <= j < s.len() ==> s[j] != c,
        },
    decreases s.len(),
{
    if s.len() > 0 {
        lemma_rfind_char_bounds(s.drop_last(), c);
        if s.last() != c {
            assert forall|j: int| 0 <= j < s.len() - 1 implies s[j] == s.drop_last()[j] by {}
        }
    }
}

pub fn char_is_whitespace(c: char) -> (r: bool)
    ensures
        r == is_whitespace(c),
{
    ('\u{9}' <= c && c <= '\u{d}') || c == ' ' || c == '\u{85}' || c == '\u{a0}' || c
        == '\u{1680}' || ('\u{2000}' <= c && c <= '\u{200a}') || c == '\u{2028}' || c
        == '\u{2029}' || c == '\u{202f}' || c == '\u{205f}' || c == '\u{3000}'
}

pub fn char_is_ascii_digit(c: char) -> (r: bool)
    ensures
        r == is_ascii_digit(c),
{
    '0' <= c && c <= '9'
}

pub fn char_is_ascii_alphanumeric(c: char) -> (r: bool)
    ensures
        r == is_ascii_alphanumeric(c),
{
    ('0' <= c && c <= '9') || ('a' <= c && c <= 'z') || ('A' <= c && c <= 'Z')
}

pub fn char_to_ascii_lowercase(c: char) -> (r: char)
    ensures
        r == ascii_lower(c),
{
    if 'A' <= c && c <= 'Z' {
        let b: u8 = c as u8;
        (b + 32) as char
    } else {
        c
    }
}

/// A leading `+` or `-` removed, if there is one.
pub open spec fn without_sign(s: Seq<char>) -> Seq<char> {
    if s.len() > 0 && (s[0] == '+' || s[0] == '-') {
        s.drop_first()
    } else {
        s
    }
}

/// `inf`, `infinity` or `nan`.
pub open spec fn is_special_float(s: Seq<char>) -> bool {
    ||| s == seq!['i', 'n', 'f']
    ||| s == seq!['i', 'n', 'f', 'i', 'n', 'i', 't', 'y']
    ||| s == seq!['n', 'a', 'n']
}

/// `Digit+ | Digit+ '.' Digit* | Digit* '.' Digit+`.
pub open spec fn is_mantissa(m: Seq<char>) -> bool {
    match find_char(m, '.') {
        None => m.len() > 0 && all_digits(m),
        Some(p) => all_digits(m.take(p)) && all_digits(m.skip(p + 1)) && m.len() > 1,
    }
}

/// `Sign? Digit+`, the digits of an exponent.
pub open spec fn is_exponent_digits(x: Seq<char>) -> bool {
    without_sign(x).len() > 0 && all_digits(without_sign(x))
}

/// `Number ::= Mantissa Exp?` with `Exp ::= 'e' Sign? Digit+`, on lowercased text.
pub open spec fn is_decimal_literal(u: Seq<char>) -> bool {
    match find_char(u, 'e') {
        None => is_mantissa(u),
        Some(p) => is_mantissa(u.take(p)) && is_exponent_digits(u.skip(p + 1)),
    }
}

/// Whether `<f64 as FromStr>::from_str` accepts `s`: the standard library
/// documents its grammar, on the lowercased text, as
/// `Sign? ( 'inf' | 'infinity' | 'nan' | Number )`.
pub open spec fn is_float_literal(s: Seq<char>) -> bool {
    let u = without_sign(lower_seq(s));
    is_special_float(u) || is_decimal_literal(u)
}

/// Whether a float literal reads as a value other than zero: an infinity, a
/// NaN, or a decimal number that does not round to zero as an `f64` (see
/// [`decimal_rounds_nonzero`]); text outside the grammar counts as nonzero
/// when its mantissa has a nonzero digit.
pub open spec fn literal_is_nonzero(s: Seq<char>) -> bool {
    let u = without_sign(lower_seq(s));
    if is_special_float(u) {
        true
    } else if is_decimal_literal(u) {
        decimal_rounds_nonzero(u)
    } else {
        exists|i: int|
            0 <= i < mantissa_of(u).len() && '1' <= #[trigger] mantissa_of(u)[i] && mantissa_of(u)[i]
                <= '9'
    }
}

/// The text before the exponent marker.
pub open spec fn mantissa_of(u: Seq<char>) -> Seq<char> {
    match find_char(u, 'e') {
        None => u,
        Some(p) => u.take(p),
    }
}

/// `String::push`: claims that the string afterwards holds its old
/// characters followed by `c`.
#[verifier::external_body]
pub(crate) fn string_push(s: &mut String, c: char)
    ensures
        final(s)@ == old(s)@.push(c),
{
    s.push(c);
}

/// The characters of a string slice.
pub fn chars_of(s: &str) -> (v: Vec<char>)
    ensures
        v@ == s@,
{
    let mut v: Vec<char> = Vec::new();
    for c in it: s.chars()
        invariant
            v@ == it.seq().take(it.index() as int),
            it.seq() == s@,
    {
        v.push(c);
    }
    v
}

/// The length of `str::trim_end(s)`, in characters.
pub fn trim_end_len(s: &Vec<char>) -> (n: usize)
    ensures
        n <= s@.len(),
        trim_end(s@) == s@.take(n as int),
{
    let mut j: usize = s.len();
    assert(s@.take(s@.len() as int) =~= s@);
    while j > 0 && char_is_whitespace(s[j - 1])
        invariant
            j <= s@.len(),
            trim_end(s@) == trim_end(s@.take(j as int)),
        decreases j,
    {
        assert(s@.take(j as int).drop_last() =~= s@.take(j - 1));
        j = j - 1;
    }
    j
}

/// The number of leading characters `str::trim_start` removes from `s[..end]`.
pub fn trim_start_len(s: &Vec<char>, end: usize) -> (n: usize)
    requires
        end <= s@.len(),
    ensures
        n <= end,
        trim_start(s@.take(end as int)) == s@.subrange(n as int, end as int),
{
    let mut i: usize = 0;
    assert(s@.take(end as int) =~= s@.subrange(0, end as int));
    while i < end && char_is_whitespace(s[i])
        invariant
            i <= end <= s@.len(),
            trim_start(s@.take(end as int)) == trim_start(s@.subrange(i as int, end as int)),
        decreases end - i,
    {
        assert(s@.subrange(i as int, end as int).drop_first() =~= s@.subrange(i + 1, end as int));
        i = i + 1;
    }
    i
}

/// The last position of `c` in `s[..end]`.
pub fn rfind_in(s: &Vec<char>, end: usize, c: char) -> (r: Option<usize>)
    requires
        end <= s@.len(),
    ensures
        match r {
            Some(p) => rfind_char(s@.take(end as int), c) == Some(p as int) && p < end,
            None => rfind_char(s@.take(end as int), c) is None,
        },
{
    let mut j: usize = end;
    while j > 0
        invariant
            j <= end <= s@.len(),
            rfind_char(s@.take(end as int), c) == rfind_char(s@.take(j as int), c),
        decreases j,
    {
        if s[j - 1] == c {
            return Some(j - 1);
        }
        assert(s@.take(j as int).drop_last() =~= s@.take(j - 1));
        j = j - 1;
    }
    None
}

/// The first position of `c` in `s[start..end]`, counted from `start`.
pub fn find_in(s: &Vec<char>, start: usize, end: usize, c: char) -> (r: Option<usize>)
    requires
        start <= end <= s@.len(),
    ensures
        match r {
            Some(p) => find_char(s@.subrange(start as int, end as int), c) == Some(p as int)
                && start + p < end,
            None => find_char(s@.subrange(start as int, end as int), c) is None,
        },
{
    let mut i: usize = start;
    while i < end
        invariant
            start <= i <= end <= s@.len(),
            find_char(s@.subrange(start as int, end as int), c) == match find_char(
                s@.subrange(i as int, end as int),
                c,
            ) {
                Some(k) => Some(k + (i - start)),
                None => None,
            },
        decreases end - i,
    {
        if s[i] == c {
            return Some(i - start);
        }
        assert(s@.subrange(i as int, end as int).drop_first() =~= s@.subrange(i + 1, end as int));
        i = i + 1;
    }
    None
}

/// Whether `s[start..end]` is all ASCII digits.
pub fn all_digits_in(s: &Vec<char>, start: usize, end: usize) -> (r: bool)
    requires
        start <= end <= s@.len(),
    ensures
        r == all_digits(s@.subrange(start as int, end as int)),
{
    let mut i: usize = start;
    while i < end
        invariant
            start <= i <= end <= s@.len(),
            forall|k: int| start <= k < i ==> is_ascii_digit(#[trigger] s@[k]),
        decreases end - i,
    {
        if !char_is_ascii_digit(s[i]) {
            assert(!is_ascii_digit(s@.subrange(start as int, end as int)[i - start]));
            return false;
        }
        i = i + 1;
    }
    assert forall|k: int| 0 <= k < end - start implies #[trigger] is_ascii_digit(
        s@.subrange(start as int, end as int)[k],
    ) by {
        assert(s@.subrange(start as int, end as int)[k] == s@[start + k]);
    }
    true
}

/// The order `String` keys are kept in by `BTreeMap`: lexicographic by
/// character (UTF-8 byte order and code-point order agree).
pub open spec fn key_lt(a: Seq<char>, b: Seq<char>) -> bool
    decreases a.len(),
{
    if a.len() == 0 {
        b.len() > 0
    } else if b.len() == 0 {
        false
    } else if a[0] == b[0] {
        key_lt(a.drop_first(), b.drop_first())
    } else {
        a[0] < b[0]
    }
}

pub proof fn lemma_key_lt_irreflexive(a: Seq<char>)
    ensures
        !key_lt(a, a),
    decreases a.len(),
{
    if a.len() > 0 {
        lemma_key_lt_irreflexive(a.drop_first());
    }
}

pub proof fn lemma_key_lt_transitive(a: Seq<char>, b: Seq<char>, c: Seq<char>)
    requires
        key_lt(a, b),
        key_lt(b, c),
    ensures
        key_lt(a, c),
    decreases a.len(),
{
    if a.len() > 0 && b.len() > 0 && c.len() > 0 && a[0] == b[0] && b[0] == c[0] {
        lemma_key_lt_transitive(a.drop_first(), b.drop_first(), c.drop_first());
    }
}

pub proof fn lemma_key_lt_total(a: Seq<char>, b: Seq<char>)
    ensures
        a == b || key_lt(a, b) || key_lt(b, a),
    decreases a.len(),
{
    if a.len() > 0 && b.len() > 0 && a[0] == b[0] {
        lemma_key_lt_total(a.drop_first(), b.drop_first());
        if a.drop_first() == b.drop_first() {
            assert(a =~= seq![a[0]] + a.drop_first());
            assert(b =~= seq![b[0]] + b.drop_first());
        }
    } else if a.len() == 0 && b.len() == 0 {
        assert(a =~= b);
    }
}

pub proof fn lemma_key_lt_asymmetric(a: Seq<char>, b: Seq<char>)
    requires
        key_lt(a, b),
    ensures
        !key_lt(b, a),
        a != b,
{
    lemma_key_lt_irreflexive(a);
    if key_lt(b, a) {
        lemma_key_lt_transitive(a, b, a);
    }
}

/// The outcome of comparing two keys.
pub enum KeyOrder {
    Less,
    Equal,
    Greater,
}

/// Compare two character sequences in key order.
pub fn key_order(a: &Vec<char>, b: &Vec<char>) -> (r: KeyOrder)
    ensures
        r is Less <==> key_lt(a@, b@),
        r is Equal <==> a@ == b@,
        r is Greater <==> key_lt(b@, a@),
{
    proof {
        lemma_key_lt_total(a@, b@);
        lemma_key_lt_irreflexive(a@);
        if key_lt(a@, b@) {
            lemma_key_lt_asymmetric(a@, b@);
        }
        if key_lt(b@, a@) {
            lemma_key_lt_asymmetric(b@, a@);
        }
    }
    let mut i: usize = 0;
    assert(a@.skip(0) =~= a@);
    assert(b@.skip(0) =~= b@);
    while i < a.len() && i < b.len()
        invariant
            i <= a@.len(),
            i <= b@.len(),
            a@.take(i as int) == b@.take(i as int),
            key_lt(a@, b@) == key_lt(a@.skip(i as int), b@.skip(i as int)),
            key_lt(b@, a@) == key_lt(b@.skip(i as int), a@.skip(i as int)),
        decreases a@.len() - i,
    {
        if a[i] != b[i] {
            if a[i] < b[i] {
                return KeyOrder::Less;
            } else {
                return KeyOrder::Greater;
            }
        }
        assert(a@.skip(i as int).drop_first() =~= a@.skip(i + 1));
        assert(b@.skip(i as int).drop_first() =~= b@.skip(i + 1));
        assert(a@.take(i + 1) =~= a@.take(i as int).push(a@[i as int]));
        assert(b@.take(i + 1) =~= b@.take(i as int).push(b@[i as int]));
        i = i + 1;
    }
    if i < b.len() {
        KeyOrder::Less
    } else if i < a.len() {
        KeyOrder::Greater
    } else {
        assert(a@ =~= a@.take(i as int));
        assert(b@ =~= b@.take(i as int));
        KeyOrder::Equal
    }
}

/// `str::trim`, as a slice of its input.
pub fn trim_str(s: &str) -> (r: &str)
    ensures
        r@ == trim(s@),
{
    let c = chars_of(s);
    let n = trim_end_len(&c);
    let a = trim_start_len(&c, n);
    s.substring_char(a, n)
}

/// Whether two character vectors are equal.
pub fn chars_equal(a: &Vec<char>, b: &Vec<char>) -> (r: bool)
    ensures
        r == (a@ == b@),
{
    match key_order(a, b) {
        KeyOrder::Equal => true,
        _ => false,
    }
}

/// Whether two string slices hold the same characters.
pub fn same_text(a: &str, b: &str) -> (r: bool)
    ensures
        r == (a@ == b@),
{
    let x = chars_of(a);
    let y = chars_of(b);
    match key_order(&x, &y) {
        KeyOrder::Equal => true,
        _ => false,
    }
}

/// The characters of `s`, lowercased (`str::to_ascii_lowercase`).
pub fn lower_chars(s: &str) -> (v: Vec<char>)
    ensures
        v@ == lower_seq(s@),
{
    let c = chars_of(s);
    let mut v: Vec<char> = Vec::new();
    let mut i: usize = 0;
    while i < c.len()
        invariant
            i <= c@.len(),
            c@ == s@,
            v@ == lower_seq(c@.take(i as int)),
        decreases c@.len() - i,
    {
        v.push(char_to_ascii_lowercase(c[i]));
        i = i + 1;
        assert(lower_seq(c@.take(i as int)) =~= lower_seq(c@.take(i - 1)).push(ascii_lower(c@[i - 1])));
    }
    assert(c@.take(c@.len() as int) =~= c@);
    v
}

/// The position just past an optional leading sign in `s[start..end]`.
fn skip_sign(s: &Vec<char>, start: usize, end: usize) -> (r: usize)
    requires
        start <= end <= s@.len(),
    ensures
        s@.subrange(r as int, end as int) == without_sign(s@.subrange(start as int, end as int)),
        start <= r <= end,
{
    if start < end && (s[start] == '+' || s[start] == '-') {
        assert(s@.subrange(start as int, end as int).drop_first() =~= s@.subrange(
            start + 1,
            end as int,
        ));
        start + 1
    } else {
        start
    }
}

/// Whether `s[start..end]` equals `word`.
fn matches_word(s: &Vec<char>, start: usize, end: usize, word: &Vec<char>) -> (r: bool)
    requires
        start <= end <= s@.len(),
    ensures
        r == (s@.subrange(start as int, end as int) == word@),
{
    if end - start != word.len() {
        return false;
    }
    let mut i: usize = 0;
    while i < word.len()
        invariant
            end - start == word@.len(),
            start <= end <= s@.len(),
            i <= word@.len(),
            forall|k: int| 0 <= k < i ==> s@[start + k] == #[trigger] word@[k],
        decreases word@.len() - i,
    {
        if s[start + i] != word[i] {
            assert(s@.subrange(start as int, end as int)[i as int] != word@[i as int]);
            return false;
        }
        i = i + 1;
    }
    assert(s@.subrange(start as int, end as int) =~= word@);
    true
}

/// Whether `s[start..end]` is `inf`, `infinity` or `nan`.
fn is_special_in(s: &Vec<char>, start: usize, end: usize) -> (r: bool)
    requires
        start <= end <= s@.len(),
    ensures
        r == is_special_float(s@.subrange(start as int, end as int)),
{
    let inf = vec!['i', 'n', 'f'];
    let infinity = vec!['i', 'n', 'f', 'i', 'n', 'i', 't', 'y'];
    let nan = vec!['n', 'a', 'n'];
    proof {
        assert(inf@ =~= seq!['i', 'n', 'f']);
        assert(infinity@ =~= seq!['i', 'n', 'f', 'i', 'n', 'i', 't', 'y']);
        assert(nan@ =~= seq!['n', 'a', 'n']);
    }
    matches_word(s, start, end, &inf) || matches_word(s, start, end, &infinity) || matches_word(
        s,
        start,
        end,
        &nan,
    )
}

/// Whether `s[start..end]` is a mantissa.
fn is_mantissa_in(s: &Vec<char>, start: usize, end: usize) -> (r: bool)
    requires
        start <= end <= s@.len(),
    ensures
        r == is_mantissa(s@.subrange(start as int, end as int)),
{
    let ghost m = s@.subrange(start as int, end as int);
    match find_in(s, start, end, '.') {
        None => end > start && all_digits_in(s, start, end),
        Some(p) => {
            assert(m.take(p as int) =~= s@.subrange(start as int, start + p));
            assert(m.skip(p + 1) =~= s@.subrange(start + p + 1, end as int));
            all_digits_in(s, start, start + p) && all_digits_in(s, start + p + 1, end) && end
                - start > 1
        },
    }
}

/// Whether `s[start..end]` is a decimal literal (mantissa and exponent).
fn is_decimal_in(s: &Vec<char>, start: usize, end: usize) -> (r: bool)
    requires
        start <= end <= s@.len(),
    ensures
        r == is_decimal_literal(s@.subrange(start as int, end as int)),
{
    let ghost u = s@.subrange(start as int, end as int);
    match find_in(s, start, end, 'e') {
        None => is_mantissa_in(s, start, end),
        Some(p) => {
            assert(u.take(p as int) =~= s@.subrange(start as int, start + p));
            let e = skip_sign(s, start + p + 1, end);
            assert(u.skip(p + 1) =~= s@.subrange(start + p + 1, end as int));
            let ok = is_mantissa_in(s, start, start + p);
            if !ok {
                return false;
            }
            e < end && all_digits_in(s, e, end)
        },
    }
}

/// Whether `text` is accepted by Rust's `f64` parser.
pub fn float_literal(text: &str) -> (r: bool)
    ensures
        r == is_float_literal(text@),
{
    let t = lower_chars(text);
    assert(t@.subrange(0, t@.len() as int) =~= t@);
    let start = skip_sign(&t, 0, t.len());
    is_special_in(&t, start, t.len()) || is_decimal_in(&t, start, t.len())
}

/// Whether a float literal denotes a nonzero value.
pub fn literal_nonzero(text: &str) -> (r: bool)
    ensures
        r == literal_is_nonzero(text@),
{
    let t = lower_chars(text);
    assert(t@.subrange(0, t@.len() as int) =~= t@);
    let start = skip_sign(&t, 0, t.len());
    let ghost u = t@.subrange(start as int, t@.len() as int);
    if is_special_in(&t, start, t.len()) {
        return true;
    }
    if is_decimal_in(&t, start, t.len()) {
        let digits = chars_between(&t, start, t.len());
        return decimal_nonzero(&digits);
    }
    let end = match find_in(&t, start, t.len(), 'e') {
        None => t.len(),
        Some(p) => {
            assert(u.take(p as int) =~= t@.subrange(start as int, start + p));
            start + p
        },
    };
    let ghost m = mantissa_of(u);
    assert(m =~= t@.subrange(start as int, end as int));
    let mut i: usize = start;
    while i < end
        invariant
            start <= i <= end <= t@.len(),
            m == t@.subrange(start as int, end as int),
            u == without_sign(lower_seq(text@)),
            !is_special_float(u) && !is_decimal_literal(u),
            m == mantissa_of(u),
            forall|k: int| 0 <= k < i - start ==> !('1' <= #[trigger] m[k] && m[k] <= '9'),
        decreases end - i,
    {
        if '1' <= t[i] && t[i] <= '9' {
            assert(0 <= i - start < mantissa_of(u).len());
            assert('1' <= mantissa_of(u)[i - start] && mantissa_of(u)[i - start] <= '9');
            return true;
        }
        i = i + 1;
    }
    false
}

/// The texts of a list of strings.
pub open spec fn texts_of(s: Seq<String>) -> Seq<Seq<char>> {
    s.map_values(|x: String| x@)
}

/// A set of strings, compared exactly, kept in insertion order.
#[derive(Debug)]
pub struct TextSet {
    items: Vec<String>,
}

impl View for TextSet {
    type V = Set<Seq<char>>;

    closed spec fn view(&self) -> Set<Seq<char>> {
        texts_of(self.items@).to_set()
    }
}

impl TextSet {
    /// The members in the order they were first added.
    pub closed spec fn order(self) -> Seq<Seq<char>> {
        texts_of(self.items@)
    }

    /// The members are those of the order.
    pub proof fn lemma_order(self)
        ensures
            self.order().to_set() == self@,
    {
    }

    /// An empty set.
    pub fn new() -> (r: Self)
        ensures
            r@ == Set::<Seq<char>>::empty(),
            r.order().len() == 0,
    {
        let r = TextSet { items: Vec::new() };
        assert(texts_of(r.items@) =~= Seq::<Seq<char>>::empty());
        assert(r@ =~= Set::<Seq<char>>::empty());
        r
    }

    /// Whether `text` is a member.
    pub fn contains(&self, text: &str) -> (r: bool)
        ensures
            r == self@.contains(text@),
    {
        let mut i: usize = 0;
        while i < self.items.len()
            invariant
                i <= self.items@.len(),
                forall|j: int| 0 <= j < i ==> #[trigger] self.items@[j]@ != text@,
            decreases self.items@.len() - i,
        {
            if same_text(self.items[i].as_str(), text) {
                assert(texts_of(self.items@)[i as int] == text@);
                return true;
            }
            i = i + 1;
        }
        proof {
            if self@.contains(text@) {
                let j = choose|j: int| 0 <= j < texts_of(self.items@).len() && texts_of(self.items@)[j] == text@;
                assert(self.items@[j]@ == text@);
            }
        }
        false
    }

    /// Add `text`; true when it was not a member before.
    pub fn insert(&mut self, text: String) -> (r: bool)
        ensures
            r == !old(self)@.contains(text@),
            final(self)@ == old(self)@.insert(text@),
            final(self).order() == if r {
                old(self).order().push(text@)
            } else {
                old(self).order()
            },
    {
        if self.contains(text.as_str()) {
            proof {
                assert(self@.insert(text@) =~= self@);
            }
            return false;
        }
        let ghost before = self.items@;
        self.items.push(text);
        proof {
            assert(texts_of(self.items@) =~= texts_of(before).push(self.items@.last()@));
            texts_of(before).lemma_push_to_set_commute(self.items@.last()@);
            assert(texts_of(self.items@).to_set() =~= texts_of(before).to_set().insert(
                self.items@.last()@,
            ));
        }
        true
    }

    /// The members, in the order they were first added.
    pub fn iter(&self) -> (r: &[String])
        ensures
            texts_of(r@) == self.order(),
    {
        self.items.as_slice()
    }
}

/// The character of a decimal digit.
pub open spec fn digit_char(d: nat) -> char {
    ((48 + d) as u32) as char
}

/// A number written in decimal, as `Display` writes an unsigned integer.
pub open spec fn decimal(n: nat) -> Seq<char>
    decreases n,
{
    if n < 10 {
        seq![digit_char(n)]
    } else {
        decimal(n / 10).push(digit_char(n % 10))
    }
}

/// The character of a decimal digit.
fn digit(d: usize) -> (c: char)
    requires
        d < 10,
    ensures
        c == digit_char(d as nat),
{
    let b: u8 = 48 + (d as u8);
    b as char
}

/// A number written in decimal.
pub fn decimal_text(n: usize) -> (r: String)
    ensures
        r@ == decimal(n as nat),
    decreases n,
{
    if n < 10 {
        let mut s = String::new();
        string_push(&mut s, digit(n));
        assert(s@ =~= seq![digit_char(n as nat)]);
        s
    } else {
        let mut s = decimal_text(n / 10);
        string_push(&mut s, digit(n % 10));
        s
    }
}

} // verus!
