//! Turning node names and `extras` text into tags.

use vstd::prelude::*;
use vstd::string::*;

use crate::assoc::distinct_keys;
use crate::tag::component::{tags_model, StageTag, StageTags, StageTagsModel, TagModel, TagSource};
use crate::tag::json::{
    json_as_array, json_as_bool, json_as_str, json_from_str, json_is_null, json_members,
    json_model, json_number_text, json_read,
};
use crate::tag::value::{
    clone_params, lemma_list_model, list_model, TagParams, TagValue, ValueModel,
};
use crate::text::{
    lemma_find_char_bounds, lemma_rfind_char_bounds, all_digits, all_digits_in, chars_equal, chars_of,
    find_char, find_in, float_literal, is_ascii_digit,
    is_float_literal, lower_chars, lower_seq, rfind_char, rfind_in, trim, trim_end, trim_end_len,
    trim_str, ascii_lower, is_whitespace, trim_start, is_mantissa, without_sign, is_special_float,
};

verus! {

/// The default `extras` property that names a node's tags.
pub const DEFAULT_DISCRIMINATOR: &'static str = "stage_tag";

/// A failure while reading a node's metadata.
#[derive(Debug, PartialEq)]
pub enum TagParseError {
    /// The `extras` blob was not valid JSON; the message says why.
    InvalidJson(String),
    /// The `extras` blob parsed but was not a JSON object; the type found.
    NotAnObject(&'static str),
    /// The discriminator property held something other than a tag name or a
    /// list of tag names.
    BadDiscriminator {
        /// The discriminator property name in use.
        discriminator: String,
        /// The type actually found.
        found: &'static str,
    },
}

/// The text of a parse error, naming what was wrong.
pub open spec fn spec_error_message(e: ParseErrorModel) -> Seq<char> {
    match e {
        ParseErrorModel::InvalidJson(m) => "extras is not valid JSON: "@ + m,
        ParseErrorModel::NotAnObject(k) => "extras must be a JSON object, found "@ + k,
        ParseErrorModel::BadDiscriminator(d, k) => "`"@ + d + "` must be a string or list of strings, found "@
            + k,
    }
}

impl TagParseError {
    /// What went wrong, as a sentence for a log line.
    pub fn message(&self) -> (r: String)
        ensures
            r@ == spec_error_message(self@),
    {
        let mut m = String::new();
        match self {
            TagParseError::InvalidJson(why) => {
                m.append("extras is not valid JSON: ");
                m.append(why.as_str());
            },
            TagParseError::NotAnObject(kind) => {
                m.append("extras must be a JSON object, found ");
                m.append(kind);
            },
            TagParseError::BadDiscriminator { discriminator, found } => {
                m.append("`");
                m.append(discriminator.as_str());
                m.append("` must be a string or list of strings, found ");
                m.append(found);
            },
        }
        assert(m@ =~= spec_error_message(self@));
        m
    }
}

/// Convert parsed JSON into the plugin's value model.
pub fn json_to_tag_value(value: &serde_json::Value) -> (r: TagValue)
    ensures
        r@ == json_model(*value),
    decreases json_model(*value),
{
    if json_is_null(value) {
        return TagValue::Null;
    }
    if let Some(b) = json_as_bool(value) {
        return TagValue::Bool(b);
    }
    if let Some(t) = json_number_text(value) {
        return TagValue::Number(t);
    }
    if let Some(s) = json_as_str(value) {
        return TagValue::String(s.to_owned());
    }
    if let Some(a) = json_as_array(value) {
        let ghost items = json_model(*value)->List_0;
        let mut out: Vec<TagValue> = Vec::new();
        let mut i: usize = 0;
        while i < a.len()
            invariant
                json_model(*value) == ValueModel::List(items),
                a@.len() == items.len(),
                forall|j: int| 0 <= j < items.len() ==> #[trigger] json_model(a@[j]) == items[j],
                i <= a@.len(),
                out@.len() == i,
                forall|j: int| 0 <= j < i ==> #[trigger] out@[j]@ == items[j],
            decreases a@.len() - i,
        {
            proof {
                assert(decreases_to!(json_model(*value) => json_model(*value)->List_0));
                assert(decreases_to!(items => items[i as int]));
            }
            let v = json_to_tag_value(&a[i]);
            out.push(v);
            i = i + 1;
        }
        proof {
            lemma_list_model(out@);
            assert forall|j: int| 0 <= j < items.len() implies #[trigger] list_model(out@)[j] == items[j] by {
                assert(out@[j]@ == items[j]);
            }
            assert(list_model(out@) =~= items);
        }
        return TagValue::List(out);
    }
    if let Some(members) = json_members(value) {
        let ghost table = json_model(*value)->Table_0;
        let mut p = TagParams::new();
        let mut i: usize = 0;
        while i < members.len()
            invariant
                json_model(*value) == ValueModel::Table(table),
                table.dom().finite(),
                distinct_keys(members@),
                forall|k: Seq<char>|
                    table.contains_key(k) <==> exists|j: int|
                        0 <= j < members@.len() && #[trigger] members@[j].0@ == k,
                forall|j: int|
                    0 <= j < members@.len() ==> #[trigger] table[members@[j].0@] == json_model(
                        members@[j].1,
                    ),
                i <= members@.len(),
                forall|k: Seq<char>|
                    p@.contains_key(k) <==> exists|j: int| 0 <= j < i && #[trigger] members@[j].0@ == k,
                forall|k: Seq<char>| #[trigger] p@.contains_key(k) ==> p@[k] == table[k],
            decreases members@.len() - i,
        {
            proof {
                assert(table.contains_key(members@[i as int].0@));
                assert(decreases_to!(json_model(*value) => json_model(*value)->Table_0));
                assert(decreases_to!(table => table[members@[i as int].0@]));
            }
            let v = json_to_tag_value(&members[i].1);
            let k = members[i].0.clone();
            p.insert(k, v);
            proof {
                assert forall|k2: Seq<char>| p@.contains_key(k2) implies exists|j: int|
                    0 <= j < i + 1 && #[trigger] members@[j].0@ == k2 by {
                    if k2 != members@[i as int].0@ {
                        let j = choose|j: int| 0 <= j < i && #[trigger] members@[j].0@ == k2;
                    }
                }
            }
            i = i + 1;
        }
        proof {
            assert(p@ =~= table);
        }
        return TagValue::Object(p);
    }
    proof {
        assert(false);
    }
    TagValue::Null
}

/// A name with Blender's `.001` duplicate suffix removed: trailing whitespace
/// is trimmed, then a final `.` followed by one or more ASCII digits is cut
/// off, provided something precedes the dot.
pub open spec fn spec_strip_duplicate_suffix(raw: Seq<char>) -> Seq<char> {
    let t = trim_end(raw);
    match rfind_char(t, '.') {
        Some(p) => {
            let head = t.take(p);
            let tail = t.skip(p + 1);
            if tail.len() > 0 && all_digits(tail) && head.len() > 0 {
                head
            } else {
                t
            }
        },
        None => t,
    }
}

/// Strip a trailing `.001`-style suffix, which Blender appends to duplicates.
pub fn strip_duplicate_suffix(raw: &str) -> (r: &str)
    ensures
        r@ == spec_strip_duplicate_suffix(raw@),
{
    let chars = chars_of(raw);
    let n = trim_end_len(&chars);
    match rfind_in(&chars, n, '.') {
        Some(p) => {
            assert(chars@.take(n as int).skip(p + 1) =~= chars@.subrange(p + 1, n as int));
            if p + 1 < n && all_digits_in(&chars, p + 1, n) && p > 0 {
                assert(chars@.take(n as int).take(p as int) =~= chars@.take(p as int));
                raw.substring_char(0, p)
            } else {
                raw.substring_char(0, n)
            }
        },
        None => raw.substring_char(0, n),
    }
}

/// Blender's duplicate suffixes are ignored: `Name.001`, `Name.002`, … all
/// stand for `Name`.
pub proof fn law_duplicate_suffix_is_ignored(name: Seq<char>, digits: Seq<char>)
    requires
        name.len() > 0,
        digits.len() > 0,
        all_digits(digits),
    ensures
        spec_strip_duplicate_suffix(name + seq!['.'] + digits) == name,
{
    let s = name + seq!['.'] + digits;
    let p = name.len() as int;
    assert(is_ascii_digit(digits[digits.len() - 1]));
    assert(s.last() == digits[digits.len() - 1]);
    assert(trim_end(s) == s);
    lemma_rfind_char_bounds(s, '.');
    assert(s[p] == '.');
    assert forall|j: int| p < j < s.len() implies s[j] != '.' by {
        assert(s[j] == digits[j - p - 1]);
        assert(is_ascii_digit(digits[j - p - 1]));
    }
    match rfind_char(s, '.') {
        Some(i) => {
            assert(i == p);
        },
        None => {
            assert(false);
        },
    }
    assert(s.take(p) =~= name);
    assert(s.skip(p + 1) =~= digits);
}

/// A bare word in a name's brackets is a flag: `Door[locked]` means
/// `locked = true`, and the name's base is what comes before the bracket.
pub proof fn law_bare_word_is_a_flag(base: Seq<char>, word: Seq<char>)
    requires
        forall|i: int| 0 <= i < base.len() ==> base[i] != '[',
        word.len() > 0,
        trim(word) == word,
        forall|i: int| 0 <= i < word.len() ==> word[i] != ',' && word[i] != '=',
    ensures
        spec_parse_node_name(base + seq!['['] + word + seq![']']).0 == trim(base),
        spec_parse_node_name(base + seq!['['] + word + seq![']']).1 == Map::<Seq<char>, ValueModel>::empty().insert(
            word,
            ValueModel::Bool(true),
        ),
{
    lemma_bracketed(base, word);
    // One entry, with no `=`: a flag.
    lemma_find_char_bounds(word, ',');
    assert(find_char(word, ',') is None) by {
        if let Some(i) = find_char(word, ',') {
            assert(word[i] != ',');
        }
    }
    lemma_find_char_bounds(word, '=');
    assert(find_char(word, '=') is None) by {
        if let Some(i) = find_char(word, '=') {
            assert(word[i] != '=');
        }
    }
}

/// How an inline parameter value is read: `true`/`false` in any case as a
/// boolean, then anything Rust's `f64` parser accepts as a number, then a
/// string, with one pair of surrounding double quotes removed.
pub open spec fn spec_parse_scalar(raw: Seq<char>) -> ValueModel {
    let l = lower_seq(raw);
    if l == seq!['t', 'r', 'u', 'e'] {
        ValueModel::Bool(true)
    } else if l == seq!['f', 'a', 'l', 's', 'e'] {
        ValueModel::Bool(false)
    } else if is_float_literal(raw) {
        ValueModel::Number(raw)
    } else if raw.len() >= 2 && raw[0] == '"' && raw.last() == '"' {
        ValueModel::Text(raw.subrange(1, raw.len() - 1))
    } else {
        ValueModel::Text(raw)
    }
}

/// Interpret an inline parameter value, preferring the most specific type.
pub fn parse_scalar(raw: &str) -> (r: TagValue)
    ensures
        r@ == spec_parse_scalar(raw@),
{
    let l = lower_chars(raw);
    let t = vec!['t', 'r', 'u', 'e'];
    let f = vec!['f', 'a', 'l', 's', 'e'];
    assert(t@ =~= seq!['t', 'r', 'u', 'e']);
    assert(f@ =~= seq!['f', 'a', 'l', 's', 'e']);
    if chars_equal(&l, &t) {
        return TagValue::Bool(true);
    }
    if chars_equal(&l, &f) {
        return TagValue::Bool(false);
    }
    if float_literal(raw) {
        return TagValue::Number(raw.to_owned());
    }
    let c = chars_of(raw);
    let n = c.len();
    if n >= 2 && c[0] == '"' && c[n - 1] == '"' {
        TagValue::String(raw.substring_char(1, n - 1).to_owned())
    } else {
        TagValue::String(raw.to_owned())
    }
}

/// An inline value spelled `true` or `false`, in any case, reads as that
/// boolean.
pub proof fn law_scalar_booleans(raw: Seq<char>)
    ensures
        lower_seq(raw) == seq!['f', 'a', 'l', 's', 'e'] ==> spec_parse_scalar(raw) == ValueModel::Bool(false),
        lower_seq(raw) == seq!['t', 'r', 'u', 'e'] ==> spec_parse_scalar(raw) == ValueModel::Bool(true),
{
    let l = lower_seq(raw);
    if l == seq!['f', 'a', 'l', 's', 'e'] {
        assert(l.len() == 5 && seq!['t', 'r', 'u', 'e'].len() == 4);
    }
}

proof fn lemma_quote_is_no_mantissa(m: Seq<char>)
    requires
        m.len() > 0,
        m[0] == '"',
    ensures
        !is_mantissa(m),
{
    lemma_find_char_bounds(m, '.');
    assert(!is_ascii_digit(m[0]));
    if let Some(p) = find_char(m, '.') {
        assert(p > 0);
        assert(m.take(p)[0] == m[0]);
    }
}

/// A value in double quotes is always the text between them, whatever that
/// text spells: `Sign[label="12"]` labels the sign `12`, and `"true"` is the
/// word, not the boolean.
pub proof fn law_quoted_value_is_text(x: Seq<char>)
    ensures
        spec_parse_scalar(seq!['"'] + x + seq!['"']) == ValueModel::Text(x),
{
    let raw = seq!['"'] + x + seq!['"'];
    let l = lower_seq(raw);
    assert(l[0] == ascii_lower(raw[0]));
    assert(raw[0] == '"');
    let u = without_sign(l);
    assert(u == l);
    assert(seq!['t', 'r', 'u', 'e'][0] == 't' && seq!['f', 'a', 'l', 's', 'e'][0] == 'f');
    assert(seq!['i', 'n', 'f'][0] == 'i' && seq!['i', 'n', 'f', 'i', 'n', 'i', 't', 'y'][0] == 'i');
    assert(seq!['n', 'a', 'n'][0] == 'n');
    assert(!is_special_float(u));
    lemma_find_char_bounds(u, 'e');
    match find_char(u, 'e') {
        None => {
            lemma_quote_is_no_mantissa(u);
        },
        Some(p) => {
            assert(p > 0);
            assert(u.take(p)[0] == u[0]);
            lemma_quote_is_no_mantissa(u.take(p));
        },
    }
    assert(!is_float_literal(raw));
    assert(raw.last() == '"');
    assert(raw.subrange(1, raw.len() - 1) =~= x);
}

/// The characters of a word whose lowercase form is all lowercase letters
/// are letters themselves.
proof fn lemma_letters(v: Seq<char>, w: Seq<char>)
    requires
        lower_seq(v) == w,
        forall|i: int| 0 <= i < w.len() ==> 'a' <= #[trigger] w[i] <= 'z',
    ensures
        v.len() == w.len(),
        forall|i: int|
            0 <= i < v.len() ==> (#[trigger] v[i] != ',' && v[i] != '=' && v[i] != '[' && !is_whitespace(v[i])),
{
    assert(v.len() == lower_seq(v).len());
    assert forall|i: int| 0 <= i < v.len() implies (#[trigger] v[i] != ',' && v[i] != '=' && v[i] != '['
        && !is_whitespace(v[i])) by {
        assert(lower_seq(v)[i] == ascii_lower(v[i]));
        assert('a' <= w[i] <= 'z');
    }
}

/// The name `base[inner]` is read as `base`, trimmed, with the entries of
/// `inner`.
proof fn lemma_bracketed(base: Seq<char>, inner: Seq<char>)
    requires
        forall|i: int| 0 <= i < base.len() ==> base[i] != '[',
    ensures
        spec_parse_node_name(base + seq!['['] + inner + seq![']']) == (trim(base), add_entries(
            Map::<Seq<char>, ValueModel>::empty(),
            inner,
        )),
{
    let s = base + seq!['['] + inner + seq![']'];
    let o = base.len() as int;
    let c = s.len() - 1;
    assert(s[c] == ']');
    assert(s[o] == '[');
    assert(trim_end(s) == s);
    lemma_rfind_char_bounds(s, '.');
    if let Some(p) = rfind_char(s, '.') {
        assert(p < c);
        assert(s.skip(p + 1).len() > 0);
        assert(s.skip(p + 1)[s.skip(p + 1).len() - 1] == ']');
        assert(!is_ascii_digit(s.skip(p + 1)[s.skip(p + 1).len() - 1]));
    }
    assert(spec_strip_duplicate_suffix(s) == s);
    lemma_find_char_bounds(s, '[');
    assert forall|j: int| 0 <= j < o implies s[j] != '[' by {
        assert(s[j] == base[j]);
    }
    match find_char(s, '[') {
        Some(i) => {
            if i < o {
                assert(s[i] == base[i]);
            }
            assert(i == o);
        },
        None => {
            assert(false);
        },
    }
    assert(rfind_char(s, ']') == Some(c));
    assert(s.take(o) =~= base);
    assert(s.subrange(o + 1, c) =~= inner);
}

/// `Door[locked=false]` locks nothing: an inline value spelled `false`, in
/// any case, is the boolean false, and one spelled `true` the boolean true,
/// under the key written before the `=`.
pub proof fn law_inline_booleans(base: Seq<char>, key: Seq<char>, value: Seq<char>)
    requires
        forall|i: int| 0 <= i < base.len() ==> base[i] != '[',
        key.len() > 0,
        !is_whitespace(key[0]),
        !is_whitespace(key.last()),
        forall|i: int| 0 <= i < key.len() ==> key[i] != ',' && key[i] != '=',
        lower_seq(value) == seq!['f', 'a', 'l', 's', 'e'] || lower_seq(value) == seq!['t', 'r', 'u', 'e'],
    ensures
        ({
            let parsed = spec_parse_node_name(base + seq!['['] + key + seq!['='] + value + seq![']']);
            &&& parsed.0 == trim(base)
            &&& lower_seq(value) == seq!['f', 'a', 'l', 's', 'e'] ==> parsed.1 == Map::<
                Seq<char>,
                ValueModel,
            >::empty().insert(key, ValueModel::Bool(false))
            &&& lower_seq(value) == seq!['t', 'r', 'u', 'e'] ==> parsed.1 == Map::<
                Seq<char>,
                ValueModel,
            >::empty().insert(key, ValueModel::Bool(true))
        }),
{
    let w = lower_seq(value);
    let fw = seq!['f', 'a', 'l', 's', 'e'];
    let tw = seq!['t', 'r', 'u', 'e'];
    assert forall|i: int| 0 <= i < w.len() implies 'a' <= #[trigger] w[i] <= 'z' by {
        if w == fw {
            assert(fw[0] == 'f' && fw[1] == 'a' && fw[2] == 'l' && fw[3] == 's' && fw[4] == 'e');
        } else {
            assert(tw[0] == 't' && tw[1] == 'r' && tw[2] == 'u' && tw[3] == 'e');
        }
    }
    lemma_letters(value, w);
    let inner = key + seq!['='] + value;
    let q = key.len() as int;
    assert(base + seq!['['] + key + seq!['='] + value + seq![']'] =~= base + seq!['['] + inner + seq![']']);
    lemma_bracketed(base, inner);
    // No comma: one entry.
    lemma_find_char_bounds(inner, ',');
    assert forall|j: int| 0 <= j < inner.len() implies inner[j] != ',' by {
        if j < q {
            assert(inner[j] == key[j]);
        } else if j > q {
            assert(inner[j] == value[j - q - 1]);
        }
    }
    assert(find_char(inner, ',') is None) by {
        if let Some(i) = find_char(inner, ',') {
            assert(inner[i] != ',');
        }
    }
    // The entry is already trimmed.
    assert(inner.last() == value.last());
    assert(trim_end(inner) == inner);
    assert(inner[0] == key[0]);
    assert(trim_start(inner) == inner);
    // Its `=` follows the key.
    lemma_find_char_bounds(inner, '=');
    match find_char(inner, '=') {
        Some(i) => {
            if i < q {
                assert(inner[i] == key[i]);
            }
            if i > q {
                assert(inner[q] == '=');
            }
            assert(i == q);
        },
        None => {
            assert(inner[q] == '=');
        },
    }
    assert(inner.take(q) =~= key);
    assert(inner.skip(q + 1) =~= value);
    assert(trim_end(key) == key);
    assert(trim_start(key) == key);
    assert(value.len() > 0);
    assert(trim_end(value) == value);
    assert(trim_start(value) == value);
    law_scalar_booleans(value);
}

/// One `key=value` or bare `flag` entry of an inline parameter block added
/// to `m`; a later entry overrides an earlier one with the same key.
pub open spec fn add_entry(m: Map<Seq<char>, ValueModel>, seg: Seq<char>) -> Map<
    Seq<char>,
    ValueModel,
> {
    let e = trim(seg);
    if e.len() == 0 {
        m
    } else {
        match find_char(e, '=') {
            Some(q) => m.insert(trim(e.take(q)), spec_parse_scalar(trim(e.skip(q + 1)))),
            None => m.insert(e, ValueModel::Bool(true)),
        }
    }
}

/// The comma-separated entries of `s` added to `m` in order.
pub open spec fn add_entries(m: Map<Seq<char>, ValueModel>, s: Seq<char>) -> Map<
    Seq<char>,
    ValueModel,
>
    decreases s.len(),
{
    match find_char(s, ',') {
        None => add_entry(m, s),
        Some(p) => if 0 <= p < s.len() {
            add_entries(add_entry(m, s.take(p)), s.skip(p + 1))
        } else {
            m
        },
    }
}

/// What [`parse_node_name`] gives: the name without its duplicate suffix and
/// trimmed, and the entries of a `[...]` block (from the first `[` to the
/// last `]`), if the name has one.
pub open spec fn spec_parse_node_name(raw: Seq<char>) -> (Seq<char>, Map<Seq<char>, ValueModel>) {
    let w = spec_strip_duplicate_suffix(raw);
    match find_char(w, '[') {
        None => (trim(w), Map::empty()),
        Some(o) => match rfind_char(w, ']') {
            None => (trim(w), Map::empty()),
            Some(c) => if c < o {
                (trim(w), Map::empty())
            } else {
                (trim(w.take(o)), add_entries(Map::empty(), w.subrange(o + 1, c)))
            },
        },
    }
}

/// Add one inline entry, `s[start..end]`, to `params`.
fn add_inline_entry(params: &mut TagParams, s: &str, start: usize, end: usize)
    requires
        start <= end <= s@.len(),
    ensures
        final(params)@ == add_entry(old(params)@, s@.subrange(start as int, end as int)),
{
    let seg = s.substring_char(start, end);
    let e = trim_str(seg);
    let ec = chars_of(e);
    if ec.len() == 0 {
        return ;
    }
    match find_in(&ec, 0, ec.len(), '=') {
        Some(q) => {
            assert(ec@.subrange(0, ec@.len() as int) =~= ec@);
            let key = trim_str(e.substring_char(0, q));
            let value = trim_str(e.substring_char(q + 1, ec.len()));
            assert(e@.take(q as int) =~= e@.subrange(0, q as int));
            assert(e@.skip(q + 1) =~= e@.subrange(q + 1, e@.len() as int));
            let v = parse_scalar(value);
            params.insert(key.to_owned(), v);
        },
        None => {
            assert(ec@.subrange(0, ec@.len() as int) =~= ec@);
            params.insert(e.to_owned(), TagValue::Bool(true));
        },
    }
}

/// Split a glTF node name into its base name and any inline parameters.
///
/// Handles Blender's `.001` suffix on duplicated objects, and an optional
/// `Name[key=value,flag]` block for artists who want parameters without
/// touching custom properties.
pub fn parse_node_name(raw: &str) -> (r: (String, TagParams))
    ensures
        (r.0@, r.1@) == spec_parse_node_name(raw@),
{
    let w = strip_duplicate_suffix(raw);
    let c = chars_of(w);
    let n = c.len();
    assert(c@.subrange(0, n as int) =~= c@);
    let open = match find_in(&c, 0, n, '[') {
        Some(o) => o,
        None => {
            return (trim_str(w).to_owned(), TagParams::new());
        },
    };
    assert(c@.take(n as int) =~= c@);
    proof {
        lemma_find_char_bounds(c@, '[');
        lemma_rfind_char_bounds(c@, ']');
    }
    let close = match rfind_in(&c, n, ']') {
        Some(x) => x,
        None => {
            return (trim_str(w).to_owned(), TagParams::new());
        },
    };
    if close < open {
        return (trim_str(w).to_owned(), TagParams::new());
    }
    let base = trim_str(w.substring_char(0, open)).to_owned();
    assert(w@.take(open as int) =~= w@.subrange(0, open as int));
    let mut params = TagParams::new();
    let ghost block = w@.subrange(open + 1, close as int);
    let mut st: usize = open + 1;
    loop
        invariant
            open + 1 <= st <= close,
            close < w@.len(),
            c@ == w@,
            block == w@.subrange(open + 1, close as int),
            add_entries(Map::empty(), block) == add_entries(
                params@,
                w@.subrange(st as int, close as int),
            ),
        ensures
            add_entries(Map::empty(), block) == params@,
        decreases close - st,
    {
        let ghost rest = w@.subrange(st as int, close as int);
        proof {
            lemma_find_char_bounds(rest, ',');
        }
        match find_in(&c, st, close, ',') {
            Some(p) => {
                assert(rest.take(p as int) =~= w@.subrange(st as int, st + p));
                assert(rest.skip(p + 1) =~= w@.subrange(st + p + 1, close as int));
                add_inline_entry(&mut params, w, st, st + p);
                st = st + p + 1;
            },
            None => {
                add_inline_entry(&mut params, w, st, close);
                break;
            },
        }
    }
    (base, params)
}

/// What [`build_stage_tags`] gives: the name's base and inline parameters,
/// and either what the `extras` blob holds or, when it is malformed, no
/// extras at all and the error.
pub open spec fn spec_build_stage_tags(name: Seq<char>, extras: Option<Seq<char>>, d: Seq<char>) -> (
    StageTagsModel,
    Option<ParseErrorModel>,
) {
    let (base_name, name_params) = spec_parse_node_name(name);
    let bare = StageTagsModel { tags: Seq::empty(), extras: Map::empty(), base_name, name_params };
    match extras {
        None => (bare, None),
        Some(text) => match spec_parse_extras(text, d) {
            Ok((found, tags)) => (StageTagsModel { tags, extras: found, base_name, name_params }, None),
            Err(e) => (bare, Some(e)),
        },
    }
}

/// The view of an optional parse error.
pub open spec fn error_view(e: Option<TagParseError>) -> Option<ParseErrorModel> {
    match e {
        Some(x) => Some(x@),
        None => None,
    }
}

/// The view of an optional text.
pub open spec fn opt_text(t: Option<&str>) -> Option<Seq<char>> {
    match t {
        Some(x) => Some(x@),
        None => None,
    }
}

/// Build the record baked into the loaded asset for one node.
///
/// A malformed `extras` blob is reported rather than propagated: one bad
/// property on one prop should not fail the whole level load, and the node
/// keeps the name data it has either way.
pub fn build_stage_tags(name: &str, extras_json: Option<&str>, discriminator: &str) -> (r: (
    StageTags,
    Option<TagParseError>,
))
    ensures
        (r.0@, error_view(r.1)) == spec_build_stage_tags(name@, opt_text(extras_json), discriminator@),
{
    let (base_name, name_params) = parse_node_name(name);
    let mut tags = StageTags {
        tags: Vec::new(),
        extras: TagParams::new(),
        base_name,
        name_params,
    };
    assert(tags_model(tags.tags@) =~= Seq::<TagModel>::empty());
    let text = match extras_json {
        None => {
            return (tags, None);
        },
        Some(t) => t,
    };
    match parse_extras(text, discriminator) {
        Ok((extras, parsed)) => {
            tags.extras = extras;
            tags.tags = parsed;
            (tags, None)
        },
        Err(error) => (tags, Some(error)),
    }
}

/// What a [`TagParseError`] holds.
pub enum ParseErrorModel {
    InvalidJson(Seq<char>),
    NotAnObject(Seq<char>),
    BadDiscriminator(Seq<char>, Seq<char>),
}

impl View for TagParseError {
    type V = ParseErrorModel;

    open spec fn view(&self) -> ParseErrorModel {
        match self {
            TagParseError::InvalidJson(m) => ParseErrorModel::InvalidJson(m@),
            TagParseError::NotAnObject(k) => ParseErrorModel::NotAnObject(k@),
            TagParseError::BadDiscriminator { discriminator, found } => ParseErrorModel::BadDiscriminator(
                discriminator@,
                found@,
            ),
        }
    }
}

/// The name a JSON value's type is reported under.
pub open spec fn json_kind_name(m: ValueModel) -> Seq<char> {
    match m {
        ValueModel::Null => seq!['n', 'u', 'l', 'l'],
        ValueModel::Bool(_) => seq!['b', 'o', 'o', 'l'],
        ValueModel::Number(_) => seq!['n', 'u', 'm', 'b', 'e', 'r'],
        ValueModel::Text(_) => seq!['s', 't', 'r', 'i', 'n', 'g'],
        ValueModel::List(_) => seq!['l', 'i', 's', 't'],
        ValueModel::Table(_) => seq!['o', 'b', 'j', 'e', 'c', 't'],
    }
}

/// The name a JSON value's type is reported under.
fn json_type_name(value: &TagValue) -> (r: &'static str)
    ensures
        r@ == json_kind_name(value@),
{
    proof {
        reveal_strlit("null");
        reveal_strlit("bool");
        reveal_strlit("number");
        reveal_strlit("string");
        reveal_strlit("list");
        reveal_strlit("object");
    }
    match value {
        TagValue::Null => "null",
        TagValue::Bool(_) => "bool",
        TagValue::Number(_) => "number",
        TagValue::String(_) => "string",
        TagValue::List(_) => "list",
        TagValue::Object(_) => "object",
    }
}

/// The position of the first item that is not a string, or the length when
/// all are.
pub open spec fn first_non_text(items: Seq<ValueModel>) -> int
    decreases items.len(),
{
    if items.len() == 0 {
        0
    } else if !(items[0] is Text) {
        0
    } else {
        1 + first_non_text(items.drop_first())
    }
}

pub proof fn lemma_first_non_text(items: Seq<ValueModel>)
    ensures
        0 <= first_non_text(items) <= items.len(),
        forall|i: int| 0 <= i < first_non_text(items) ==> #[trigger] items[i] is Text,
        first_non_text(items) < items.len() ==> !(items[first_non_text(items)] is Text),
    decreases items.len(),
{
    if items.len() > 0 && items[0] is Text {
        lemma_first_non_text(items.drop_first());
        assert forall|i: int| 0 <= i < first_non_text(items) implies #[trigger] items[i] is Text by {
            if i > 0 {
                assert(items[i] == items.drop_first()[i - 1]);
            }
        }
    }
}

/// A tag named by the discriminator, carrying the sibling properties.
pub open spec fn extras_tag(key: Seq<char>, siblings: Map<Seq<char>, ValueModel>) -> TagModel {
    TagModel { key, params: siblings, source: TagSource::Extras }
}

/// What [`parse_extras`] gives for a text: every property of the object, and
/// one tag per name the discriminator holds (a string, or a list of strings),
/// each carrying all the other properties as parameters.
pub open spec fn spec_parse_extras(text: Seq<char>, d: Seq<char>) -> Result<
    (Map<Seq<char>, ValueModel>, Seq<TagModel>),
    ParseErrorModel,
> {
    match json_read(text) {
        Err(m) => Err(ParseErrorModel::InvalidJson(m)),
        Ok(doc) => spec_extras_of(doc, d),
    }
}

/// What [`extras_of`] gives for a parsed document: every property of the
/// object, and one tag per name the discriminator holds (a string, or a list
/// of strings), each carrying all the other properties as parameters.
pub open spec fn spec_extras_of(doc: ValueModel, d: Seq<char>) -> Result<
    (Map<Seq<char>, ValueModel>, Seq<TagModel>),
    ParseErrorModel,
> {
    match doc {
            ValueModel::Table(obj) => if !obj.contains_key(d) {
                Ok((obj, Seq::empty()))
            } else {
                match obj[d] {
                    ValueModel::Text(s) => Ok((obj, seq![extras_tag(s, obj.remove(d))])),
                    ValueModel::List(items) => if first_non_text(items) < items.len() {
                        Err(
                            ParseErrorModel::BadDiscriminator(
                                d,
                                json_kind_name(items[first_non_text(items)]),
                            ),
                        )
                    } else {
                        Ok(
                            (
                                obj,
                                items.map_values(
                                    |x: ValueModel| extras_tag(x->Text_0, obj.remove(d)),
                                ),
                            ),
                        )
                    },
                    other => Err(ParseErrorModel::BadDiscriminator(d, json_kind_name(other))),
                }
            },
            other => Err(ParseErrorModel::NotAnObject(json_kind_name(other))),
    }
}

/// The model of a [`parse_extras`] outcome.
pub open spec fn extras_outcome(r: Result<(TagParams, Vec<StageTag>), TagParseError>) -> Result<
    (Map<Seq<char>, ValueModel>, Seq<TagModel>),
    ParseErrorModel,
> {
    match r {
        Ok((p, tags)) => Ok((p@, tags_model(tags@))),
        Err(e) => Err(e@),
    }
}

/// Parse a node's `extras` blob.
///
/// Returns the full property set plus any tags named by the discriminator. A
/// tag's parameters are its sibling properties.
pub fn parse_extras(text: &str, discriminator: &str) -> (r: Result<
    (TagParams, Vec<StageTag>),
    TagParseError,
>)
    ensures
        extras_outcome(r) == spec_parse_extras(text@, discriminator@),
{
    match json_from_str(text) {
        Ok(v) => extras_of(json_to_tag_value(&v), discriminator),
        Err(m) => Err(TagParseError::InvalidJson(m)),
    }
}

/// Read a parsed `extras` document: the full property set plus any tags
/// named by the discriminator, a tag's parameters being its sibling
/// properties.
pub fn extras_of(doc: TagValue, discriminator: &str) -> (r: Result<
    (TagParams, Vec<StageTag>),
    TagParseError,
>)
    ensures
        extras_outcome(r) == spec_extras_of(doc@, discriminator@),
{
    let extras = match doc {
        TagValue::Object(p) => p,
        other => {
            return Err(TagParseError::NotAnObject(json_type_name(&other)));
        },
    };
    let ghost obj = extras@;
    let names: Vec<String> = match extras.get(discriminator) {
        None => {
            let r: Result<(TagParams, Vec<StageTag>), TagParseError> = Ok((extras, Vec::new()));
            assert(tags_model(Seq::<StageTag>::empty()) =~= Seq::<TagModel>::empty());
            return r;
        },
        Some(raw) => match raw {
            TagValue::String(s) => {
                let mut v: Vec<String> = Vec::new();
                v.push(s.clone());
                v
            },
            TagValue::List(items) => {
                proof {
                    lemma_list_model(items@);
                    lemma_first_non_text(list_model(items@));
                }
                let mut v: Vec<String> = Vec::new();
                let mut i: usize = 0;
                #[verifier::loop_isolation(false)]
                while i < items.len()
                    invariant
                        i <= items@.len(),
                        list_model(items@).len() == items@.len(),
                        forall|j: int| 0 <= j < items@.len() ==> #[trigger] list_model(items@)[j] == items@[j]@,
                        0 <= first_non_text(list_model(items@)) <= items@.len(),
                        forall|j: int| 0 <= j < first_non_text(list_model(items@)) ==> #[trigger] list_model(items@)[j] is Text,
                        first_non_text(list_model(items@)) < items@.len() ==> !(list_model(items@)[first_non_text(list_model(items@))] is Text),
                        i <= first_non_text(list_model(items@)),
                        v@.len() == i,
                        forall|j: int| 0 <= j < i ==> #[trigger] v@[j]@ == list_model(items@)[j]->Text_0,
                    decreases items@.len() - i,
                {
                    match &items[i] {
                        TagValue::String(s) => {
                            v.push(s.clone());
                        },
                        other => {
                            assert(list_model(items@)[i as int] == items@[i as int]@);
                            assert(!(items@[i as int]@ is Text));
                            assert(first_non_text(list_model(items@)) == i);
                            return Err(
                                TagParseError::BadDiscriminator {
                                    discriminator: discriminator.to_owned(),
                                    found: json_type_name(other),
                                },
                            );
                        },
                    }
                    i = i + 1;
                }
                v
            },
            other => {
                return Err(
                    TagParseError::BadDiscriminator {
                        discriminator: discriminator.to_owned(),
                        found: json_type_name(other),
                    },
                );
            },
        },
    };
    let ghost name_models = names@.map_values(|n: String| n@);
    let mut params = clone_params(&extras);
    params.remove(discriminator);
    let mut tags: Vec<StageTag> = Vec::new();
    let mut i: usize = 0;
    while i < names.len()
        invariant
            i <= names@.len(),
            params@ == obj.remove(discriminator@),
            tags@.len() == i,
            forall|j: int| 0 <= j < i ==> #[trigger] tags@[j]@ == extras_tag(names@[j]@, obj.remove(discriminator@)),
        decreases names@.len() - i,
    {
        tags.push(StageTag { key: names[i].clone(), params: clone_params(&params), source: TagSource::Extras });
        i = i + 1;
    }
    proof {
        match obj[discriminator@] {
            ValueModel::Text(s) => {
                assert(tags_model(tags@) =~= seq![extras_tag(s, obj.remove(discriminator@))]);
            },
            ValueModel::List(items) => {
                assert(tags_model(tags@) =~= items.map_values(
                    |x: ValueModel| extras_tag(x->Text_0, obj.remove(discriminator@)),
                ));
            },
            _ => {},
        }
    }
    Ok((extras, tags))
}

} // verus!
