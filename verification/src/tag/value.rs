//! The value model that every tag authoring channel produces.

use vstd::prelude::*;

use vstd::string::*;

use crate::assoc::TextMap;
use crate::text::{
    ascii_lower, char_is_ascii_alphanumeric, char_to_ascii_lowercase, is_ascii_alphanumeric,
    chars_equal, chars_of, float_literal, is_float_literal, key_lt, key_order,
    lemma_key_lt_asymmetric, lemma_key_lt_transitive, literal_is_nonzero, literal_nonzero,
    lower_chars, lower_seq, string_push, trim, trim_str, KeyOrder,
};

verus! {

/// What a [`TagValue`] holds, as a mathematical value.
///
/// A number is held as its decimal literal; a table maps keys to values.
pub enum ValueModel {
    Null,
    Bool(bool),
    Number(Seq<char>),
    Text(Seq<char>),
    List(Seq<ValueModel>),
    Table(Map<Seq<char>, ValueModel>),
}

/// A single value parsed from artist-authored metadata.
///
/// Mirrors the JSON model glTF `extras` are written in. A number is kept as
/// its decimal literal (always one that Rust's `f64` parser accepts), so no
/// precision is lost before a caller converts it; two numbers compare equal
/// when their literals are the same text.
#[derive(Debug, PartialEq)]
pub enum TagValue {
    /// An explicit null, or a property present with no value.
    Null,
    /// A boolean.
    Bool(bool),
    /// A number, as its decimal literal.
    Number(String),
    /// A string.
    String(String),
    /// An ordered list.
    List(Vec<TagValue>),
    /// A nested object.
    Object(TagParams),
}

/// A bag of named [`TagValue`]s, kept in key order.
#[derive(Debug, PartialEq)]
pub struct TagParams {
    entries: Vec<(String, TagValue)>,
}

pub open spec fn value_model(v: TagValue) -> ValueModel
    decreases v, 0nat,
{
    match v {
        TagValue::Null => ValueModel::Null,
        TagValue::Bool(b) => ValueModel::Bool(b),
        TagValue::Number(s) => ValueModel::Number(s@),
        TagValue::String(s) => ValueModel::Text(s@),
        TagValue::List(items) => ValueModel::List(list_model(items@)),
        TagValue::Object(p) => ValueModel::Table(params_model(p)),
    }
}

pub open spec fn list_model(s: Seq<TagValue>) -> Seq<ValueModel>
    decreases s, 1nat,
{
    if s.len() == 0 {
        Seq::empty()
    } else {
        list_model(s.drop_last()).push(value_model(s.last()))
    }
}

pub closed spec fn params_model(p: TagParams) -> Map<Seq<char>, ValueModel>
    decreases p, 1nat,
{
    entries_model(p.entries@)
}

pub open spec fn entries_model(s: Seq<(String, TagValue)>) -> Map<Seq<char>, ValueModel>
    decreases s, 2nat,
{
    if s.len() == 0 {
        Map::empty()
    } else {
        entries_model(s.drop_last()).insert(s.last().0@, value_model(s.last().1))
    }
}

impl View for TagValue {
    type V = ValueModel;

    open spec fn view(&self) -> ValueModel {
        value_model(*self)
    }
}

impl View for TagParams {
    type V = Map<Seq<char>, ValueModel>;

    open spec fn view(&self) -> Map<Seq<char>, ValueModel> {
        params_model(*self)
    }
}

/// The keys of a list of entries, in order.
pub open spec fn keys_of(s: Seq<(String, TagValue)>) -> Seq<Seq<char>> {
    s.map_values(|e: (String, TagValue)| e.0@)
}

/// Keys strictly increasing in key order.
pub open spec fn sorted_keys(s: Seq<Seq<char>>) -> bool {
    forall|i: int, j: int| 0 <= i < j < s.len() ==> key_lt(#[trigger] s[i], #[trigger] s[j])
}

pub proof fn lemma_list_model(s: Seq<TagValue>)
    ensures
        list_model(s).len() == s.len(),
        forall|i: int| 0 <= i < s.len() ==> #[trigger] list_model(s)[i] == value_model(s[i]),
    decreases s.len(),
{
    if s.len() > 0 {
        lemma_list_model(s.drop_last());
    }
}

pub proof fn lemma_entries_model(s: Seq<(String, TagValue)>)
    requires
        sorted_keys(keys_of(s)),
    ensures
        entries_model(s).dom().finite(),
        entries_model(s).len() == s.len(),
        forall|k: Seq<char>|
            entries_model(s).contains_key(k) <==> exists|i: int|
                0 <= i < s.len() && #[trigger] s[i].0@ == k,
        forall|i: int|
            0 <= i < s.len() ==> #[trigger] entries_model(s)[s[i].0@] == value_model(s[i].1),
    decreases s.len(),
{
    if s.len() > 0 {
        let t = s.drop_last();
        assert(keys_of(t) =~= keys_of(s).drop_last());
        lemma_entries_model(t);
        let last = s.last();
        assert forall|i: int| 0 <= i < t.len() implies #[trigger] t[i].0@ != last.0@ by {
            assert(keys_of(s)[i] == t[i].0@);
            assert(keys_of(s)[s.len() - 1] == last.0@);
            lemma_key_lt_asymmetric(t[i].0@, last.0@);
        }
        assert(!entries_model(t).contains_key(last.0@));
        assert forall|k: Seq<char>|
            entries_model(s).contains_key(k) implies exists|i: int|
                0 <= i < s.len() && #[trigger] s[i].0@ == k by {
            if k != last.0@ {
                let i = choose|i: int| 0 <= i < t.len() && #[trigger] t[i].0@ == k;
                assert(s[i] == t[i]);
            } else {
                assert(s[s.len() - 1].0@ == k);
            }
        }
        assert forall|k: Seq<char>|
            (exists|i: int| 0 <= i < s.len() && #[trigger] s[i].0@ == k) implies entries_model(
            s,
        ).contains_key(k) by {
            let i = choose|i: int| 0 <= i < s.len() && #[trigger] s[i].0@ == k;
            if i < s.len() - 1 {
                assert(t[i] == s[i]);
            }
        }
        assert forall|i: int| 0 <= i < s.len() implies #[trigger] entries_model(s)[s[i].0@]
            == value_model(s[i].1) by {
            if i < s.len() - 1 {
                assert(t[i] == s[i]);
            }
        }
    }
}

pub proof fn lemma_entries_model_congruent(s1: Seq<(String, TagValue)>, s2: Seq<(String, TagValue)>)
    requires
        s1.len() == s2.len(),
        forall|i: int| 0 <= i < s1.len() ==> #[trigger] s1[i].0@ == s2[i].0@ && value_model(s1[i].1)
            == value_model(s2[i].1),
    ensures
        entries_model(s1) == entries_model(s2),
    decreases s1.len(),
{
    if s1.len() > 0 {
        lemma_entries_model_congruent(s1.drop_last(), s2.drop_last());
        assert(s1.last().0@ == s2.last().0@);
    }
}

/// A copy of a value, equal to it in every respect.
pub fn clone_value(v: &TagValue) -> (r: TagValue)
    ensures
        r@ == v@,
    decreases v,
{
    match v {
        TagValue::Null => TagValue::Null,
        TagValue::Bool(b) => TagValue::Bool(*b),
        TagValue::Number(s) => TagValue::Number(s.clone()),
        TagValue::String(s) => TagValue::String(s.clone()),
        TagValue::List(items) => {
            let mut out: Vec<TagValue> = Vec::new();
            let mut i: usize = 0;
            while i < items.len()
                invariant
                    *v == TagValue::List(*items),
                    i <= items@.len(),
                    out@.len() == i,
                    forall|j: int| 0 <= j < i ==> #[trigger] value_model(out@[j]) == value_model(
                        items@[j],
                    ),
                decreases items@.len() - i,
            {
                proof {
                    assert(decreases_to!(*v => (*v)->List_0));
                    assert(decreases_to!(*items => items[i as int]));
                }
                let c = clone_value(&items[i]);
                out.push(c);
                i = i + 1;
            }
            proof {
                lemma_list_model(items@);
                lemma_list_model(out@);
                assert(list_model(out@) =~= list_model(items@));
            }
            TagValue::List(out)
        },
        TagValue::Object(p) => TagValue::Object(clone_params(p)),
    }
}

/// A copy of a parameter set, equal to it in every respect.
pub fn clone_params(p: &TagParams) -> (r: TagParams)
    ensures
        r@ == p@,
    decreases p,
{
    proof {
        use_type_invariant(p);
    }
    let mut out: Vec<(String, TagValue)> = Vec::new();
    let mut i: usize = 0;
    while i < p.entries.len()
        invariant
            i <= p.entries@.len(),
            out@.len() == i,
            forall|j: int| 0 <= j < i ==> #[trigger] out@[j].0@ == p.entries@[j].0@ && value_model(
                out@[j].1,
            ) == value_model(p.entries@[j].1),
        decreases p.entries@.len() - i,
    {
        proof {
            assert(decreases_to!(p.entries => p.entries[i as int]));
        }
        let k = p.entries[i].0.clone();
        let c = clone_value(&p.entries[i].1);
        out.push((k, c));
        i = i + 1;
    }
    proof {
        lemma_entries_model_congruent(out@, p.entries@);
        assert forall|a: int, b: int| 0 <= a < b < out@.len() implies key_lt(
            #[trigger] keys_of(out@)[a],
            #[trigger] keys_of(out@)[b],
        ) by {
            assert(keys_of(p.entries@)[a] == p.entries@[a].0@);
            assert(keys_of(p.entries@)[b] == p.entries@[b].0@);
        }
    }
    TagParams { entries: out }
}

/// The boolean a DCC's checkbox string spells, lowercased and trimmed.
pub open spec fn bool_word(t: Seq<char>) -> Option<bool> {
    if t == seq!['t', 'r', 'u', 'e'] || t == seq!['y', 'e', 's'] || t == seq!['1'] {
        Some(true)
    } else if t == seq!['f', 'a', 'l', 's', 'e'] || t == seq!['n', 'o'] || t == seq!['0'] {
        Some(false)
    } else {
        None
    }
}

/// A value read as a boolean: a boolean itself, a string spelling one
/// (`true`/`yes`/`1`, `false`/`no`/`0`, any case, surrounding whitespace
/// ignored), or a number, which is true when its value as an `f64` is not
/// zero (a literal too small to hold, such as `1e-400`, is zero).
pub open spec fn model_as_bool(m: ValueModel) -> Option<bool> {
    match m {
        ValueModel::Bool(b) => Some(b),
        ValueModel::Text(s) => bool_word(lower_seq(trim(s))),
        ValueModel::Number(n) => Some(literal_is_nonzero(n)),
        _ => None,
    }
}

/// A value read as a number literal: a number itself, a string that trims to
/// a float literal, or a boolean as `1`/`0`.
pub open spec fn model_as_number(m: ValueModel) -> Option<Seq<char>> {
    match m {
        ValueModel::Number(n) => Some(n),
        ValueModel::Text(s) => if is_float_literal(trim(s)) {
            Some(trim(s))
        } else {
            None
        },
        ValueModel::Bool(b) => Some(
            if b {
                seq!['1']
            } else {
                seq!['0']
            },
        ),
        _ => None,
    }
}

/// The three coordinate literals of a vector, written either as a list of
/// three numbers or as an object with numeric `x`, `y` and `z`.
pub open spec fn model_vec3(m: ValueModel) -> Option<(Seq<char>, Seq<char>, Seq<char>)> {
    match m {
        ValueModel::List(items) => if items.len() == 3 && model_as_number(items[0]) is Some
            && model_as_number(items[1]) is Some && model_as_number(items[2]) is Some {
            Some(
                (
                    model_as_number(items[0])->0,
                    model_as_number(items[1])->0,
                    model_as_number(items[2])->0,
                ),
            )
        } else {
            None
        },
        ValueModel::Table(t) => {
            let x = seq!['x'];
            let y = seq!['y'];
            let z = seq!['z'];
            if t.contains_key(x) && t.contains_key(y) && t.contains_key(z) && model_as_number(t[x]) is Some
                && model_as_number(t[y]) is Some && model_as_number(t[z]) is Some {
                Some((model_as_number(t[x])->0, model_as_number(t[y])->0, model_as_number(t[z])->0))
            } else {
                None
            }
        },
        _ => None,
    }
}

/// The name of a value's variant, for error messages.
pub open spec fn model_kind_name(m: ValueModel) -> Seq<char> {
    match m {
        ValueModel::Null => seq!['n', 'u', 'l', 'l'],
        ValueModel::Bool(_) => seq!['b', 'o', 'o', 'l'],
        ValueModel::Number(_) => seq!['n', 'u', 'm', 'b', 'e', 'r'],
        ValueModel::Text(_) => seq!['s', 't', 'r', 'i', 'n', 'g'],
        ValueModel::List(_) => seq!['l', 'i', 's', 't'],
        ValueModel::Table(_) => seq!['m', 'a', 'p'],
    }
}

impl TagValue {
    /// The value as a bool, accepting the string forms DCCs often produce for
    /// what the artist intended as a checkbox.
    pub fn as_bool(&self) -> (r: Option<bool>)
        ensures
            r == model_as_bool(self@),
    {
        match self {
            TagValue::Bool(b) => Some(*b),
            TagValue::String(s) => {
                let t = lower_chars(trim_str(s.as_str()));
                let yes_words = [vec!['t', 'r', 'u', 'e'], vec!['y', 'e', 's'], vec!['1']];
                let no_words = [vec!['f', 'a', 'l', 's', 'e'], vec!['n', 'o'], vec!['0']];
                proof {
                    assert(yes_words[0]@ =~= seq!['t', 'r', 'u', 'e']);
                    assert(yes_words[1]@ =~= seq!['y', 'e', 's']);
                    assert(yes_words[2]@ =~= seq!['1']);
                    assert(no_words[0]@ =~= seq!['f', 'a', 'l', 's', 'e']);
                    assert(no_words[1]@ =~= seq!['n', 'o']);
                    assert(no_words[2]@ =~= seq!['0']);
                }
                if chars_equal(&t, &yes_words[0]) || chars_equal(&t, &yes_words[1])
                    || chars_equal(&t, &yes_words[2]) {
                    Some(true)
                } else if chars_equal(&t, &no_words[0]) || chars_equal(&t, &no_words[1])
                    || chars_equal(&t, &no_words[2]) {
                    Some(false)
                } else {
                    None
                }
            },
            TagValue::Number(n) => Some(literal_nonzero(n.as_str())),
            _ => None,
        }
    }

    /// The value as a number literal, reading numeric strings and booleans.
    ///
    /// This is the decision behind reading a value as a float: the literal it
    /// returns is always one Rust's `f64` parser accepts.
    pub fn as_number(&self) -> (r: Option<String>)
        ensures
            match r {
                Some(t) => model_as_number(self@) == Some(t@),
                None => model_as_number(self@) is None,
            },
    {
        match self {
            TagValue::Number(n) => Some(n.clone()),
            TagValue::String(s) => {
                let t = trim_str(s.as_str());
                if float_literal(t) {
                    Some(t.to_owned())
                } else {
                    None
                }
            },
            TagValue::Bool(b) => {
                let mut out = String::new();
                string_push(&mut out, if *b { '1' } else { '0' });
                assert(out@ =~= if *b { seq!['1'] } else { seq!['0'] });
                Some(out)
            },
            _ => None,
        }
    }

    /// The coordinate literals of a vector value, accepting either `[x, y, z]`
    /// or `{"x": .., "y": .., "z": ..}` since both conventions appear in the
    /// wild. This is the decision behind reading a value as a 3D vector.
    pub fn vec3_components(&self) -> (r: Option<(String, String, String)>)
        ensures
            match r {
                Some((x, y, z)) => model_vec3(self@) == Some((x@, y@, z@)),
                None => model_vec3(self@) is None,
            },
    {
        match self {
            TagValue::List(v) => {
                proof {
                    lemma_list_model(v@);
                }
                if v.len() != 3 {
                    return None;
                }
                let x = match v[0].as_number() {
                    Some(t) => t,
                    None => {
                        return None;
                    },
                };
                let y = match v[1].as_number() {
                    Some(t) => t,
                    None => {
                        return None;
                    },
                };
                let z = match v[2].as_number() {
                    Some(t) => t,
                    None => {
                        return None;
                    },
                };
                Some((x, y, z))
            },
            TagValue::Object(m) => {
                proof {
                    reveal_strlit("x");
                    reveal_strlit("y");
                    reveal_strlit("z");
                    assert("x"@ =~= seq!['x']);
                    assert("y"@ =~= seq!['y']);
                    assert("z"@ =~= seq!['z']);
                }
                let x = match m.get_number("x") {
                    Some(t) => t,
                    None => {
                        return None;
                    },
                };
                let y = match m.get_number("y") {
                    Some(t) => t,
                    None => {
                        return None;
                    },
                };
                let z = match m.get_number("z") {
                    Some(t) => t,
                    None => {
                        return None;
                    },
                };
                Some((x, y, z))
            },
            _ => None,
        }
    }

    /// The value as a string slice. Numbers are not stringified, so a typo'd
    /// type is an error rather than a silently coerced value.
    pub fn as_str(&self) -> (r: Option<&str>)
        ensures
            match self@ {
                ValueModel::Text(s) => r matches Some(x) && x@ == s,
                _ => r is None,
            },
    {
        match self {
            TagValue::String(s) => Some(s.as_str()),
            _ => None,
        }
    }

    /// The value as a list.
    pub fn as_list(&self) -> (r: Option<&[TagValue]>)
        ensures
            match self@ {
                ValueModel::List(items) => r matches Some(l) && list_model(l@) == items,
                _ => r is None,
            },
    {
        match self {
            TagValue::List(v) => Some(v.as_slice()),
            _ => None,
        }
    }

    /// The value as a nested object.
    pub fn as_map(&self) -> (r: Option<&TagParams>)
        ensures
            match self@ {
                ValueModel::Table(t) => r matches Some(p) && p@ == t,
                _ => r is None,
            },
    {
        match self {
            TagValue::Object(m) => Some(m),
            _ => None,
        }
    }

    /// Whether this is [`TagValue::Null`].
    pub fn is_null(&self) -> (r: bool)
        ensures
            r == (self@ is Null),
    {
        match self {
            TagValue::Null => true,
            _ => false,
        }
    }

    /// The name of this variant, for error messages.
    pub fn kind_name(&self) -> (r: &'static str)
        ensures
            r@ == model_kind_name(self@),
    {
        proof {
            reveal_strlit("null");
            reveal_strlit("bool");
            reveal_strlit("number");
            reveal_strlit("string");
            reveal_strlit("list");
            reveal_strlit("map");
        }
        match self {
            TagValue::Null => "null",
            TagValue::Bool(_) => "bool",
            TagValue::Number(_) => "number",
            TagValue::String(_) => "string",
            TagValue::List(_) => "list",
            TagValue::Object(_) => "map",
        }
    }
}

impl Clone for TagValue {
    fn clone(&self) -> (r: Self)
        ensures
            r@ == self@,
    {
        clone_value(self)
    }
}

impl Clone for TagParams {
    fn clone(&self) -> (r: Self)
        ensures
            r@ == self@,
    {
        clone_params(self)
    }
}

impl TagParams {
    #[verifier::type_invariant]
    spec fn keys_sorted(self) -> bool {
        sorted_keys(keys_of(self.entries@))
    }

    /// The keys in the order they are kept and iterated.
    pub closed spec fn key_order_seq(self) -> Seq<Seq<char>> {
        keys_of(self.entries@)
    }

    /// An empty parameter set.
    pub fn new() -> (r: Self)
        ensures
            r@ == Map::<Seq<char>, ValueModel>::empty(),
    {
        let r = TagParams { entries: Vec::new() };
        assert(r@ =~= Map::<Seq<char>, ValueModel>::empty());
        r
    }

    /// Parameters built from pairs, a later pair overriding an earlier one
    /// with the same key.
    pub fn from_pairs(pairs: Vec<(String, TagValue)>) -> (r: Self)
        ensures
            r@ == entries_model(pairs@),
    {
        let mut p = TagParams::new();
        let mut i: usize = 0;
        while i < pairs.len()
            invariant
                i <= pairs@.len(),
                p@ == entries_model(pairs@.take(i as int)),
            decreases pairs@.len() - i,
        {
            let k = pairs[i].0.clone();
            let v = clone_value(&pairs[i].1);
            p.insert(k, v);
            assert(pairs@.take(i + 1).drop_last() =~= pairs@.take(i as int));
            i = i + 1;
        }
        assert(pairs@.take(pairs@.len() as int) =~= pairs@);
        p
    }

    /// The position `key` has, or would have, among the entries.
    fn locate(&self, key: &Vec<char>) -> (r: (usize, bool))
        ensures
            r.0 <= self.entries@.len(),
            forall|i: int| 0 <= i < r.0 ==> key_lt(#[trigger] self.entries@[i].0@, key@),
            r.1 ==> r.0 < self.entries@.len() && self.entries@[r.0 as int].0@ == key@,
            !r.1 ==> r.0 < self.entries@.len() ==> key_lt(key@, self.entries@[r.0 as int].0@),
    {
        let mut i: usize = 0;
        while i < self.entries.len()
            invariant
                i <= self.entries@.len(),
                forall|j: int| 0 <= j < i ==> key_lt(#[trigger] self.entries@[j].0@, key@),
            decreases self.entries@.len() - i,
        {
            let k = chars_of(self.entries[i].0.as_str());
            match key_order(&k, key) {
                KeyOrder::Less => {},
                KeyOrder::Equal => {
                    return (i, true);
                },
                KeyOrder::Greater => {
                    return (i, false);
                },
            }
            i = i + 1;
        }
        (i, false)
    }

    /// Look up a parameter.
    pub fn get(&self, key: &str) -> (r: Option<&TagValue>)
        ensures
            match r {
                Some(v) => self@.contains_key(key@) && v@ == self@[key@],
                None => !self@.contains_key(key@),
            },
    {
        proof {
            use_type_invariant(self);
            lemma_entries_model(self.entries@);
        }
        let k = chars_of(key);
        let (i, found) = self.locate(&k);
        if found {
            assert(keys_of(self.entries@)[i as int] == self.entries@[i as int].0@);
            Some(&self.entries[i].1)
        } else {
            proof {
                assert forall|j: int| 0 <= j < self.entries@.len() implies #[trigger] self.entries@[j].0@
                    != key@ by {
                    assert(keys_of(self.entries@)[j] == self.entries@[j].0@);
                    if j < i {
                        lemma_key_lt_asymmetric(self.entries@[j].0@, key@);
                    } else if j > i {
                        assert(keys_of(self.entries@)[i as int] == self.entries@[i as int].0@);
                        lemma_key_lt_transitive(key@, self.entries@[i as int].0@, self.entries@[j].0@);
                        lemma_key_lt_asymmetric(key@, self.entries@[j].0@);
                    } else {
                        lemma_key_lt_asymmetric(key@, self.entries@[j].0@);
                    }
                }
            }
            None
        }
    }

    /// Whether a parameter is present.
    pub fn contains(&self, key: &str) -> (r: bool)
        ensures
            r == self@.contains_key(key@),
    {
        self.get(key).is_some()
    }

    /// The number of parameters.
    pub fn len(&self) -> (r: usize)
        ensures
            r == self@.len(),
    {
        proof {
            use_type_invariant(self);
            lemma_entries_model(self.entries@);
        }
        self.entries.len()
    }

    /// Insert a parameter, returning any previous value.
    pub fn insert(&mut self, key: String, value: TagValue) -> (r: Option<TagValue>)
        ensures
            final(self)@ == old(self)@.insert(key@, value@),
            match r {
                Some(v) => old(self)@.contains_key(key@) && v@ == old(self)@[key@],
                None => !old(self)@.contains_key(key@),
            },
    {
        proof {
            use_type_invariant(&*self);
            lemma_entries_model(self.entries@);
        }
        let ghost before = self.entries@;
        let ghost kv = key@;
        let ghost vv = value@;
        let k = chars_of(key.as_str());
        let (i, found) = self.locate(&k);
        proof {
            assert forall|j: int| 0 <= j < before.len() && (j != i || !found) implies #[trigger] before[j].0@
                != kv by {
                assert(keys_of(before)[j] == before[j].0@);
                if j < i {
                    lemma_key_lt_asymmetric(before[j].0@, kv);
                } else {
                    assert(keys_of(before)[i as int] == before[i as int].0@);
                    if found {
                        lemma_key_lt_asymmetric(kv, before[j].0@);
                    } else if j == i {
                        lemma_key_lt_asymmetric(kv, before[j].0@);
                    } else {
                        lemma_key_lt_transitive(kv, before[i as int].0@, before[j].0@);
                        lemma_key_lt_asymmetric(kv, before[j].0@);
                    }
                }
            }
        }
        let mut entries: Vec<(String, TagValue)> = Vec::new();
        std::mem::swap(&mut entries, &mut self.entries);
        if found {
            let old_entry = entries.remove(i);
            entries.insert(i, (key, value));
            let ghost after = entries@;
            proof {
                assert(after =~= before.update(i as int, (after[i as int].0, after[i as int].1)));
                assert forall|a: int, b: int| 0 <= a < b < after.len() implies key_lt(
                    #[trigger] keys_of(after)[a],
                    #[trigger] keys_of(after)[b],
                ) by {
                    assert(keys_of(before)[a] == before[a].0@);
                    assert(keys_of(before)[b] == before[b].0@);
                }
                lemma_entries_model(after);
                assert(entries_model(after) =~= entries_model(before).insert(kv, vv)) by {
                    assert forall|k2: Seq<char>| #[trigger] entries_model(after).contains_key(k2)
                        == entries_model(before).insert(kv, vv).contains_key(k2) by {
                        if entries_model(after).contains_key(k2) {
                            let j = choose|j: int| 0 <= j < after.len() && #[trigger] after[j].0@ == k2;
                            if j != i {
                                assert(before[j] == after[j]);
                            }
                        }
                        if entries_model(before).contains_key(k2) {
                            let j = choose|j: int| 0 <= j < before.len() && #[trigger] before[j].0@ == k2;
                            if j != i {
                                assert(before[j] == after[j]);
                            } else {
                                assert(after[i as int].0@ == kv);
                            }
                        }
                        if k2 == kv {
                            assert(after[i as int].0@ == kv);
                        }
                    }
                    assert forall|k2: Seq<char>| #[trigger] entries_model(after).contains_key(k2)
                        implies entries_model(after)[k2] == entries_model(before).insert(kv, vv)[k2] by {
                        let j = choose|j: int| 0 <= j < after.len() && #[trigger] after[j].0@ == k2;
                        if j != i {
                            assert(before[j] == after[j]);
                        }
                    }
                }
            }
            self.entries = entries;
            Some(old_entry.1)
        } else {
            entries.insert(i, (key, value));
            let ghost after = entries@;
            proof {
                assert forall|a: int, b: int| 0 <= a < b < after.len() implies key_lt(
                    #[trigger] keys_of(after)[a],
                    #[trigger] keys_of(after)[b],
                ) by {
                    if b < i {
                        assert(keys_of(before)[a] == before[a].0@);
                        assert(keys_of(before)[b] == before[b].0@);
                    } else if b == i {
                        assert(key_lt(before[a].0@, kv));
                    } else if a == i {
                        assert(keys_of(before)[b - 1] == before[b - 1].0@);
                        assert(keys_of(before)[i as int] == before[i as int].0@);
                        if b - 1 > i {
                            lemma_key_lt_transitive(kv, before[i as int].0@, before[b - 1].0@);
                        }
                    } else if a < i {
                        assert(keys_of(before)[a] == before[a].0@);
                        assert(keys_of(before)[b - 1] == before[b - 1].0@);
                    } else {
                        assert(keys_of(before)[a - 1] == before[a - 1].0@);
                        assert(keys_of(before)[b - 1] == before[b - 1].0@);
                    }
                }
                lemma_entries_model(after);
                assert(entries_model(after) =~= entries_model(before).insert(kv, vv)) by {
                    assert forall|k2: Seq<char>| #[trigger] entries_model(after).contains_key(k2)
                        == entries_model(before).insert(kv, vv).contains_key(k2) by {
                        if entries_model(after).contains_key(k2) {
                            let j = choose|j: int| 0 <= j < after.len() && #[trigger] after[j].0@ == k2;
                            if j < i {
                                assert(before[j] == after[j]);
                            } else if j > i {
                                assert(before[j - 1] == after[j]);
                            }
                        }
                        if entries_model(before).contains_key(k2) {
                            let j = choose|j: int| 0 <= j < before.len() && #[trigger] before[j].0@ == k2;
                            if j < i {
                                assert(before[j] == after[j]);
                            } else {
                                assert(before[j] == after[j + 1]);
                            }
                        }
                        if k2 == kv {
                            assert(after[i as int].0@ == kv);
                        }
                    }
                    assert forall|k2: Seq<char>| #[trigger] entries_model(after).contains_key(k2)
                        implies entries_model(after)[k2] == entries_model(before).insert(kv, vv)[k2] by {
                        let j = choose|j: int| 0 <= j < after.len() && #[trigger] after[j].0@ == k2;
                        if j < i {
                            assert(before[j] == after[j]);
                        } else if j > i {
                            assert(before[j - 1] == after[j]);
                            assert(entries_model(before)[before[j - 1].0@] == value_model(
                                before[j - 1].1,
                            ));
                        } else {
                            assert(after[i as int].0@ == kv && value_model(after[i as int].1) == vv);
                        }
                    }
                }
            }
            self.entries = entries;
            None
        }
    }

    /// Remove a parameter, returning its value.
    pub fn remove(&mut self, key: &str) -> (r: Option<TagValue>)
        ensures
            final(self)@ == old(self)@.remove(key@),
            match r {
                Some(v) => old(self)@.contains_key(key@) && v@ == old(self)@[key@],
                None => !old(self)@.contains_key(key@),
            },
    {
        proof {
            use_type_invariant(&*self);
            lemma_entries_model(self.entries@);
        }
        let ghost before = self.entries@;
        let ghost kv = key@;
        let k = chars_of(key);
        let (i, found) = self.locate(&k);
        proof {
            assert forall|j: int| 0 <= j < before.len() && (j != i || !found) implies #[trigger] before[j].0@
                != kv by {
                assert(keys_of(before)[j] == before[j].0@);
                if j < i {
                    lemma_key_lt_asymmetric(before[j].0@, kv);
                } else {
                    assert(keys_of(before)[i as int] == before[i as int].0@);
                    if found || j == i {
                        lemma_key_lt_asymmetric(kv, before[j].0@);
                    } else {
                        lemma_key_lt_transitive(kv, before[i as int].0@, before[j].0@);
                        lemma_key_lt_asymmetric(kv, before[j].0@);
                    }
                }
            }
        }
        if !found {
            assert(entries_model(before).remove(kv) =~= entries_model(before));
            return None;
        }
        let mut entries: Vec<(String, TagValue)> = Vec::new();
        std::mem::swap(&mut entries, &mut self.entries);
        let old_entry = entries.remove(i);
        let ghost after = entries@;
        proof {
            assert forall|a: int, b: int| 0 <= a < b < after.len() implies key_lt(
                #[trigger] keys_of(after)[a],
                #[trigger] keys_of(after)[b],
            ) by {
                let a0 = if a < i { a } else { a + 1 };
                let b0 = if b < i { b } else { b + 1 };
                assert(after[a] == before[a0]);
                assert(after[b] == before[b0]);
                assert(keys_of(before)[a0] == before[a0].0@);
                assert(keys_of(before)[b0] == before[b0].0@);
            }
            lemma_entries_model(after);
            assert(entries_model(after) =~= entries_model(before).remove(kv)) by {
                assert forall|k2: Seq<char>| #[trigger] entries_model(after).contains_key(k2)
                    == entries_model(before).remove(kv).contains_key(k2) by {
                    if entries_model(after).contains_key(k2) {
                        let j = choose|j: int| 0 <= j < after.len() && #[trigger] after[j].0@ == k2;
                        let j0 = if j < i { j } else { j + 1 };
                        assert(after[j] == before[j0]);
                    }
                    if entries_model(before).contains_key(k2) && k2 != kv {
                        let j = choose|j: int| 0 <= j < before.len() && #[trigger] before[j].0@ == k2;
                        if j < i {
                            assert(before[j] == after[j]);
                        } else {
                            assert(before[j] == after[j - 1]);
                        }
                    }
                }
                assert forall|k2: Seq<char>| #[trigger] entries_model(after).contains_key(k2)
                    implies entries_model(after)[k2] == entries_model(before).remove(kv)[k2] by {
                    let j = choose|j: int| 0 <= j < after.len() && #[trigger] after[j].0@ == k2;
                    let j0 = if j < i { j } else { j + 1 };
                    assert(after[j] == before[j0]);
                    assert(entries_model(before)[before[j0].0@] == value_model(before[j0].1));
                }
            }
            assert(keys_of(before)[i as int] == before[i as int].0@);
        }
        self.entries = entries;
        Some(old_entry.1)
    }

    /// The parameters, in key order.
    pub fn iter(&self) -> (r: &[(String, TagValue)])
        ensures
            self@.dom().finite(),
            r@.len() == self@.len(),
            forall|i: int, j: int| 0 <= i < j < r@.len() ==> key_lt(#[trigger] r@[i].0@, #[trigger] r@[j].0@),
            forall|i: int| 0 <= i < r@.len() ==> self@.contains_key(#[trigger] r@[i].0@)
                && self@[r@[i].0@] == r@[i].1@,
    {
        proof {
            use_type_invariant(self);
            lemma_entries_model(self.entries@);
            assert forall|i: int, j: int| 0 <= i < j < self.entries@.len() implies key_lt(
                #[trigger] self.entries@[i].0@,
                #[trigger] self.entries@[j].0@,
            ) by {
                assert(keys_of(self.entries@)[i] == self.entries@[i].0@);
                assert(keys_of(self.entries@)[j] == self.entries@[j].0@);
            }
        }
        self.entries.as_slice()
    }

    /// Look up a `bool` parameter.
    pub fn get_bool(&self, key: &str) -> (r: Option<bool>)
        ensures
            r == (if self@.contains_key(key@) {
                model_as_bool(self@[key@])
            } else {
                None
            }),
    {
        match self.get(key) {
            Some(v) => v.as_bool(),
            None => None,
        }
    }

    /// Look up a string parameter.
    pub fn get_str(&self, key: &str) -> (r: Option<&str>)
        ensures
            match r {
                Some(s) => self@.contains_key(key@) && self@[key@] == ValueModel::Text(s@),
                None => !(self@.contains_key(key@) && self@[key@] is Text),
            },
    {
        match self.get(key) {
            Some(v) => v.as_str(),
            None => None,
        }
    }

    /// Look up a parameter read as a number literal (see [`TagValue::as_number`]).
    pub fn get_number(&self, key: &str) -> (r: Option<String>)
        ensures
            match r {
                Some(t) => self@.contains_key(key@) && model_as_number(self@[key@]) == Some(t@),
                None => !self@.contains_key(key@) || model_as_number(self@[key@]) is None,
            },
    {
        match self.get(key) {
            Some(v) => v.as_number(),
            None => None,
        }
    }

    /// Whether there are no parameters.
    pub fn is_empty(&self) -> (r: bool)
        ensures
            r == (self@.len() == 0),
    {
        self.len() == 0
    }
}

/// A name reduced to the form that ignores the casing and separator
/// conventions that differ between DCCs and Rust: only ASCII letters and
/// digits are kept, lowercased.
pub open spec fn normalize(s: Seq<char>) -> Seq<char>
    decreases s.len(),
{
    if s.len() == 0 {
        Seq::empty()
    } else if is_ascii_alphanumeric(s.last()) {
        normalize(s.drop_last()).push(ascii_lower(s.last()))
    } else {
        normalize(s.drop_last())
    }
}

/// Reduce a name to a form that ignores casing and separators.
///
/// `SpawnPoint`, `spawn_point`, `spawn-point` and `Spawn Point` all collapse
/// to `spawnpoint`, so an artist's naming habits never silently fail to
/// match a tag the game registered.
pub fn normalize_key(raw: &str) -> (r: String)
    ensures
        r@ == normalize(raw@),
{
    let c = chars_of(raw);
    let mut out = String::new();
    let mut i: usize = 0;
    while i < c.len()
        invariant
            i <= c@.len(),
            c@ == raw@,
            out@ == normalize(c@.take(i as int)),
        decreases c@.len() - i,
    {
        assert(c@.take(i + 1).drop_last() =~= c@.take(i as int));
        if char_is_ascii_alphanumeric(c[i]) {
            string_push(&mut out, char_to_ascii_lowercase(c[i]));
        }
        i = i + 1;
    }
    assert(c@.take(c@.len() as int) =~= c@);
    out
}

/// Normalizing twice changes nothing: a normalized key is its own
/// normal form.
pub proof fn lemma_normalize_idempotent(s: Seq<char>)
    ensures
        normalize(normalize(s)) == normalize(s),
    decreases s.len(),
{
    if s.len() > 0 {
        lemma_normalize_idempotent(s.drop_last());
        let n = normalize(s.drop_last());
        if is_ascii_alphanumeric(s.last()) {
            let c = ascii_lower(s.last());
            assert(n.push(c).drop_last() =~= n);
            assert(is_ascii_alphanumeric(c));
            assert(ascii_lower(c) == c);
        }
    }
}

/// A case- and separator-insensitive lookup table keyed by [`normalize_key`].
#[derive(Debug)]
pub struct NormalizedMap<V> {
    inner: TextMap<V>,
}

impl<V> View for NormalizedMap<V> {
    type V = Map<Seq<char>, V>;

    closed spec fn view(&self) -> Map<Seq<char>, V> {
        self.inner@
    }
}

impl<V> NormalizedMap<V> {
    /// An empty table.
    pub fn new() -> (r: Self)
        ensures
            r@ == Map::<Seq<char>, V>::empty(),
    {
        NormalizedMap { inner: TextMap::new() }
    }

    /// Insert under the normalized form of `key`, returning any value that
    /// spelling held before.
    pub fn insert(&mut self, key: &str, value: V) -> (r: Option<V>)
        ensures
            final(self)@ == old(self)@.insert(normalize(key@), value),
            match r {
                Some(v) => old(self)@.contains_key(normalize(key@)) && v == old(self)@[normalize(
                    key@,
                )],
                None => !old(self)@.contains_key(normalize(key@)),
            },
    {
        self.inner.insert(normalize_key(key), value)
    }

    /// Look up by any spelling of `key`.
    pub fn get(&self, key: &str) -> (r: Option<&V>)
        ensures
            match r {
                Some(v) => self@.contains_key(normalize(key@)) && *v == self@[normalize(key@)],
                None => !self@.contains_key(normalize(key@)),
            },
    {
        let k = normalize_key(key);
        self.inner.get(k.as_str())
    }

    /// Whether any spelling of `key` is present.
    pub fn contains(&self, key: &str) -> (r: bool)
        ensures
            r == self@.contains_key(normalize(key@)),
    {
        self.get(key).is_some()
    }

    /// The normalized keys and their values.
    pub fn iter(&self) -> (r: &[(String, V)])
        ensures
            self@.dom().finite(),
            r@.len() == self@.len(),
            forall|i: int, j: int| 0 <= i < j < r@.len() ==> #[trigger] r@[i].0@ != #[trigger] r@[j].0@,
            forall|i: int| 0 <= i < r@.len() ==> self@.contains_key(#[trigger] r@[i].0@) && self@[r@[i].0@]
                == r@[i].1,
    {
        self.inner.iter()
    }

    /// Whether the table is empty.
    pub fn is_empty(&self) -> (r: bool)
        ensures
            r == (self@.len() == 0),
    {
        self.inner.len() == 0
    }
}

/// A string reads as the boolean it spells, in any case and with
/// surrounding whitespace ignored: `false`, `no` and `0` as false, `true`,
/// `yes` and `1` as true.
pub proof fn law_spelled_booleans(s: Seq<char>)
    ensures
        ({
            let t = lower_seq(trim(s));
            (t == seq!['f', 'a', 'l', 's', 'e'] || t == seq!['n', 'o'] || t == seq!['0'])
                ==> model_as_bool(ValueModel::Text(s)) == Some(false)
        }),
        ({
            let t = lower_seq(trim(s));
            (t == seq!['t', 'r', 'u', 'e'] || t == seq!['y', 'e', 's'] || t == seq!['1'])
                ==> model_as_bool(ValueModel::Text(s)) == Some(true)
        }),
{
    let t = lower_seq(trim(s));
    let yes = seq!['y', 'e', 's'];
    let one = seq!['1'];
    let tr = seq!['t', 'r', 'u', 'e'];
    if t == seq!['f', 'a', 'l', 's', 'e'] {
        assert(t.len() == 5 && tr.len() == 4 && yes.len() == 3 && one.len() == 1);
    }
    if t == seq!['n', 'o'] {
        assert(t[0] == 'n' && tr[0] == 't' && yes[0] == 'y' && one.len() == 1);
    }
    if t == seq!['0'] {
        assert(t[0] == '0' && tr.len() == 4 && yes.len() == 3 && one[0] == '1');
    }
}

/// Normalizing keeps every ASCII letter and digit, in order, lowercased, and
/// drops everything else: digits and lowercase letters are kept as they
/// are, an uppercase letter becomes its lowercase form, and a separator
/// (`_`, `-`, `.`, a space) is dropped. So `exit_1` and `exit_2` stay
/// distinct, while `Spawn Point` and `spawn_point` meet.
pub proof fn law_normalize_keeps_letters_and_digits(s: Seq<char>, c: char)
    ensures
        normalize(s) == lower_seq(s.filter(|x: char| is_ascii_alphanumeric(x))),
        ('0' <= c <= '9' || 'a' <= c <= 'z') ==> normalize(s.push(c)) == normalize(s).push(c),
        'A' <= c <= 'Z' ==> normalize(s.push(c)) == normalize(s).push(((c as u32) + 32) as char),
        (c == '_' || c == '-' || c == '.' || c == ' ') ==> normalize(s.push(c)) == normalize(s),
    decreases s.len(),
{
    assert(s.push(c).drop_last() =~= s);
    if s.len() > 0 {
        law_normalize_keeps_letters_and_digits(s.drop_last(), c);
        let f = |x: char| is_ascii_alphanumeric(x);
        assert(s.filter(f) == if f(s.last()) {
            s.drop_last().filter(f).push(s.last())
        } else {
            s.drop_last().filter(f)
        }) by {
            reveal(Seq::filter);
        }
        if f(s.last()) {
            assert(lower_seq(s.drop_last().filter(f).push(s.last())) =~= lower_seq(
                s.drop_last().filter(f),
            ).push(ascii_lower(s.last())));
        }
    } else {
        let f = |x: char| is_ascii_alphanumeric(x);
        assert(s.filter(f) =~= Seq::<char>::empty()) by {
            reveal(Seq::filter);
        }
        assert(lower_seq(Seq::<char>::empty()) =~= Seq::<char>::empty());
    }
}

} // verus!
