use crate::error::IonError;
use crate::name_map::{lemma_map_of, unique_names, NameMap};
use crate::text::{digit_end, is_key_char};
use vstd::prelude::*;

verus! {

/// Named values, ordered by name.
pub type Dictionary = NameMap<Value>;

/// The cells of one table row.
pub type Row = Vec<Value>;

/// A typed value of a dictionary entry, an array element or a table cell.
///
/// A float is kept as the decimal text it was written as (`digits.digits`);
/// the conversion to binary floating point is left to the caller.
#[derive(Debug, PartialEq)]
pub enum Value {
    String(String),
    Integer(i64),
    Float(String),
    Boolean(bool),
    Array(Row),
    Dictionary(Dictionary),
}

impl Value {
    /// A dictionary value has no name twice.
    pub open spec fn wf(&self) -> bool {
        match self {
            Value::Dictionary(d) => d.wf(),
            _ => true,
        }
    }

    pub fn new_string(value: &str) -> (r: Self)
        ensures
            r matches Value::String(s) && s@ == value@,
    {
        Value::String(value.to_owned())
    }

    pub fn new_string_array(value: &str) -> (r: Self)
        ensures
            r matches Value::Array(a) && a@.len() == 1 && (a@[0] matches Value::String(s) && s@
                == value@),
    {
        Self::new_array(Self::new_string(value))
    }

    pub fn new_array(value: Value) -> (r: Self)
        ensures
            r matches Value::Array(a) && a@ == seq![value],
    {
        let mut v: Vec<Value> = Vec::new();
        v.push(value);
        Value::Array(v)
    }

    /// The name of the variant.
    pub fn type_str(&self) -> (r: &'static str)
        ensures
            r@ == match self {
                Value::String(..) => "string"@,
                Value::Integer(..) => "integer"@,
                Value::Float(..) => "float"@,
                Value::Boolean(..) => "boolean"@,
                Value::Array(..) => "array"@,
                Value::Dictionary(..) => "dictionary"@,
            },
    {
        match self {
            Value::String(..) => "string",
            Value::Integer(..) => "integer",
            Value::Float(..) => "float",
            Value::Boolean(..) => "boolean",
            Value::Array(..) => "array",
            Value::Dictionary(..) => "dictionary",
        }
    }

    pub fn as_string(&self) -> (r: Option<&String>)
        ensures
            match self {
                Value::String(s) => r == Some(s),
                _ => r is None,
            },
    {
        match self {
            Value::String(v) => Some(v),
            _ => None,
        }
    }

    pub fn is_string(&self) -> (r: bool)
        ensures
            r == self is String,
    {
        matches!(self, Value::String(_))
    }

    pub fn as_str(&self) -> (r: Option<&str>)
        ensures
            match self {
                Value::String(s) => r matches Some(t) && t@ == s@,
                _ => r is None,
            },
    {
        match self {
            Value::String(v) => Some(v.as_str()),
            _ => None,
        }
    }

    pub fn as_integer(&self) -> (r: Option<i64>)
        ensures
            match self {
                Value::Integer(n) => r == Some(*n),
                _ => r is None,
            },
    {
        match self {
            Value::Integer(v) => Some(*v),
            _ => None,
        }
    }

    /// The decimal text of a float value.
    pub fn as_float_text(&self) -> (r: Option<&str>)
        ensures
            match self {
                Value::Float(s) => r matches Some(t) && t@ == s@,
                _ => r is None,
            },
    {
        match self {
            Value::Float(v) => Some(v.as_str()),
            _ => None,
        }
    }

    pub fn as_boolean(&self) -> (r: Option<bool>)
        ensures
            match self {
                Value::Boolean(b) => r == Some(*b),
                _ => r is None,
            },
    {
        match self {
            Value::Boolean(v) => Some(*v),
            _ => None,
        }
    }

    pub fn as_array(&self) -> (r: Option<&Vec<Value>>)
        ensures
            match self {
                Value::Array(a) => r == Some(a),
                _ => r is None,
            },
    {
        match self {
            Value::Array(v) => Some(v),
            _ => None,
        }
    }

    pub fn as_dictionary(&self) -> (r: Option<&Dictionary>)
        ensures
            match self {
                Value::Dictionary(d) => r == Some(d),
                _ => r is None,
            },
    {
        match self {
            Value::Dictionary(v) => Some(v),
            _ => None,
        }
    }

    /// Looks `name` up in a dictionary value; `None` for any other kind.
    pub fn get(&self, name: &str) -> (r: Option<&Value>)
        requires
            self.wf(),
        ensures
            match self {
                Value::Dictionary(d) => match r {
                    Some(v) => d@.contains_key(name@) && *v == d@[name@],
                    None => !d@.contains_key(name@),
                },
                _ => r is None,
            },
    {
        match self {
            Value::Dictionary(v) => v.get(name),
            _ => None,
        }
    }
}

impl std::str::FromStr for Value {
    type Err = IonError;

    /// A string value holding `s`; never fails.
    fn from_str(s: &str) -> Result<Value, IonError> {
        Ok(Value::String(s.to_owned()))
    }
}

/// What a value stands for, as a mathematical object.
pub enum Model {
    Str(Seq<char>),
    Int(int),
    Float(Seq<char>),
    Bool(bool),
    Arr(Seq<Model>),
    Dict(Map<Seq<char>, Model>),
}

/// The model of a value: strings by their characters, integers as integers,
/// arrays element by element, dictionaries name by name.
pub open spec fn model_of(v: Value) -> Model
    decreases v, 0int,
    via model_of_decreases
{
    match v {
        Value::String(s) => Model::Str(s@),
        Value::Integer(n) => Model::Int(n as int),
        Value::Float(t) => Model::Float(t@),
        Value::Boolean(b) => Model::Bool(b),
        Value::Array(a) => Model::Arr(models(a@, a@.len() as int)),
        Value::Dictionary(d) => Model::Dict(entry_models(d.pairs(), d.pairs().len() as int)),
    }
}

/// The models of the first `n` values.
pub open spec fn models(s: Seq<Value>, n: int) -> Seq<Model>
    decreases s, n,
{
    if n <= 0 || n > s.len() {
        Seq::empty()
    } else {
        models(s, n - 1).push(model_of(s[n - 1]))
    }
}

/// The first `n` named values, modelled and entered in order.
pub open spec fn entry_models(s: Seq<(String, Value)>, n: int) -> Map<Seq<char>, Model>
    decreases s, n,
{
    if n <= 0 || n > s.len() {
        Map::empty()
    } else {
        entry_models(s, n - 1).insert(s[n - 1].0@, model_of(s[n - 1].1))
    }
}

#[via_fn]
proof fn model_of_decreases(v: Value) {
    broadcast use vstd::std_specs::vec::group_vec_axioms;

    match v {
        Value::Array(a) => {
            assert(decreases_to!(v => a));
            assert(decreases_to!(a => a@));
        },
        Value::Dictionary(d) => {
            assert(decreases_to!(v => d));
            d.lemma_pairs_decrease();
        },
        _ => {},
    }
}

/// The model of a dictionary's entries.
pub open spec fn dict_model(d: Dictionary) -> Map<Seq<char>, Model> {
    entry_models(d.pairs(), d.pairs().len() as int)
}

/// The models of the first `n` values depend on those values alone.
pub proof fn lemma_models_prefix(s: Seq<Value>, t: Seq<Value>, n: int)
    requires
        0 <= n <= s.len(),
        n <= t.len(),
        forall|i: int| 0 <= i < n ==> s[i] == t[i],
    ensures
        models(s, n) == models(t, n),
    decreases n,
{
    if n > 0 {
        lemma_models_prefix(s, t, n - 1);
    }
}

proof fn lemma_entry_models(s: Seq<(String, Value)>, n: int)
    requires
        0 <= n <= s.len(),
        unique_names(s),
    ensures
        forall|k: Seq<char>|
            #[trigger] entry_models(s, n).contains_key(k) <==> exists|i: int|
                0 <= i < n && #[trigger] s[i].0@ == k,
        forall|i: int|
            0 <= i < n ==> #[trigger] entry_models(s, n)[s[i].0@] == model_of(s[i].1),
    decreases n,
{
    if n > 0 {
        lemma_entry_models(s, n - 1);
        assert forall|k: Seq<char>|
            #[trigger] entry_models(s, n).contains_key(k) <==> exists|i: int|
                0 <= i < n && #[trigger] s[i].0@ == k by {
            if entry_models(s, n).contains_key(k) && k != s[n - 1].0@ {
                assert(entry_models(s, n - 1).contains_key(k));
            }
        }
        assert forall|i: int| 0 <= i < n implies #[trigger] entry_models(s, n)[s[i].0@] == model_of(
            s[i].1,
        ) by {
            if i < n - 1 {
                assert(s[i].0@ != s[n - 1].0@);
            }
        }
    }
}

/// A dictionary's model holds each name of the dictionary, with the model
/// of its value.
pub proof fn lemma_dict_model(d: Dictionary)
    requires
        d.wf(),
    ensures
        forall|k: Seq<char>| #[trigger] dict_model(d).contains_key(k) <==> d@.contains_key(k),
        forall|k: Seq<char>|
            d@.contains_key(k) ==> #[trigger] dict_model(d)[k] == model_of(d@[k]),
{
    d.lemma_view();
    lemma_map_of(d.pairs());
    lemma_entry_models(d.pairs(), d.pairs().len() as int);
    assert forall|k: Seq<char>| d@.contains_key(k) implies #[trigger] dict_model(d)[k] == model_of(
        d@[k],
    ) by {
        let i = choose|i: int| 0 <= i < d.pairs().len() && #[trigger] d.pairs()[i].0@ == k;
        assert(d@[d.pairs()[i].0@] == d.pairs()[i].1);
    }
}

/// A float's text as the reader keeps it: digits, `.`, digits.
pub open spec fn float_shaped(t: Seq<char>) -> bool {
    0 < digit_end(t, 0) < t.len() && t[digit_end(t, 0)] == '.' && digit_end(t, digit_end(t, 0) + 1)
        == t.len()
}

/// A name the reader takes as a key: one or more of `[A-Za-z0-9_-]`.
pub open spec fn key_shaped(k: Seq<char>) -> bool {
    k.len() > 0 && forall|i: int| 0 <= i < k.len() ==> is_key_char(#[trigger] k[i])
}

/// Values of the kind the reader produces: integers not negative, floats
/// shaped as `digits.digits`, dictionary names shaped as keys, and so on
/// inside arrays and dictionaries.
pub open spec fn readable(v: Value) -> bool
    decreases v, 0int,
    via readable_decreases
{
    match v {
        Value::String(_) => true,
        Value::Boolean(_) => true,
        Value::Integer(n) => n >= 0,
        Value::Float(t) => float_shaped(t@),
        Value::Array(a) => readable_items(a@, a@.len() as int),
        Value::Dictionary(d) => readable_entries(d.pairs(), d.pairs().len() as int),
    }
}

/// The first `n` values are readable.
pub open spec fn readable_items(s: Seq<Value>, n: int) -> bool
    decreases s, n,
{
    if n <= 0 || n > s.len() {
        true
    } else {
        readable_items(s, n - 1) && readable(s[n - 1])
    }
}

/// The first `n` entries have key-shaped names and readable values.
pub open spec fn readable_entries(s: Seq<(String, Value)>, n: int) -> bool
    decreases s, n,
{
    if n <= 0 || n > s.len() {
        true
    } else {
        readable_entries(s, n - 1) && key_shaped(s[n - 1].0@) && readable(s[n - 1].1)
    }
}

#[via_fn]
proof fn readable_decreases(v: Value) {
    broadcast use vstd::std_specs::vec::group_vec_axioms;

    match v {
        Value::Array(a) => {
            assert(decreases_to!(v => a));
            assert(decreases_to!(a => a@));
        },
        Value::Dictionary(d) => {
            assert(decreases_to!(v => d));
            d.lemma_pairs_decrease();
        },
        _ => {},
    }
}

/// Whether the first `n` values are readable depends on those values alone.
pub proof fn lemma_readable_items_prefix(s: Seq<Value>, t: Seq<Value>, n: int)
    requires
        0 <= n <= s.len(),
        n <= t.len(),
        forall|i: int| 0 <= i < n ==> s[i] == t[i],
    ensures
        readable_items(s, n) == readable_items(t, n),
    decreases n,
{
    if n > 0 {
        lemma_readable_items_prefix(s, t, n - 1);
    }
}

proof fn lemma_readable_entries_all(s: Seq<(String, Value)>, n: int)
    requires
        0 <= n <= s.len(),
        forall|i: int| 0 <= i < n ==> key_shaped(#[trigger] s[i].0@) && readable(s[i].1),
    ensures
        readable_entries(s, n),
    decreases n,
{
    if n > 0 {
        lemma_readable_entries_all(s, n - 1);
    }
}

/// A dictionary whose names are keys and whose values are readable is
/// readable entry by entry.
pub proof fn lemma_readable_dict(d: Dictionary)
    requires
        d.wf(),
        forall|k: Seq<char>| #[trigger] d@.contains_key(k) ==> key_shaped(k) && readable(d@[k]),
    ensures
        readable(Value::Dictionary(d)),
{
    d.lemma_view();
    lemma_map_of(d.pairs());
    assert forall|i: int| 0 <= i < d.pairs().len() implies key_shaped(#[trigger] d.pairs()[i].0@)
        && readable(d.pairs()[i].1) by {
        assert(d@.contains_key(d.pairs()[i].0@));
    }
    lemma_readable_entries_all(d.pairs(), d.pairs().len() as int);
}

} // verus!
