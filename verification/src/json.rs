use vstd::prelude::*;

use crate::strings::str_equal;
use crate::strmap::{
    keys_sorted,
    model_get, model_insert, model_keys, entries_insert, entry_keys, insert_index, key_index, lemma_insert_index_from, lemma_key_index,
    StrMap,
};

verus! {

/// A JSON number as serde_json keeps it: a non-negative integer, a negative
/// integer, or a finite floating-point number held as its shortest decimal
/// text. What of this can be stated without floating point is `num_wf`.
#[derive(Debug, Clone)]
pub enum JsonNumber {
    PosInt(u64),
    NegInt(i64),
    Float(String),
}

/// A JSON document. Objects keep their members in key order.
#[derive(Debug)]
pub enum JsonValue {
    Null,
    Bool(bool),
    Number(JsonNumber),
    String(String),
    Array(Vec<JsonValue>),
    Object(StrMap<JsonValue>),
}

/// The mathematical value of a JSON number.
pub enum Num {
    PosInt(u64),
    NegInt(i64),
    Float(Seq<char>),
}

/// The mathematical value of a JSON document.
pub enum Json {
    Null,
    Bool(bool),
    Num(Num),
    Str(Seq<char>),
    Arr(Seq<Json>),
    Obj(Seq<(Seq<char>, Json)>),
}

pub open spec fn num_view(n: JsonNumber) -> Num {
    match n {
        JsonNumber::PosInt(u) => Num::PosInt(u),
        JsonNumber::NegInt(i) => Num::NegInt(i),
        JsonNumber::Float(s) => Num::Float(s@),
    }
}

pub open spec fn json_view(v: JsonValue) -> Json
    decreases v,
{
    match v {
        JsonValue::Null => Json::Null,
        JsonValue::Bool(b) => Json::Bool(b),
        JsonValue::Number(n) => Json::Num(num_view(n)),
        JsonValue::String(s) => Json::Str(s@),
        JsonValue::Array(a) => Json::Arr(json_seq_view(a@)),
        JsonValue::Object(m) => Json::Obj(json_entries_view(m.entries@)),
    }
}

pub open spec fn json_seq_view(s: Seq<JsonValue>) -> Seq<Json>
    decreases s,
{
    if s.len() == 0 {
        Seq::empty()
    } else {
        json_seq_view(s.drop_last()).push(json_view(s.last()))
    }
}

pub open spec fn json_entries_view(s: Seq<(String, JsonValue)>) -> Seq<(Seq<char>, Json)>
    decreases s,
{
    if s.len() == 0 {
        Seq::empty()
    } else {
        json_entries_view(s.drop_last()).push((s.last().0@, json_view(s.last().1)))
    }
}

impl View for JsonValue {
    type V = Json;

    open spec fn view(&self) -> Json {
        json_view(*self)
    }
}

} // verus!

verus! {

pub open spec fn float_text_is_zero(s: Seq<char>) -> bool {
    s =~= seq!['0', '.', '0'] || s =~= seq!['-', '0', '.', '0']
}

/// Number equality as serde_json defines it: integers by value, floats by
/// value (so `0.0` equals `-0.0`), and never an integer with a float.
pub open spec fn num_eq(a: Num, b: Num) -> bool {
    match (a, b) {
        (Num::PosInt(x), Num::PosInt(y)) => x == y,
        (Num::NegInt(x), Num::NegInt(y)) => x == y,
        (Num::Float(x), Num::Float(y)) => x == y || (float_text_is_zero(x) && float_text_is_zero(y)),
        _ => false,
    }
}

/// Structural equality of JSON documents, as `serde_json::Value`'s `==`.
pub open spec fn json_eq(a: Json, b: Json) -> bool
    decreases a,
{
    match a {
        Json::Null => b is Null,
        Json::Bool(x) => b matches Json::Bool(y) && x == y,
        Json::Num(x) => b matches Json::Num(y) && num_eq(x, y),
        Json::Str(x) => b matches Json::Str(y) && x == y,
        Json::Arr(x) => match b {
            Json::Arr(y) => x.len() == y.len() && forall|i: int|
                0 <= i < x.len() ==> json_eq(#[trigger] x[i], y[i]),
            _ => false,
        },
        Json::Obj(x) => match b {
            Json::Obj(y) => x.len() == y.len() && forall|i: int|
                0 <= i < x.len() ==> (#[trigger] x[i]).0 == y[i].0 && json_eq(x[i].1, y[i].1),
            _ => false,
        },
    }
}

/// A well-formed number, as serde_json holds one: `NegInt` only below
/// zero, and a float's text with a `.` or an exponent, never an integer's
/// digits alone. (That the text is the shortest one for its value is a fact
/// about floating point, which is not stated here.)
pub open spec fn num_wf(n: Num) -> bool {
    match n {
        Num::PosInt(_) => true,
        Num::NegInt(i) => i < 0,
        Num::Float(s) => s.contains('.') || s.contains('e'),
    }
}

/// A well-formed document: well-formed numbers, and objects whose keys are
/// in strictly ascending order, at every depth. serde_json's documents are
/// well-formed; `json_eq` is serde_json's `==` on them.
pub open spec fn json_wf(v: Json) -> bool
    decreases v,
{
    match v {
        Json::Num(n) => num_wf(n),
        Json::Arr(a) => forall|i: int| 0 <= i < a.len() ==> json_wf(#[trigger] a[i]),
        Json::Obj(es) => keys_sorted(model_keys(es)) && forall|i: int|
            0 <= i < es.len() ==> json_wf((#[trigger] es[i]).1),
        _ => true,
    }
}

pub open spec fn obj_view(m: StrMap<JsonValue>) -> Seq<(Seq<char>, Json)> {
    json_entries_view(m.entries@)
}

pub proof fn lemma_seq_view(s: Seq<JsonValue>)
    ensures
        json_seq_view(s).len() == s.len(),
        forall|i: int| 0 <= i < s.len() ==> #[trigger] json_seq_view(s)[i] == json_view(s[i]),
    decreases s.len(),
{
    if s.len() > 0 {
        lemma_seq_view(s.drop_last());
    }
}

pub proof fn lemma_entries_view(s: Seq<(String, JsonValue)>)
    ensures
        json_entries_view(s).len() == s.len(),
        forall|i: int|
            0 <= i < s.len() ==> #[trigger] json_entries_view(s)[i] == (s[i].0@, json_view(s[i].1)),
        model_keys(json_entries_view(s)) == entry_keys(s),
    decreases s.len(),
{
    if s.len() > 0 {
        lemma_entries_view(s.drop_last());
    }
    assert(model_keys(json_entries_view(s)) =~= entry_keys(s));
}

pub proof fn lemma_seq_view_push(s: Seq<JsonValue>, v: JsonValue)
    ensures
        json_seq_view(s.push(v)) == json_seq_view(s).push(json_view(v)),
{
    assert(s.push(v).drop_last() =~= s);
}

pub proof fn lemma_entries_view_insert(s: Seq<(String, JsonValue)>, k: String, v: JsonValue)
    ensures
        json_entries_view(entries_insert(s, k, v)) == model_insert(json_entries_view(s), k@, json_view(v)),
{
    lemma_entries_view(s);
    let r = entries_insert(s, k, v);
    lemma_entries_view(r);
    lemma_key_index(entry_keys(s), k@);
    match key_index(entry_keys(s), k@) {
        Some(i) => {
            assert(json_entries_view(r) =~= json_entries_view(s).update(i, (k@, json_view(v))));
        },
        None => {
            let p = insert_index(entry_keys(s), k@);
            lemma_insert_index_from(entry_keys(s), k@, 0);
            assert(json_entries_view(r) =~= json_entries_view(s).insert(p, (k@, json_view(v))));
        },
    }
}

pub proof fn lemma_obj_get_view(m: StrMap<JsonValue>, k: Seq<char>)
    ensures
        model_get(obj_view(m), k) == match key_index(m.keys(), k) {
            Some(i) => Some(json_view(m.entries@[i].1)),
            None => None,
        },
{
    lemma_entries_view(m.entries@);
    lemma_key_index(m.keys(), k);
}

impl JsonValue {
    /// A deep copy.
    #[verifier::loop_isolation(false)]
    pub fn duplicate(&self) -> (r: JsonValue)
        ensures
            r@ == self@,
        decreases self,
    {
        match self {
            JsonValue::Null => JsonValue::Null,
            JsonValue::Bool(b) => JsonValue::Bool(*b),
            JsonValue::Number(n) => JsonValue::Number(
                match n {
                    JsonNumber::PosInt(u) => JsonNumber::PosInt(*u),
                    JsonNumber::NegInt(i) => JsonNumber::NegInt(*i),
                    JsonNumber::Float(s) => JsonNumber::Float(s.clone()),
                },
            ),
            JsonValue::String(s) => JsonValue::String(s.clone()),
            JsonValue::Array(a) => {
                let mut out: Vec<JsonValue> = Vec::new();
                let mut i: usize = 0;
                while i < a.len()
                    invariant
                        i <= a@.len(),
                        json_seq_view(out@) == json_seq_view(a@.take(i as int)),
                    decreases a@.len() - i,
                {
                    proof {
                        assert(decreases_to!(*self => a@[i as int]));
                    }
                    let item = a[i].duplicate();
                    proof {
                        lemma_seq_view_push(out@, item);
                        lemma_seq_view_push(a@.take(i as int), a@[i as int]);
                        assert(a@.take(i as int).push(a@[i as int]) =~= a@.take(i + 1));
                    }
                    out.push(item);
                    i = i + 1;
                }
                assert(a@.take(i as int) =~= a@);
                JsonValue::Array(out)
            },
            JsonValue::Object(m) => {
                let mut out: Vec<(String, JsonValue)> = Vec::new();
                let mut i: usize = 0;
                while i < m.entries.len()
                    invariant
                        i <= m.entries@.len(),
                        json_entries_view(out@) == json_entries_view(m.entries@.take(i as int)),
                    decreases m.entries@.len() - i,
                {
                    proof {
                        assert(decreases_to!(*self => m.entries@[i as int].1));
                    }
                    let item = (m.entries[i].0.clone(), m.entries[i].1.duplicate());
                    proof {
                        let t = m.entries@.take(i as int);
                        assert(out@.push(item).drop_last() =~= out@);
                        assert(t.push(m.entries@[i as int]).drop_last() =~= t);
                        assert(t.push(m.entries@[i as int]) =~= m.entries@.take(i + 1));
                    }
                    out.push(item);
                    i = i + 1;
                }
                assert(m.entries@.take(i as int) =~= m.entries@);
                JsonValue::Object(StrMap { entries: out })
            },
        }
    }
}

} // verus!

verus! {

fn float_text_zero(s: &String) -> (r: bool)
    ensures
        r == float_text_is_zero(s@),
{
    let t = s.as_str();
    let n = t.unicode_len();
    if n == 3 {
        t.get_char(0) == '0' && t.get_char(1) == '.' && t.get_char(2) == '0'
    } else if n == 4 {
        t.get_char(0) == '-' && t.get_char(1) == '0' && t.get_char(2) == '.' && t.get_char(3) == '0'
    } else {
        false
    }
}

fn num_equal(a: &JsonNumber, b: &JsonNumber) -> (r: bool)
    ensures
        r == num_eq(num_view(*a), num_view(*b)),
{
    match (a, b) {
        (JsonNumber::PosInt(x), JsonNumber::PosInt(y)) => *x == *y,
        (JsonNumber::NegInt(x), JsonNumber::NegInt(y)) => *x == *y,
        (JsonNumber::Float(x), JsonNumber::Float(y)) => {
            str_equal(x.as_str(), y.as_str()) || (float_text_zero(x) && float_text_zero(y))
        },
        _ => false,
    }
}

/// `a == b` on JSON documents: structural, with numbers compared as
/// serde_json compares them (on well-formed documents, `json_wf`).
#[verifier::loop_isolation(false)]
pub fn json_equal(a: &JsonValue, b: &JsonValue) -> (r: bool)
    ensures
        r == json_eq(a@, b@),
    decreases a,
{
    match (a, b) {
        (JsonValue::Null, JsonValue::Null) => true,
        (JsonValue::Bool(x), JsonValue::Bool(y)) => *x == *y,
        (JsonValue::Number(x), JsonValue::Number(y)) => num_equal(x, y),
        (JsonValue::String(x), JsonValue::String(y)) => str_equal(x.as_str(), y.as_str()),
        (JsonValue::Array(x), JsonValue::Array(y)) => {
            proof {
                lemma_seq_view(x@);
                lemma_seq_view(y@);
            }
            if x.len() != y.len() {
                return false;
            }
            let mut i: usize = 0;
            while i < x.len()
                invariant
                    i <= x@.len(),
                    x@.len() == y@.len(),
                    forall|j: int| 0 <= j < i ==> json_eq(json_view(x@[j]), json_view(y@[j])),
                decreases x@.len() - i,
            {
                proof {
                    assert(decreases_to!(*a => x@[i as int]));
                }
                if !json_equal(&x[i], &y[i]) {
                    assert(!json_eq(json_seq_view(x@)[i as int], json_seq_view(y@)[i as int]));
                    return false;
                }
                i = i + 1;
            }
            true
        },
        (JsonValue::Object(x), JsonValue::Object(y)) => {
            proof {
                lemma_entries_view(x.entries@);
                lemma_entries_view(y.entries@);
            }
            if x.entries.len() != y.entries.len() {
                return false;
            }
            let mut i: usize = 0;
            while i < x.entries.len()
                invariant
                    i <= x.entries@.len(),
                    x.entries@.len() == y.entries@.len(),
                    forall|j: int|
                        0 <= j < i ==> x.entries@[j].0@ == y.entries@[j].0@ && json_eq(
                            json_view(x.entries@[j].1),
                            json_view(y.entries@[j].1),
                        ),
                decreases x.entries@.len() - i,
            {
                proof {
                    assert(decreases_to!(*a => x.entries@[i as int].1));
                }
                if !str_equal(x.entries[i].0.as_str(), y.entries[i].0.as_str()) {
                    assert(json_entries_view(x.entries@)[i as int].0 != json_entries_view(
                        y.entries@,
                    )[i as int].0);
                    return false;
                }
                if !json_equal(&x.entries[i].1, &y.entries[i].1) {
                    assert(!json_eq(
                        json_entries_view(x.entries@)[i as int].1,
                        json_entries_view(y.entries@)[i as int].1,
                    ));
                    return false;
                }
                i = i + 1;
            }
            true
        },
        _ => false,
    }
}

impl JsonValue {
    /// The text of a JSON string.
    pub fn as_str(&self) -> (r: Option<&str>)
        ensures
            match self@ {
                Json::Str(s) => r matches Some(t) && t@ == s,
                _ => r is None,
            },
    {
        match self {
            JsonValue::String(s) => Some(s.as_str()),
            _ => None,
        }
    }

    /// The value of a JSON boolean.
    pub fn as_bool(&self) -> (r: Option<bool>)
        ensures
            r == match self@ {
                Json::Bool(b) => Some(b),
                _ => None,
            },
    {
        match self {
            JsonValue::Bool(b) => Some(*b),
            _ => None,
        }
    }

    /// The value of a JSON number that is a non-negative integer.
    pub fn as_u64(&self) -> (r: Option<u64>)
        ensures
            r == match self@ {
                Json::Num(Num::PosInt(u)) => Some(u),
                _ => None,
            },
    {
        match self {
            JsonValue::Number(JsonNumber::PosInt(u)) => Some(*u),
            _ => None,
        }
    }

    /// The elements of a JSON array.
    pub fn as_array(&self) -> (r: Option<&Vec<JsonValue>>)
        ensures
            match self@ {
                Json::Arr(s) => r matches Some(a) && json_seq_view(a@) == s,
                _ => r is None,
            },
    {
        match self {
            JsonValue::Array(a) => Some(a),
            _ => None,
        }
    }

    /// The members of a JSON object.
    pub fn as_object(&self) -> (r: Option<&StrMap<JsonValue>>)
        ensures
            match self@ {
                Json::Obj(es) => r matches Some(m) && obj_view(*m) == es,
                _ => r is None,
            },
    {
        match self {
            JsonValue::Object(m) => Some(m),
            _ => None,
        }
    }

    pub fn is_null(&self) -> (r: bool)
        ensures
            r == (self@ is Null),
    {
        match self {
            JsonValue::Null => true,
            _ => false,
        }
    }

    /// The member `key` of a JSON object; `None` for a missing member or a
    /// value that is not an object.
    pub fn get(&self, key: &str) -> (r: Option<&JsonValue>)
        ensures
            match self@ {
                Json::Obj(es) => match model_get(es, key@) {
                    Some(v) => r matches Some(x) && x@ == v,
                    None => r is None,
                },
                _ => r is None,
            },
    {
        match self {
            JsonValue::Object(m) => {
                proof {
                    lemma_obj_get_view(*m, key@);
                }
                m.get(key)
            },
            _ => None,
        }
    }
}

} // verus!

verus! {

/// A deep copy of the members of an object.
pub fn duplicate_map(m: &StrMap<JsonValue>) -> (r: StrMap<JsonValue>)
    ensures
        obj_view(r) == obj_view(*m),
{
    let mut out: Vec<(String, JsonValue)> = Vec::new();
    let mut i: usize = 0;
    while i < m.entries.len()
        invariant
            i <= m.entries@.len(),
            json_entries_view(out@) == json_entries_view(m.entries@.take(i as int)),
        decreases m.entries@.len() - i,
    {
        let item = (m.entries[i].0.clone(), m.entries[i].1.duplicate());
        proof {
            let t = m.entries@.take(i as int);
            assert(out@.push(item).drop_last() =~= out@);
            assert(t.push(m.entries@[i as int]).drop_last() =~= t);
            assert(t.push(m.entries@[i as int]) =~= m.entries@.take(i + 1));
        }
        out.push(item);
        i = i + 1;
    }
    assert(m.entries@.take(i as int) =~= m.entries@);
    StrMap { entries: out }
}

} // verus!

verus! {

/// The member `key` of an object.
pub fn model_get_json<'a>(m: &'a StrMap<JsonValue>, key: &str) -> (r: Option<&'a JsonValue>)
    ensures
        match model_get(obj_view(*m), key@) {
            Some(v) => r matches Some(x) && x@ == v,
            None => r is None,
        },
{
    proof {
        lemma_obj_get_view(*m, key@);
    }
    m.get(key)
}

} // verus!

verus! {

impl Clone for JsonValue {
    /// A deep copy.
    fn clone(&self) -> (r: Self)
        ensures
            r@ == self@,
    {
        self.duplicate()
    }
}

impl PartialEq for JsonValue {
    fn eq(&self, other: &Self) -> (r: bool) {
        json_equal(self, other)
    }
}

impl vstd::std_specs::cmp::PartialEqSpecImpl for JsonValue {
    open spec fn obeys_eq_spec() -> bool {
        true
    }

    open spec fn eq_spec(&self, other: &Self) -> bool {
        json_eq(self@, other@)
    }
}

} // verus!
