//! The values the engine's protocol is written in.
//!
//! A number is a double, as it is to the engine: the one nearest to what was
//! written.
use vstd::prelude::*;

use crate::double::{double_of, Double};
use crate::strings::same;

verus! {

/// A JSON value.
#[derive(Debug, PartialEq, Eq)]
pub enum Json {
    Null,
    Bool(bool),
    Number(Double),
    String(String),
    Array(Vec<Json>),
    /// The fields, in the order they were written.
    Object(Vec<(String, Json)>),
}

/// What a [`Json`] is, as a mathematical value.
pub enum Value {
    Null,
    Bool(bool),
    Number(Double),
    Text(Seq<char>),
    List(Seq<Value>),
    Record(Seq<(Seq<char>, Value)>),
}

impl Json {
    /// The value.
    pub open spec fn view(self) -> Value
        decreases self,
    {
        match self {
            Json::Null => Value::Null,
            Json::Bool(b) => Value::Bool(b),
            Json::Number(n) => Value::Number(n),
            Json::String(s) => Value::Text(s@),
            Json::Array(items) => Value::List(
                Seq::new(
                    items@.len(),
                    |i: int|
                        if 0 <= i < items@.len() {
                            items@[i].view()
                        } else {
                            Value::Null
                        },
                ),
            ),
            Json::Object(fields) => Value::Record(
                Seq::new(
                    fields@.len(),
                    |i: int|
                        if 0 <= i < fields@.len() {
                            (fields@[i].0@, fields@[i].1.view())
                        } else {
                            (Seq::empty(), Value::Null)
                        },
                ),
            ),
        }
    }
}


/// A list's values are those of its items.
pub proof fn lemma_list_view(items: Vec<Json>)
    ensures
        Json::Array(items)@ matches Value::List(s) && s.len() == items@.len() && forall|i: int|
            0 <= i < items@.len() ==> #[trigger] s[i] == items@[i]@,
{
}

/// A record's fields are those of the object.
pub proof fn lemma_record_view(fields: Vec<(String, Json)>)
    ensures
        Json::Object(fields)@ matches Value::Record(s) && s.len() == fields@.len() && forall|i: int|
            0 <= i < fields@.len() ==> #[trigger] s[i] == (fields@[i].0@, fields@[i].1@),
{
}

/// An item of a list is a smaller value than the list.
pub proof fn lemma_item_is_smaller(j: Json, i: int)
    requires
        j is Array,
        0 <= i < j->Array_0@.len(),
    ensures
        decreases_to!(j => j->Array_0@[i]),
{
    let items = j->Array_0;
    assert(decreases_to!(j => j->Array_0));
    assert(decreases_to!(items => items@));
    assert(decreases_to!(items@ => items@[i]));
}

/// A field of an object is a smaller value than the object.
pub proof fn lemma_field_is_smaller(j: Json, i: int)
    requires
        j is Object,
        0 <= i < j->Object_0@.len(),
    ensures
        decreases_to!(j => j->Object_0@[i].1),
{
    let fields = j->Object_0;
    assert(decreases_to!(j => j->Object_0));
    assert(decreases_to!(fields => fields@));
    assert(decreases_to!(fields@ => fields@[i]));
    assert(decreases_to!(fields@[i] => fields@[i].1));
}

/// The fields that a list of names and values is.
pub open spec fn record_of(fields: Seq<(&str, Json)>) -> Seq<(Seq<char>, Value)> {
    fields.map_values(|f: (&str, Json)| (f.0@, f.1@))
}

/// The first value under `name`.
pub open spec fn lookup(fields: Seq<(Seq<char>, Value)>, name: Seq<char>) -> Option<Value>
    decreases fields.len(),
{
    if fields.len() == 0 {
        None
    } else if fields[0].0 == name {
        Some(fields[0].1)
    } else {
        lookup(fields.drop_first(), name)
    }
}

/// No two fields have the same name.
pub open spec fn named_once(fields: Seq<(Seq<char>, Value)>) -> bool {
    forall|i: int, j: int|
        0 <= i < j < fields.len() ==> (#[trigger] fields[i]).0 != (#[trigger] fields[j]).0
}

/// Every field is found under its name, when no two have the same.
pub proof fn lemma_each_is_found(fields: Seq<(Seq<char>, Value)>)
    requires
        named_once(fields),
    ensures
        forall|i: int|
            0 <= i < fields.len() ==> lookup(fields, (#[trigger] fields[i]).0) == Some(fields[i].1),
    decreases fields.len(),
{
    if fields.len() > 0 {
        let rest = fields.drop_first();
        assert forall|i: int, j: int| 0 <= i < j < rest.len() implies (#[trigger] rest[i]).0 != (
        #[trigger] rest[j]).0 by {
            assert(rest[i] == fields[i + 1]);
            assert(rest[j] == fields[j + 1]);
        }
        lemma_each_is_found(rest);
        assert forall|i: int| 0 <= i < fields.len() implies lookup(
            fields,
            (#[trigger] fields[i]).0,
        ) == Some(fields[i].1) by {
            if i > 0 {
                assert(rest[i - 1] == fields[i]);
                assert(fields[0].0 != fields[i].0);
            }
        }
    }
}

/// Nothing is found under a name that no field has.
pub proof fn lemma_none_is_found(fields: Seq<(Seq<char>, Value)>, name: Seq<char>)
    requires
        forall|i: int| 0 <= i < fields.len() ==> (#[trigger] fields[i]).0 != name,
    ensures
        lookup(fields, name) is None,
    decreases fields.len(),
{
    if fields.len() > 0 {
        let rest = fields.drop_first();
        assert forall|i: int| 0 <= i < rest.len() implies (#[trigger] rest[i]).0 != name by {
            assert(rest[i] == fields[i + 1]);
        }
        lemma_none_is_found(rest, name);
    }
}

/// The value under `name`: nothing, when the value is no object.
pub open spec fn field(v: Value, name: Seq<char>) -> Option<Value> {
    match v {
        Value::Record(fields) => lookup(fields, name),
        _ => None,
    }
}

/// The value under `outer`, and under `inner` in it.
pub open spec fn field2(v: Value, outer: Seq<char>, inner: Seq<char>) -> Option<Value> {
    match field(v, outer) {
        Some(w) => field(w, inner),
        None => None,
    }
}

/// The text a value is, when it is one.
pub open spec fn text_of(v: Option<Value>) -> Option<Seq<char>> {
    match v {
        Some(Value::Text(s)) => Some(s),
        _ => None,
    }
}

/// The truth value a value is, when it is one.
pub open spec fn bool_of(v: Option<Value>) -> Option<bool> {
    match v {
        Some(Value::Bool(b)) => Some(b),
        _ => None,
    }
}

/// The whole number a value is, when it is one.
pub open spec fn whole_of(v: Option<Value>) -> Option<i64> {
    match v {
        Some(Value::Number(n)) => n.integer(),
        _ => None,
    }
}

/// The list a value is, when it is one.
pub open spec fn list_of(v: Option<Value>) -> Option<Seq<Value>> {
    match v {
        Some(Value::List(s)) => Some(s),
        _ => None,
    }
}

impl Json {
    /// An object of these fields, in this order.
    pub fn object(fields: Vec<(&str, Json)>) -> (r: Json)
        ensures
            r@ == Value::Record(record_of(fields@)),
    {
        let mut out: Vec<(String, Json)> = Vec::new();
        for f in it: fields
            invariant
                it.seq() == fields@,
                out@.len() == it.index(),
                forall|i: int|
                    0 <= i < out@.len() ==> (#[trigger] out@[i]).0@ == fields@[i].0@ && out@[i].1
                        == fields@[i].1,
        {
            out.push((f.0.to_owned(), f.1));
        }
        let r = Json::Object(out);
        proof {
            lemma_record_view(out);
            assert(r@->Record_0 =~= record_of(fields@));
        }
        r
    }

    /// An object of no fields.
    pub fn empty() -> (r: Json)
        ensures
            r@ == Value::Record(Seq::empty()),
    {
        let r = Json::Object(Vec::new());
        proof {
            assert(r@->Record_0 =~= Seq::empty());
        }
        r
    }

    /// A text.
    pub fn string(s: &str) -> (r: Json)
        ensures
            r@ == Value::Text(s@),
    {
        Json::String(s.to_owned())
    }

    /// A whole number.
    pub fn number(n: i64) -> (r: Json)
        ensures
            r@ == Value::Number(double_of(n as int)),
    {
        Json::Number(Double::of(n))
    }

    /// The first value under `name`; `None` when there is none, and when this
    /// is no object.
    pub fn get(&self, name: &str) -> (r: Option<&Json>)
        ensures
            match r {
                Some(j) => field(self@, name@) == Some(j@),
                None => field(self@, name@) is None,
            },
    {
        match self {
            Json::Object(fields) => {
                let mut i: usize = 0;
                let ghost all = self@->Record_0;
                proof {
                    assert(all.skip(0) =~= all);
                }
                while i < fields.len()
                    invariant
                        i <= fields@.len(),
                        *self == Json::Object(*fields),
                        all == self@->Record_0,
                        all.len() == fields@.len(),
                        lookup(all, name@) == lookup(all.skip(i as int), name@),
                    decreases fields@.len() - i,
                {
                    proof {
                        lemma_record_view(*fields);
                        assert(all.skip(i as int)[0] == all[i as int]);
                        assert(all.skip(i as int).drop_first() =~= all.skip(i + 1));
                    }
                    if same(fields[i].0.as_str(), name) {
                        return Some(&fields[i].1);
                    }
                    i += 1;
                }
                None
            },
            _ => None,
        }
    }

    /// The value under `outer`, and under `inner` in it.
    pub fn get2(&self, outer: &str, inner: &str) -> (r: Option<&Json>)
        ensures
            match r {
                Some(j) => field2(self@, outer@, inner@) == Some(j@),
                None => field2(self@, outer@, inner@) is None,
            },
    {
        match self.get(outer) {
            Some(found) => found.get(inner),
            None => None,
        }
    }

    /// The text, when this is one.
    pub fn as_str(&self) -> (r: Option<&str>)
        ensures
            match r {
                Some(s) => self@ == Value::Text(s@),
                None => !(self@ is Text),
            },
    {
        match self {
            Json::String(s) => Some(s.as_str()),
            _ => None,
        }
    }

    /// The whole number, when this is one.
    pub fn as_i64(&self) -> (r: Option<i64>)
        ensures
            r == whole_of(Some(self@)),
    {
        match self {
            Json::Number(n) => n.as_integer(),
            _ => None,
        }
    }

    /// The number, when this is one.
    pub fn as_number(&self) -> (r: Option<Double>)
        ensures
            match r {
                Some(n) => self@ == Value::Number(n),
                None => !(self@ is Number),
            },
    {
        match self {
            Json::Number(n) => Some(*n),
            _ => None,
        }
    }

    /// The truth value, when this is one.
    pub fn as_bool(&self) -> (r: Option<bool>)
        ensures
            r == bool_of(Some(self@)),
    {
        match self {
            Json::Bool(b) => Some(*b),
            _ => None,
        }
    }

    /// The items, when this is a list.
    pub fn as_array(&self) -> (r: Option<&Vec<Json>>)
        ensures
            match r {
                Some(items) => *self == Json::Array(*items) && self@ is List,
                None => !(self@ is List),
            },
    {
        match self {
            Json::Array(items) => Some(items),
            _ => None,
        }
    }

    /// The text under `name`.
    pub fn text_at(&self, name: &str) -> (r: Option<&str>)
        ensures
            match r {
                Some(s) => text_of(field(self@, name@)) == Some(s@),
                None => text_of(field(self@, name@)) is None,
            },
    {
        match self.get(name) {
            Some(found) => found.as_str(),
            None => None,
        }
    }

    /// The text under `outer`, and under `inner` in it.
    pub fn text_at2(&self, outer: &str, inner: &str) -> (r: Option<&str>)
        ensures
            match r {
                Some(s) => text_of(field2(self@, outer@, inner@)) == Some(s@),
                None => text_of(field2(self@, outer@, inner@)) is None,
            },
    {
        match self.get2(outer, inner) {
            Some(found) => found.as_str(),
            None => None,
        }
    }

    /// Whether the text under `name` is `word`.
    pub fn says(&self, name: &str, word: &str) -> (r: bool)
        ensures
            r == (text_of(field(self@, name@)) == Some(word@)),
    {
        match self.text_at(name) {
            Some(s) => same(s, word),
            None => false,
        }
    }

    /// The same value again.
    pub fn duplicate(&self) -> (r: Json)
        ensures
            r@ == self@,
        decreases self,
    {
        match self {
            Json::Null => Json::Null,
            Json::Bool(b) => Json::Bool(*b),
            Json::Number(n) => Json::Number(*n),
            Json::String(s) => Json::String(s.clone()),
            Json::Array(items) => {
                let mut out: Vec<Json> = Vec::new();
                let mut i: usize = 0;
                while i < items.len()
                    invariant
                        i <= items@.len(),
                        out@.len() == i,
                        *self == Json::Array(*items),
                        forall|k: int| 0 <= k < i ==> #[trigger] out@[k]@ == items@[k]@,
                    decreases items@.len() - i,
                {
                    proof {
                        lemma_item_is_smaller(*self, i as int);
                    }
                    out.push(items[i].duplicate());
                    i += 1;
                }
                let r = Json::Array(out);
                proof {
                    lemma_list_view(out);
                    lemma_list_view(*items);
                    assert(r@->List_0 =~= self@->List_0);
                }
                r
            },
            Json::Object(fields) => {
                let mut out: Vec<(String, Json)> = Vec::new();
                let mut i: usize = 0;
                while i < fields.len()
                    invariant
                        i <= fields@.len(),
                        out@.len() == i,
                        *self == Json::Object(*fields),
                        forall|k: int|
                            0 <= k < i ==> (#[trigger] out@[k]).0@ == fields@[k].0@ && out@[k].1@
                                == fields@[k].1@,
                    decreases fields@.len() - i,
                {
                    proof {
                        lemma_field_is_smaller(*self, i as int);
                    }
                    out.push((fields[i].0.clone(), fields[i].1.duplicate()));
                    i += 1;
                }
                let r = Json::Object(out);
                proof {
                    lemma_record_view(out);
                    lemma_record_view(*fields);
                    assert(r@->Record_0 =~= self@->Record_0);
                }
                r
            },
        }
    }
}

impl Clone for Json {
    fn clone(&self) -> (r: Json)
        ensures
            r@ == self@,
    {
        self.duplicate()
    }
}

}
