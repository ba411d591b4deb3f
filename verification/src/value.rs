//! JSON values, as the tree operations hold them.

use vstd::prelude::*;

use crate::json::Json;

verus! {

/// The equality of string slices of std (`==` on `str`). The claim: two slices
/// are equal exactly when they hold the same characters in the same order.
pub assume_specification[ <str as PartialEq<str>>::eq ](s: &str, other: &str) -> (res: bool)
    ensures
        res == (s@ == other@),
;

/// A JSON number. A number that is no 64-bit integer is kept as the bit
/// pattern of its double.
#[derive(Debug, Clone, Copy, PartialEq, Eq, Structural)]
pub enum Number {
    PosInt(u64),
    NegInt(i64),
    Float(u64),
}

/// A JSON value. An object lists its members; should a key be listed more
/// than once, its first member is the one that counts.
#[derive(Debug)]
pub enum Value {
    Null,
    Bool(bool),
    Number(Number),
    String(String),
    Array(Vec<Value>),
    Object(Vec<(String, Value)>),
}

/// The document that a value stands for.
pub open spec fn json_of(v: Value) -> Json
    decreases v,
{
    match v {
        Value::Null => Json::Null,
        Value::Bool(b) => Json::Bool(b),
        Value::Number(n) => Json::Number(n),
        Value::String(s) => Json::String(s@),
        Value::Array(items) => Json::Array(
            Seq::new(
                items@.len(),
                |i: int| if 0 <= i < items@.len() { json_of(items@[i]) } else { Json::Null },
            ),
        ),
        Value::Object(members) => Json::Object(members_of(members@)),
    }
}

/// The map that a list of members stands for.
pub open spec fn members_of(members: Seq<(String, Value)>) -> Map<Seq<char>, Json>
    decreases members,
{
    if members.len() == 0 {
        Map::empty()
    } else {
        members_of(members.drop_first()).insert(members[0].0@, json_of(members[0].1))
    }
}

impl View for Value {
    type V = Json;

    open spec fn view(&self) -> Json {
        json_of(*self)
    }
}

/// The documents that a list of values stands for.
pub open spec fn forest(values: Seq<Value>) -> Seq<Json> {
    Seq::new(values.len(), |i: int| json_of(values[i]))
}

/// The character sequences of a list of strings.
pub open spec fn texts(strings: Seq<String>) -> Seq<Seq<char>> {
    Seq::new(strings.len(), |i: int| strings[i]@)
}

pub broadcast proof fn lemma_array_view(items: Vec<Value>)
    ensures
        #[trigger] json_of(Value::Array(items)) == Json::Array(forest(items@)),
{
    assert(json_of(Value::Array(items))->Array_0 =~= forest(items@));
}

pub broadcast proof fn lemma_forest_update(values: Seq<Value>, i: int, v: Value)
    requires
        0 <= i < values.len(),
    ensures
        #[trigger] forest(values.update(i, v)) == forest(values).update(i, json_of(v)),
{
    assert(forest(values.update(i, v)) =~= forest(values).update(i, json_of(v)));
}

pub broadcast proof fn lemma_forest_push(values: Seq<Value>, v: Value)
    ensures
        #[trigger] forest(values.push(v)) == forest(values).push(json_of(v)),
{
    assert(forest(values.push(v)) =~= forest(values).push(json_of(v)));
}

pub broadcast proof fn lemma_texts_push(strings: Seq<String>, s: String)
    ensures
        #[trigger] texts(strings.push(s)) == texts(strings).push(s@),
{
    assert(texts(strings.push(s)) =~= texts(strings).push(s@));
}

/// A value stands for what it holds: a list for its items one by one, an object
/// for the first member with each key.
pub proof fn law_value_is_what_it_holds(value: Value)
    ensures
        match value {
            Value::Null => value@ is Null,
            Value::Bool(b) => value@ == Json::Bool(b),
            Value::Number(n) => value@ == Json::Number(n),
            Value::String(s) => value@ == Json::String(s@),
            Value::Array(items) => {
                &&& value@ is Array
                &&& value@->Array_0.len() == items@.len()
                &&& forall|i: int|
                    0 <= i < items@.len() ==> #[trigger] value@->Array_0[i] == items@[i]@
            },
            Value::Object(members) => {
                &&& value@ is Object
                &&& forall|i: int|
                    0 <= i < members@.len() && (forall|j: int|
                        0 <= j < i ==> (#[trigger] members@[j]).0@ != members@[i].0@) ==> {
                        let key = (#[trigger] members@[i]).0@;
                        value@->Object_0.dom().contains(key) && value@->Object_0[key]
                            == members@[i].1@
                    }
                &&& forall|key: Seq<char>| #[trigger]
                    value@->Object_0.dom().contains(key) ==> exists|i: int|
                        0 <= i < members@.len() && (#[trigger] members@[i]).0@ == key
            },
        },
{
    if value is Object {
        let members = value->Object_0@;
        assert forall|i: int|
            0 <= i < members.len() && (forall|j: int|
                0 <= j < i ==> (#[trigger] members[j]).0@ != members[i].0@) implies {
            let key = (#[trigger] members[i]).0@;
            value@->Object_0.dom().contains(key) && value@->Object_0[key] == members[i].1@
        } by {
            lemma_members_first(members, i, members[i]);
        }
        assert forall|key: Seq<char>| #[trigger]
            value@->Object_0.dom().contains(key) implies exists|i: int|
            0 <= i < members.len() && (#[trigger] members[i]).0@ == key by {
            if forall|i: int| 0 <= i < members.len() ==> (#[trigger] members[i]).0@ != key {
                lemma_members_absent(members, key);
            }
        }
    }
}

/// Lists of values and of texts stand for what they hold, one by one.
pub proof fn law_lists_are_what_they_hold(values: Seq<Value>, strings: Seq<String>)
    ensures
        forest(values).len() == values.len(),
        forall|i: int| 0 <= i < values.len() ==> #[trigger] forest(values)[i] == values[i]@,
        texts(strings).len() == strings.len(),
        forall|i: int| 0 <= i < strings.len() ==> #[trigger] texts(strings)[i] == strings[i]@,
{
}

// ---- members of an object ---------------------------------------------------

/// None of the first `n` members has the key.
spec fn absent(members: Seq<(String, Value)>, n: int, key: Seq<char>) -> bool {
    forall|j: int| 0 <= j < n ==> (#[trigger] members[j]).0@ != key
}

proof fn lemma_absent_drop_first(members: Seq<(String, Value)>, n: int, key: Seq<char>)
    requires
        0 < n <= members.len(),
        absent(members, n, key),
    ensures
        members[0].0@ != key,
        absent(members.drop_first(), n - 1, key),
{
    assert forall|j: int| 0 <= j < n - 1 implies (#[trigger] members.drop_first()[j]).0@ != key by {
        assert(members.drop_first()[j] == members[j + 1]);
    }
}

proof fn lemma_members_absent(members: Seq<(String, Value)>, key: Seq<char>)
    requires
        absent(members, members.len() as int, key),
    ensures
        !members_of(members).contains_key(key),
    decreases members.len(),
{
    if members.len() > 0 {
        lemma_absent_drop_first(members, members.len() as int, key);
        lemma_members_absent(members.drop_first(), key);
    }
}

/// The first member with a key decides the key, and to replace its value is
/// to set the key.
proof fn lemma_members_first(members: Seq<(String, Value)>, i: int, new: (String, Value))
    requires
        0 <= i < members.len(),
        absent(members, i, members[i].0@),
        new.0@ == members[i].0@,
    ensures
        members_of(members).contains_key(members[i].0@),
        members_of(members)[members[i].0@] == json_of(members[i].1),
        members_of(members.update(i, new)) == members_of(members).insert(
            members[i].0@,
            json_of(new.1),
        ),
    decreases members.len(),
{
    let key = members[i].0@;
    let rest = members.drop_first();
    if i == 0 {
        assert(members.update(i, new).drop_first() =~= rest);
    } else {
        lemma_absent_drop_first(members, i, key);
        lemma_members_first(rest, i - 1, new);
        assert(members.update(i, new).drop_first() =~= rest.update(i - 1, new));
    }
    assert(members_of(members.update(i, new)) =~= members_of(members).insert(key, json_of(new.1)));
}

proof fn lemma_members_push(members: Seq<(String, Value)>, new: (String, Value))
    requires
        absent(members, members.len() as int, new.0@),
    ensures
        members_of(members.push(new)) == members_of(members).insert(new.0@, json_of(new.1)),
    decreases members.len(),
{
    if members.len() == 0 {
        assert(members.push(new).drop_first() =~= members);
    } else {
        let rest = members.drop_first();
        lemma_absent_drop_first(members, members.len() as int, new.0@);
        lemma_members_push(rest, new);
        assert(members.push(new).drop_first() =~= rest.push(new));
        assert(members_of(members.push(new)) =~= members_of(members).insert(
            new.0@,
            json_of(new.1),
        ));
    }
}

/// Lists of members with the same keys and documents stand for the same map.
proof fn lemma_members_same(a: Seq<(String, Value)>, b: Seq<(String, Value)>)
    requires
        a.len() == b.len(),
        forall|i: int|
            0 <= i < a.len() ==> (#[trigger] a[i]).0@ == b[i].0@ && json_of(a[i].1) == json_of(
                b[i].1,
            ),
    ensures
        members_of(a) == members_of(b),
    decreases a.len(),
{
    if a.len() > 0 {
        assert forall|i: int| 0 <= i < a.len() - 1 implies (#[trigger] a.drop_first()[i]).0@
            == b.drop_first()[i].0@ && json_of(a.drop_first()[i].1) == json_of(
            b.drop_first()[i].1,
        ) by {
            assert(a.drop_first()[i] == a[i + 1]);
            assert(b.drop_first()[i] == b[i + 1]);
        }
        lemma_members_same(a.drop_first(), b.drop_first());
        assert(a[0].0@ == b[0].0@);
    }
}

/// The place of the first member with the key, or the number of members.
fn position(members: &Vec<(String, Value)>, key: &str) -> (at: usize)
    ensures
        at <= members@.len(),
        absent(members@, at as int, key@),
        at < members@.len() ==> members@[at as int].0@ == key@,
{
    let mut i: usize = 0;
    while i < members.len()
        invariant
            i <= members@.len(),
            absent(members@, i as int, key@),
        decreases members@.len() - i,
    {
        if *members[i].0.as_str() == *key {
            return i;
        }
        i += 1;
    }
    i
}

impl Value {
    /// An object without members.
    pub fn object() -> (v: Value)
        ensures
            v@ == Json::Object(Map::empty()),
    {
        let members: Vec<(String, Value)> = Vec::new();
        assert(members_of(members@) =~= Map::empty());
        Value::Object(members)
    }

    /// The value under `key`, if this is an object that has one.
    pub fn get(&self, key: &str) -> (found: Option<&Value>)
        ensures
            match found {
                Some(v) => self@.get(key@) == Some(v@),
                None => self@.get(key@) is None,
            },
    {
        match self {
            Value::Object(members) => {
                let at: usize = position(members, key);
                if at < members.len() {
                    proof {
                        lemma_members_first(members@, at as int, members@[at as int]);
                    }
                    Some(&members[at].1)
                } else {
                    proof {
                        lemma_members_absent(members@, key@);
                    }
                    None
                }
            },
            _ => None,
        }
    }

    /// As [`Value::get`], for writing.
    pub fn get_mut(&mut self, key: &str) -> (found: Option<&mut Value>)
        ensures
            match found {
                Some(v) => {
                    &&& old(self)@.get(key@) == Some(v@)
                    &&& final(self)@ == old(self)@.with(key@, final(v)@)
                },
                None => old(self)@.get(key@) is None && final(self)@ == old(self)@,
            },
    {
        match self {
            Value::Object(members) => {
                let at: usize = position(members, key);
                if at < members.len() {
                    let ghost before = members@;
                    let found = &mut members[at].1;
                    proof {
                        let new = (before[at as int].0, *final(found));
                        lemma_members_first(before, at as int, new);
                    }
                    Some(found)
                } else {
                    proof {
                        lemma_members_absent(members@, key@);
                    }
                    None
                }
            },
            _ => None,
        }
    }

    /// Sets `key` to `value` if this is an object; changes nothing otherwise.
    pub fn insert(&mut self, key: &str, value: Value)
        ensures
            final(self)@ == old(self)@.with(key@, value@),
    {
        match self {
            Value::Object(members) => {
                let at: usize = position(members, key);
                if at < members.len() {
                    proof {
                        let new = (members@[at as int].0, value);
                        lemma_members_first(members@, at as int, new);
                    }
                    members[at].1 = value;
                } else {
                    let name = key.to_owned();
                    proof {
                        lemma_members_push(members@, (name, value));
                    }
                    members.push((name, value));
                }
            },
            _ => {},
        }
    }

    pub fn as_str(&self) -> (text: Option<&str>)
        ensures
            match text {
                Some(s) => self@ == Json::String(s@),
                None => !(self@ is String),
            },
    {
        match self {
            Value::String(s) => Some(s.as_str()),
            _ => None,
        }
    }

    pub fn as_bool(&self) -> (flag: Option<bool>)
        ensures
            match flag {
                Some(b) => self@ == Json::Bool(b),
                None => !(self@ is Bool),
            },
    {
        match self {
            Value::Bool(b) => Some(*b),
            _ => None,
        }
    }

    /// The number, if this is one and it is an integer that is not negative.
    pub fn as_u64(&self) -> (number: Option<u64>)
        ensures
            match number {
                Some(n) => self@ == Json::Number(Number::PosInt(n)),
                None => !(self@ matches Json::Number(Number::PosInt(_))),
            },
    {
        match self {
            Value::Number(Number::PosInt(n)) => Some(*n),
            _ => None,
        }
    }

    pub fn as_array(&self) -> (items: Option<&Vec<Value>>)
        ensures
            match items {
                Some(items) => self@ == Json::Array(forest(items@)),
                None => !(self@ is Array),
            },
    {
        broadcast use lemma_array_view;

        match self {
            Value::Array(items) => Some(items),
            _ => None,
        }
    }

    pub fn as_array_mut(&mut self) -> (items: Option<&mut Vec<Value>>)
        ensures
            match items {
                Some(items) => {
                    &&& old(self)@ == Json::Array(forest(items@))
                    &&& final(self)@ == Json::Array(forest(final(items)@))
                },
                None => !(old(self)@ is Array) && final(self)@ == old(self)@,
            },
    {
        broadcast use lemma_array_view;

        match self {
            Value::Array(items) => Some(items),
            _ => None,
        }
    }
}

// ---- copies -----------------------------------------------------------------

fn copy_value(value: &Value) -> (copy: Value)
    ensures
        copy@ == value@,
    decreases *value,
{
    match value {
        Value::Null => Value::Null,
        Value::Bool(b) => Value::Bool(*b),
        Value::Number(n) => Value::Number(*n),
        Value::String(s) => Value::String(s.clone()),
        Value::Array(items) => {
            let mut copies: Vec<Value> = Vec::new();
            let mut i: usize = 0;
            while i < items.len()
                invariant
                    *value == Value::Array(*items),
                    i <= items@.len(),
                    copies@.len() == i,
                    forall|j: int|
                        0 <= j < i ==> json_of(#[trigger] copies@[j]) == json_of(items@[j]),
                decreases items@.len() - i,
            {
                assert(decreases_to!(*value => value->Array_0));
                assert(decreases_to!(*items => items@[i as int]));
                copies.push(copy_value(&items[i]));
                i += 1;
            }
            proof {
                lemma_array_view(copies);
                lemma_array_view(*items);
                assert(forest(copies@) =~= forest(items@));
            }
            Value::Array(copies)
        },
        Value::Object(members) => {
            let mut copies: Vec<(String, Value)> = Vec::new();
            let mut i: usize = 0;
            while i < members.len()
                invariant
                    *value == Value::Object(*members),
                    i <= members@.len(),
                    copies@.len() == i,
                    forall|j: int|
                        0 <= j < i ==> (#[trigger] copies@[j]).0@ == members@[j].0@ && json_of(
                            copies@[j].1,
                        ) == json_of(members@[j].1),
                decreases members@.len() - i,
            {
                assert(decreases_to!(*value => value->Object_0));
                assert(decreases_to!(*members => members@[i as int]));
                let name = members[i].0.clone();
                let content = copy_value(&members[i].1);
                copies.push((name, content));
                i += 1;
            }
            proof {
                lemma_members_same(copies@, members@);
            }
            Value::Object(copies)
        },
    }
}

/// A copy of every value of a list.
pub fn copy_values(values: &Vec<Value>) -> (copies: Vec<Value>)
    ensures
        forest(copies@) == forest(values@),
{
    let mut copies: Vec<Value> = Vec::new();
    let mut i: usize = 0;
    while i < values.len()
        invariant
            i <= values@.len(),
            copies@.len() == i,
            forall|j: int| 0 <= j < i ==> json_of(#[trigger] copies@[j]) == json_of(values@[j]),
        decreases values@.len() - i,
    {
        copies.push(values[i].clone());
        i += 1;
    }
    assert(forest(copies@) =~= forest(values@));
    copies
}

impl Clone for Value {
    fn clone(&self) -> (copy: Self)
        ensures
            copy@ == self@,
    {
        copy_value(self)
    }
}

} // verus!
