//! JSON values as the library holds them, and the text they are read from and written to.

use crate::text::same_text;
use vstd::prelude::*;

verus! {

/// A JSON value. A number is held as its decimal text, an object as its
/// members in the order in which they are written.
#[derive(Debug, PartialEq, Eq)]
pub enum JsonValue {
    Null,
    Bool(bool),
    Number(String),
    String(String),
    Array(Vec<JsonValue>),
    Object(Vec<Member>),
}

/// One member of an object: a key and the value written under it.
#[derive(Debug, PartialEq, Eq)]
pub struct Member {
    pub key: String,
    pub value: JsonValue,
}

/// The mathematical form of a [`JsonValue`].
pub enum Json {
    Null,
    Bool(bool),
    Number(Seq<char>),
    String(Seq<char>),
    Array(Seq<Json>),
    Object(Seq<Entry>),
}

/// The mathematical form of a [`Member`].
pub struct Entry {
    pub key: Seq<char>,
    pub value: Json,
}

impl View for JsonValue {
    type V = Json;

    open spec fn view(&self) -> Json
        decreases self,
    {
        match self {
            JsonValue::Null => Json::Null,
            JsonValue::Bool(b) => Json::Bool(*b),
            JsonValue::Number(n) => Json::Number(n@),
            JsonValue::String(s) => Json::String(s@),
            JsonValue::Array(items) => Json::Array(
                Seq::new(
                    items@.len(),
                    |i: int|
                        if 0 <= i < items@.len() {
                            items@[i]@
                        } else {
                            Json::Null
                        },
                ),
            ),
            JsonValue::Object(members) => Json::Object(
                Seq::new(
                    members@.len(),
                    |i: int|
                        if 0 <= i < members@.len() {
                            Entry { key: members@[i].key@, value: members@[i].value@ }
                        } else {
                            Entry { key: Seq::empty(), value: Json::Null }
                        },
                ),
            ),
        }
    }
}

impl DeepView for JsonValue {
    type V = Json;

    open spec fn deep_view(&self) -> Json {
        self@
    }
}

/// The value that `key` names among the members of an object: the first member written under
/// that key. `None` where there is none, or where `members` are not those of an object.
pub open spec fn member(members: Seq<Entry>, key: Seq<char>) -> Option<Json>
    decreases members.len(),
{
    if members.len() == 0 {
        None
    } else if members[0].key == key {
        Some(members[0].value)
    } else {
        member(members.subrange(1, members.len() as int), key)
    }
}

/// The keys of an object's members, in the order in which they are written.
pub open spec fn member_keys(members: Seq<Entry>) -> Seq<Seq<char>> {
    Seq::new(members.len(), |i: int| members[i].key)
}

impl Json {
    /// The keys of this value's members, where it is an object.
    pub open spec fn keys(self) -> Option<Seq<Seq<char>>> {
        match self {
            Json::Object(members) => Some(member_keys(members)),
            _ => None,
        }
    }

    /// The member that `key` names, where this value is an object that has one.
    pub open spec fn get(self, key: Seq<char>) -> Option<Json> {
        match self {
            Json::Object(members) => member(members, key),
            _ => None,
        }
    }

    /// The truth value, where this value is a boolean.
    pub open spec fn as_bool(self) -> Option<bool> {
        match self {
            Json::Bool(b) => Some(b),
            _ => None,
        }
    }
}

/// `serde_json::Value`, the value that `serde_json` reads a text to. Nothing of what it
/// holds is seen here: it is carried from the reader to the writer, and copied by [`lift`].
#[verifier::external_type_specification]
#[verifier::external_body]
pub struct ExSerdeValue(serde_json::Value);

/// What a `serde_json::Value` holds, as a tree of this library: its variant, and below it the
/// number's text as `serde_json` displays it, the string, the array's items in order, or the
/// object's members in the order in which `serde_json` walks its map.
pub uninterp spec fn json_of(raw: serde_json::Value) -> Json;

/// What `serde_json::from_str` reads from a text: the value, or `None` where it reports an
/// error.
pub uninterp spec fn json_read(text: Seq<char>) -> Option<Json>;

/// What `serde_json::to_string` writes for a value: its compact text, or `None` where it
/// reports an error.
pub uninterp spec fn json_written(value: Json) -> Option<Seq<char>>;

/// Calls `serde_json::from_str` for a `serde_json::Value`; an error is handed back as the
/// message it displays. The contract names the value that is read, and says that the call
/// fails exactly where the name has no value.
#[verifier::external_body]
fn from_str(text: &str) -> (r: Result<serde_json::Value, String>)
    ensures
        match r {
            Ok(raw) => json_read(text@) == Some(json_of(raw)),
            Err(_) => json_read(text@) is None,
        },
{
    serde_json::from_str::<serde_json::Value>(text).map_err(|e| e.to_string())
}

/// Calls `serde_json::to_string` on a `serde_json::Value`; an error is handed back as the
/// message it displays. The contract names the text that is written, as a function of what
/// the value holds.
#[verifier::external_body]
fn to_string(raw: &serde_json::Value) -> (r: Result<String, String>)
    ensures
        match r {
            Ok(text) => json_written(json_of(*raw)) == Some(text@),
            Err(_) => json_written(json_of(*raw)) is None,
        },
{
    serde_json::to_string(raw).map_err(|e| e.to_string())
}

/// Copies a `serde_json::Value` into a [`JsonValue`], variant by variant; a number becomes the
/// text that `serde_json::Number` displays. The contract says that the copy is what the name
/// `json_of` stands for.
#[verifier::external_body]
fn lift(raw: &serde_json::Value) -> (v: JsonValue)
    ensures
        v@ == json_of(*raw),
{
    match raw {
        serde_json::Value::Null => JsonValue::Null,
        serde_json::Value::Bool(b) => JsonValue::Bool(*b),
        serde_json::Value::Number(n) => JsonValue::Number(n.to_string()),
        serde_json::Value::String(s) => JsonValue::String(s.clone()),
        serde_json::Value::Array(a) => JsonValue::Array(a.iter().map(lift).collect()),
        serde_json::Value::Object(o) => JsonValue::Object(
            o.iter().map(|(k, v)| Member { key: k.clone(), value: lift(v) }).collect(),
        ),
    }
}

/// A value as it was read from a text. It can be written back.
pub struct Reading {
    raw: serde_json::Value,
    value: JsonValue,
}

impl Reading {
    #[verifier::type_invariant]
    spec fn faithful(&self) -> bool {
        self.value@ == json_of(self.raw)
    }

    /// The value that was read, in mathematical form.
    pub closed spec fn json(&self) -> Json {
        self.value@
    }

    /// The value that was read.
    pub fn value(&self) -> (v: &JsonValue)
        ensures
            v@ == self.json(),
    {
        &self.value
    }

    /// The value that was read, for keeping.
    pub fn into_value(self) -> (v: JsonValue)
        ensures
            v@ == self.json(),
    {
        self.value
    }

    /// Writes the value back as compact text. An error carries the writer's message.
    pub fn write(&self) -> (r: Result<String, String>)
        ensures
            match r {
                Ok(text) => json_written(self.json()) == Some(text@),
                Err(_) => json_written(self.json()) is None,
            },
    {
        proof {
            use_type_invariant(self);
        }
        to_string(&self.raw)
    }
}

/// Reads one JSON value from a text. An error carries the reader's message.
pub fn read(text: &str) -> (r: Result<Reading, String>)
    ensures
        match r {
            Ok(reading) => json_read(text@) == Some(reading.json()),
            Err(_) => json_read(text@) is None,
        },
{
    match from_str(text) {
        Err(message) => Err(message),
        Ok(raw) => {
            let value = lift(&raw);
            Ok(Reading { raw, value })
        },
    }
}

impl JsonValue {
    /// The truth value, where this value is a boolean.
    pub fn as_bool(&self) -> (r: Option<bool>)
        ensures
            r == self@.as_bool(),
    {
        match self {
            JsonValue::Bool(b) => Some(*b),
            _ => None,
        }
    }

    /// Whether this value is an object.
    pub fn is_object(&self) -> (r: bool)
        ensures
            r == (self@ is Object),
    {
        match self {
            JsonValue::Object(_) => true,
            _ => false,
        }
    }

    /// Whether two values are the same: of the same kind, and the same below.
    pub fn same(&self, other: &JsonValue) -> (r: bool)
        ensures
            r == (self@ == other@),
        decreases self,
    {
        match self {
            JsonValue::Null => match other {
                JsonValue::Null => true,
                _ => false,
            },
            JsonValue::Bool(a) => match other {
                JsonValue::Bool(b) => *a == *b,
                _ => false,
            },
            JsonValue::Number(a) => match other {
                JsonValue::Number(b) => same_text(a.as_str(), b.as_str()),
                _ => false,
            },
            JsonValue::String(a) => match other {
                JsonValue::String(b) => same_text(a.as_str(), b.as_str()),
                _ => false,
            },
            JsonValue::Array(a) => match other {
                JsonValue::Array(b) => {
                    proof {
                        assert(self->Array_0 == *a);
                        assert(other->Array_0 == *b);
                    }
                    if a.len() != b.len() {
                        assert(self@->Array_0.len() != other@->Array_0.len());
                        return false;
                    }
                    let mut i: usize = 0;
                    while i < a.len()
                        invariant
                            *self == JsonValue::Array(*a),
                            *other == JsonValue::Array(*b),
                            a@.len() == b@.len(),
                            i <= a@.len(),
                            forall|k: int| 0 <= k < i ==> a@[k]@ == b@[k]@,
                        decreases a.len() - i,
                    {
                        proof {
                            assert(self->Array_0 == *a);
                            assert(other->Array_0 == *b);
                            assert(decreases_to!(*a => a[i as int]));
                        }
                        if !a[i].same(&b[i]) {
                            assert(self@->Array_0[i as int] != other@->Array_0[i as int]);
                            return false;
                        }
                        i += 1;
                    }
                    assert(self@->Array_0 =~= other@->Array_0);
                    true
                },
                _ => false,
            },
            JsonValue::Object(a) => match other {
                JsonValue::Object(b) => {
                    proof {
                        assert(self->Object_0 == *a);
                        assert(other->Object_0 == *b);
                    }
                    if a.len() != b.len() {
                        assert(self@->Object_0.len() != other@->Object_0.len());
                        return false;
                    }
                    let mut i: usize = 0;
                    while i < a.len()
                        invariant
                            *self == JsonValue::Object(*a),
                            *other == JsonValue::Object(*b),
                            a@.len() == b@.len(),
                            i <= a@.len(),
                            forall|k: int|
                                0 <= k < i ==> a@[k].key@ == b@[k].key@ && a@[k].value@
                                    == b@[k].value@,
                        decreases a.len() - i,
                    {
                        proof {
                            assert(self->Object_0 == *a);
                            assert(other->Object_0 == *b);
                            assert(decreases_to!(*a => a[i as int]));
                        }
                        if !same_text(a[i].key.as_str(), b[i].key.as_str()) {
                            assert(self@->Object_0[i as int].key != other@->Object_0[i as int].key);
                            return false;
                        }
                        if !a[i].value.same(&b[i].value) {
                            assert(self@->Object_0[i as int].value
                                != other@->Object_0[i as int].value);
                            return false;
                        }
                        i += 1;
                    }
                    assert(self@->Object_0 =~= other@->Object_0);
                    true
                },
                _ => false,
            },
        }
    }

    /// The keys of this value's members in the order in which they are written, where it is
    /// an object.
    pub fn keys(&self) -> (r: Option<Vec<String>>)
        ensures
            match r {
                Some(keys) => self@.keys() == Some(keys.deep_view()),
                None => self@.keys() is None,
            },
    {
        match self {
            JsonValue::Object(members) => {
                let mut keys: Vec<String> = Vec::new();
                let mut i: usize = 0;
                while i < members.len()
                    invariant
                        i <= members.len(),
                        keys@.len() == i,
                        forall|k: int| 0 <= k < i ==> (#[trigger] keys@[k])@ == members@[k].key@,
                    decreases members.len() - i,
                {
                    keys.push(members[i].key.clone());
                    i += 1;
                }
                proof {
                    assert(self->Object_0 == *members);
                    assert(keys.deep_view() =~= member_keys(self@->Object_0));
                }
                Some(keys)
            },
            _ => None,
        }
    }

    /// The member that `key` names, where this value is an object that has one: the first
    /// that is written under that key.
    pub fn get(&self, key: &str) -> (r: Option<&JsonValue>)
        ensures
            match r {
                Some(value) => self@.get(key@) == Some(value@),
                None => self@.get(key@) is None,
            },
    {
        match self {
            JsonValue::Object(members) => {
                let ghost entries = self@->Object_0;
                proof {
                    assert(self->Object_0 == *members);
                    assert(entries.subrange(0, entries.len() as int) == entries);
                }
                let mut i: usize = 0;
                while i < members.len()
                    invariant
                        i <= members.len(),
                        self@ == Json::Object(entries),
                        entries.len() == members@.len(),
                        forall|k: int|
                            0 <= k < members@.len() ==> (#[trigger] entries[k]).key == members@[k].key@
                                && entries[k].value == members@[k].value@,
                        member(entries, key@) == member(
                            entries.subrange(i as int, entries.len() as int),
                            key@,
                        ),
                    decreases members.len() - i,
                {
                    let ghost rest = entries.subrange(i as int, entries.len() as int);
                    assert(rest[0] == entries[i as int]);
                    if same_text(members[i].key.as_str(), key) {
                        return Some(&members[i].value);
                    }
                    assert(rest.subrange(1, rest.len() as int) == entries.subrange(
                        i + 1,
                        entries.len() as int,
                    ));
                    i += 1;
                }
                None
            },
            _ => None,
        }
    }
}

impl Clone for JsonValue {
    /// A deep copy.
    fn clone(&self) -> (r: JsonValue)
        ensures
            r@ == self@,
        decreases self,
    {
        match self {
            JsonValue::Null => JsonValue::Null,
            JsonValue::Bool(b) => JsonValue::Bool(*b),
            JsonValue::Number(n) => JsonValue::Number(n.clone()),
            JsonValue::String(s) => JsonValue::String(s.clone()),
            JsonValue::Array(items) => {
                let mut copies: Vec<JsonValue> = Vec::new();
                let mut i: usize = 0;
                while i < items.len()
                    invariant
                        i <= items.len(),
                        *self == JsonValue::Array(*items),
                        copies@.len() == i,
                        forall|k: int| 0 <= k < i ==> (#[trigger] copies@[k])@ == items@[k]@,
                    decreases items.len() - i,
                {
                    assert(self->Array_0 == *items);
                    assert(decreases_to!(*items => items[i as int]));
                    let copy = items[i].clone();
                    copies.push(copy);
                    i += 1;
                }
                let r = JsonValue::Array(copies);
                assert(r@ == self@) by {
                    assert(r@->Array_0 =~= self@->Array_0);
                }
                r
            },
            JsonValue::Object(members) => {
                let mut copies: Vec<Member> = Vec::new();
                let mut i: usize = 0;
                while i < members.len()
                    invariant
                        i <= members.len(),
                        *self == JsonValue::Object(*members),
                        copies@.len() == i,
                        forall|k: int|
                            0 <= k < i ==> (#[trigger] copies@[k]).key@ == members@[k].key@
                                && copies@[k].value@ == members@[k].value@,
                    decreases members.len() - i,
                {
                    let key = members[i].key.clone();
                    assert(self->Object_0 == *members);
                    assert(decreases_to!(*members => members[i as int]));
                    let value = members[i].value.clone();
                    copies.push(Member { key, value });
                    i += 1;
                }
                let r = JsonValue::Object(copies);
                assert(r@ == self@) by {
                    assert(self->Object_0 == *members);
                    assert forall|k: int| 0 <= k < members@.len() implies r@->Object_0[k]
                        == self@->Object_0[k] by {
                        assert(copies@[k].key@ == members@[k].key@);
                    }
                    assert(r@->Object_0 =~= self@->Object_0);
                }
                r
            },
        }
    }
}

} // verus!
