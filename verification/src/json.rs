//! JSON values as the library reads them.
//!
//! Numbers are held by integers: a key that orders as the numbers do, and the
//! number itself where it is a non-negative whole number. Objects keep their
//! members in a sequence; a name is looked up from the front.

use crate::text::{split_chars, split_on, texts, to_chars};
use vstd::prelude::*;
use vstd::string::StringExecFns;

verus! {

/// A JSON number. `key` grows with the number and is `0` for zero; `count` is
/// the number itself where it is a non-negative whole number that fits.
#[derive(Clone, Copy, Debug)]
pub struct Number {
    pub key: i64,
    pub count: Option<u64>,
}

/// One member of a JSON object.
#[derive(Debug)]
pub struct Member {
    pub name: String,
    pub value: Json,
}

/// A JSON value.
#[derive(Debug)]
pub enum Json {
    Null,
    Bool(bool),
    Number(Number),
    Text(String),
    Array(Vec<Json>),
    Object(Vec<Member>),
}

/// The mathematical JSON value that a `Json` stands for.
pub enum JsonValue {
    Null,
    Bool(bool),
    Number(Number),
    Text(Seq<char>),
    Array(Seq<JsonValue>),
    Object(Seq<(Seq<char>, JsonValue)>),
}

/// The mathematical value of `j`.
pub open spec fn json_value(j: Json) -> JsonValue
    decreases j,
{
    match j {
        Json::Null => JsonValue::Null,
        Json::Bool(b) => JsonValue::Bool(b),
        Json::Number(n) => JsonValue::Number(n),
        Json::Text(s) => JsonValue::Text(s@),
        Json::Array(items) => JsonValue::Array(
            Seq::new(
                items@.len(),
                |i: int|
                    if 0 <= i < items@.len() {
                        json_value(items@[i])
                    } else {
                        JsonValue::Null
                    },
            ),
        ),
        Json::Object(members) => JsonValue::Object(
            Seq::new(
                members@.len(),
                |i: int|
                    if 0 <= i < members@.len() {
                        (members@[i].name@, json_value(members@[i].value))
                    } else {
                        (Seq::<char>::empty(), JsonValue::Null)
                    },
            ),
        ),
    }
}

impl View for Json {
    type V = JsonValue;

    open spec fn view(&self) -> JsonValue {
        json_value(*self)
    }
}

/// The value of the first member called `name`, or null where there is none.
pub open spec fn member_of(members: Seq<(Seq<char>, JsonValue)>, name: Seq<char>) -> JsonValue
    decreases members.len(),
{
    if members.len() == 0 {
        JsonValue::Null
    } else if members[0].0 == name {
        members[0].1
    } else {
        member_of(members.drop_first(), name)
    }
}

impl JsonValue {
    /// The member `name` of an object; null for what is no object or has no
    /// such member.
    pub open spec fn get(self, name: Seq<char>) -> JsonValue {
        match self {
            JsonValue::Object(members) => member_of(members, name),
            _ => JsonValue::Null,
        }
    }

    /// The value reached by taking the member named by each key in turn.
    pub open spec fn descend(self, keys: Seq<Seq<char>>) -> JsonValue
        decreases keys.len(),
    {
        if keys.len() == 0 {
            self
        } else {
            self.get(keys[0]).descend(keys.drop_first())
        }
    }

    /// The value at a dotted path: the path is cut at every `.` and each piece
    /// names a member, the empty piece included.
    pub open spec fn at_path(self, path: Seq<char>) -> JsonValue {
        self.descend(split_on(path, '.'))
    }

    /// The text of a string value, the empty text for any other value.
    pub open spec fn text_or_empty(self) -> Seq<char> {
        match self {
            JsonValue::Text(s) => s,
            _ => Seq::<char>::empty(),
        }
    }

    /// The key of a number, `0` (the key of zero) for any other value.
    pub open spec fn key_or_zero(self) -> int {
        match self {
            JsonValue::Number(n) => n.key as int,
            _ => 0,
        }
    }

    /// The key of a number as a condition reads it from a document: `0` for
    /// a whole number above the greatest signed 64-bit integer, and for any
    /// value that is no number.
    pub open spec fn narrow_key_or_zero(self) -> int {
        match self {
            JsonValue::Number(n) => match n.count {
                Some(c) => if c > i64::MAX {
                    0
                } else {
                    n.key as int
                },
                None => n.key as int,
            },
            _ => 0,
        }
    }

    /// The count that a number holds, `0` for any other value.
    pub open spec fn count_or_zero(self) -> nat {
        match self {
            JsonValue::Number(n) => match n.count {
                Some(c) => c as nat,
                None => 0,
            },
            _ => 0,
        }
    }

    /// The elements of an array, none for any other value.
    pub open spec fn elements(self) -> Seq<JsonValue> {
        match self {
            JsonValue::Array(items) => items,
            _ => Seq::<JsonValue>::empty(),
        }
    }

    /// The truth value of a boolean, `false` for any other value.
    pub open spec fn truth_or_false(self) -> bool {
        match self {
            JsonValue::Bool(b) => b,
            _ => false,
        }
    }
}

/// What the view of an array is, element by element.
pub proof fn lemma_array_view(j: Json)
    requires
        j is Array,
    ensures
        j@ is Array,
        j@->Array_0.len() == j->Array_0@.len(),
        forall|k: int| 0 <= k < j->Array_0@.len() ==> (#[trigger] j@->Array_0[k]) == j->Array_0@[k]@,
        forall|k: int| 0 <= k < j->Array_0@.len() ==> decreases_to!(j => #[trigger] j->Array_0@[k]),
{
}

/// What the view of an object is, member by member.
pub proof fn lemma_object_view(j: Json)
    requires
        j is Object,
    ensures
        j@ is Object,
        j@->Object_0.len() == j->Object_0@.len(),
        forall|k: int|
            0 <= k < j->Object_0@.len() ==> (#[trigger] j@->Object_0[k]) == (
                j->Object_0@[k].name@,
                j->Object_0@[k].value@,
            ),
        forall|k: int|
            0 <= k < j->Object_0@.len() ==> decreases_to!(j => #[trigger] j->Object_0@[k].value),
{
}

/// The view of an optional reference: null where there is none.
pub open spec fn value_of(found: Option<&Json>) -> JsonValue {
    match found {
        Some(j) => j@,
        None => JsonValue::Null,
    }
}

impl Json {
    /// The member `name`, if this is an object that has one.
    pub fn get(&self, name: &str) -> (out: Option<&Json>)
        ensures
            value_of(out) == self@.get(name@),
    {
        match self {
            Json::Object(members) => {
                let ghost all = self@->Object_0;
                let wanted = String::from_str(name);
                let mut i: usize = 0;
                assert(all.skip(0) =~= all);
                while i < members.len()
                    invariant
                        i <= members.len(),
                        all.len() == members@.len(),
                        forall|k: int|
                            0 <= k < members@.len() ==> #[trigger] all[k] == (
                                members@[k].name@,
                                members@[k].value@,
                            ),
                        member_of(all, name@) == member_of(all.skip(i as int), name@),
                        self@ == JsonValue::Object(all),
                        wanted@ == name@,
                    decreases members.len() - i,
                {
                    let ghost rest = all.skip(i as int);
                    assert(rest[0] == all[i as int]);
                    assert(rest.drop_first() =~= all.skip(i as int + 1));
                    assert(all[i as int] == (members@[i as int].name@, members@[i as int].value@));
                    if members[i].name == wanted {
                        assert(member_of(rest, name@) == rest[0].1);
                        return Some(&members[i].value);
                    }
                    i = i + 1;
                }
                assert(all.skip(i as int).len() == 0);
                None
            },
            _ => None,
        }
    }

    /// The value at a dotted path, if every piece of the path names a member.
    pub fn at_path(&self, path: &str) -> (out: Option<&Json>)
        ensures
            value_of(out) == self@.at_path(path@),
    {
        let chars = to_chars(path);
        let keys = split_chars(&chars, '.');
        let ghost all = texts(keys@);
        let mut current: Option<&Json> = Some(self);
        let mut i: usize = 0;
        assert(all.skip(0) =~= all);
        while i < keys.len()
            invariant
                i <= keys.len(),
                all == texts(keys@),
                value_of(current).descend(all.skip(i as int)) == self@.descend(all),
            decreases keys.len() - i,
        {
            let ghost rest = all.skip(i as int);
            assert(rest[0] == keys@[i as int]@);
            assert(rest.drop_first() =~= all.skip(i as int + 1));
            current =
            match current {
                Some(j) => j.get(keys[i].as_str()),
                None => None,
            };
            i = i + 1;
        }
        assert(all.skip(i as int).len() == 0);
        current
    }

    /// Whether the two stand for the same JSON value.
    pub fn same(&self, other: &Json) -> (out: bool)
        ensures
            out == (self@ == other@),
        decreases self,
    {
        match (self, other) {
            (Json::Null, Json::Null) => true,
            (Json::Bool(a), Json::Bool(b)) => *a == *b,
            (Json::Number(a), Json::Number(b)) => {
                let same_count = match (a.count, b.count) {
                    (Some(x), Some(y)) => x == y,
                    (None, None) => true,
                    _ => false,
                };
                a.key == b.key && same_count
            },
            (Json::Text(a), Json::Text(b)) => str_equal(a.as_str(), b.as_str()),
            (Json::Array(a), Json::Array(b)) => {
                let ghost left = self@->Array_0;
                let ghost right = other@->Array_0;
                proof {
                    lemma_array_view(*self);
                    lemma_array_view(*other);
                }
                if a.len() != b.len() {
                    return false;
                }
                let mut i: usize = 0;
                while i < a.len()
                    invariant
                        i <= a.len(),
                        a.len() == b.len(),
                        left.len() == a@.len(),
                        right.len() == b@.len(),
                        self@ == JsonValue::Array(left),
                        other@ == JsonValue::Array(right),
                        forall|k: int| 0 <= k < a@.len() ==> #[trigger] left[k] == a@[k]@,
                        forall|k: int| 0 <= k < b@.len() ==> #[trigger] right[k] == b@[k]@,
                        forall|k: int| 0 <= k < i ==> left[k] == right[k],
                        forall|k: int| 0 <= k < a@.len() ==> decreases_to!(self => #[trigger] a@[k]),
                    decreases a.len() - i,
                {
                    if !a[i].same(&b[i]) {
                        assert(left[i as int] == a@[i as int]@);
                        assert(right[i as int] == b@[i as int]@);
                        assert(left[i as int] != right[i as int]);
                        return false;
                    }
                    i = i + 1;
                }
                assert(left =~= right);
                true
            },
            (Json::Object(a), Json::Object(b)) => {
                let ghost left = self@->Object_0;
                let ghost right = other@->Object_0;
                proof {
                    lemma_object_view(*self);
                    lemma_object_view(*other);
                }
                if a.len() != b.len() {
                    return false;
                }
                let mut i: usize = 0;
                while i < a.len()
                    invariant
                        i <= a.len(),
                        a.len() == b.len(),
                        left.len() == a@.len(),
                        right.len() == b@.len(),
                        self@ == JsonValue::Object(left),
                        other@ == JsonValue::Object(right),
                        forall|k: int|
                            0 <= k < a@.len() ==> #[trigger] left[k] == (
                                a@[k].name@,
                                a@[k].value@,
                            ),
                        forall|k: int|
                            0 <= k < b@.len() ==> #[trigger] right[k] == (
                                b@[k].name@,
                                b@[k].value@,
                            ),
                        forall|k: int| 0 <= k < i ==> left[k] == right[k],
                        forall|k: int|
                            0 <= k < a@.len() ==> decreases_to!(self => #[trigger] a@[k].value),
                    decreases a.len() - i,
                {
                    if !str_equal(a[i].name.as_str(), b[i].name.as_str()) || !a[i].value.same(
                        &b[i].value,
                    ) {
                        assert(left[i as int] == (a@[i as int].name@, a@[i as int].value@));
                        assert(right[i as int] == (b@[i as int].name@, b@[i as int].value@));
                        assert(left[i as int] != right[i as int]);
                        return false;
                    }
                    i = i + 1;
                }
                assert(left =~= right);
                true
            },
            _ => false,
        }
    }
}

/// Whether two texts hold the same characters.
pub fn str_equal(a: &str, b: &str) -> (out: bool)
    ensures
        out == (a@ == b@),
{
    let left = String::from_str(a);
    let right = String::from_str(b);
    left == right
}

} // verus!
