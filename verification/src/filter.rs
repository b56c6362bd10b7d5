//! Filter trees: boolean combinations of typed conditions on the attributes
//! of a JSON value.

use crate::json::{lemma_array_view, str_equal, value_of, Json, JsonValue};
use crate::text::to_chars;
use vstd::prelude::*;

verus! {

/// The keys between which a number counts as equal to the value of a
/// condition, both ends left out.
#[derive(Clone, Copy, Debug)]
pub struct Window {
    pub low: i64,
    pub high: i64,
}

/// A typed condition on one attribute. `property` is a dotted path, `kind`
/// one of `string`, `number`, `array`, `boolean`, `null`, and `operation` one
/// of the operations of that kind. `window` belongs to `value` and is read
/// by the number operation `=` alone.
#[derive(Debug)]
pub struct FilterCondition {
    pub property: String,
    pub kind: String,
    pub operation: String,
    pub value: Json,
    pub window: Window,
}

/// A filter: a combination `AND`, `OR` or `NOT` of children, or, where it has
/// no list of children, a condition.
#[derive(Debug)]
pub struct FilterTree {
    pub kind: Option<String>,
    pub children: Option<Vec<FilterTree>>,
    pub condition: Option<FilterCondition>,
}

/// Whether `needle` occurs in `hay` as a run of neighbouring characters.
pub open spec fn contains_text(hay: Seq<char>, needle: Seq<char>) -> bool {
    exists|i: int|
        0 <= i && i + needle.len() <= hay.len() && #[trigger] hay.subrange(i, i + needle.len())
            == needle
}

/// Whether some element of `items` is the JSON value `wanted`.
pub open spec fn contains_value(items: Seq<JsonValue>, wanted: JsonValue) -> bool {
    exists|i: int| 0 <= i < items.len() && #[trigger] items[i] == wanted
}

impl FilterCondition {
    /// Whether the condition holds of `obj`. An attribute that is missing or
    /// null counts as the kind's default: the empty text, zero, the empty
    /// array, `false`. An attribute that holds a value of another kind than
    /// the condition's meets no condition, and a kind or an operation that
    /// is not known holds of nothing. The value of the condition itself
    /// counts as the kind's default where it is of another kind.
    pub open spec fn holds(self, obj: JsonValue) -> bool {
        let found = obj.at_path(self.property@);
        if self.kind@ == "string"@ {
            if !(found is Null || found is Text) {
                false
            } else if self.operation@ == "="@ {
                found.text_or_empty() == self.value@.text_or_empty()
            } else if self.operation@ == "?"@ {
                contains_text(found.text_or_empty(), self.value@.text_or_empty())
            } else {
                false
            }
        } else if self.kind@ == "number"@ {
            if !(found is Null || found is Number) {
                false
            } else if self.operation@ == "="@ {
                self.window.low < found.narrow_key_or_zero() < self.window.high
            } else if self.operation@ == ">"@ {
                found.narrow_key_or_zero() > self.value@.key_or_zero()
            } else if self.operation@ == "<"@ {
                found.narrow_key_or_zero() < self.value@.key_or_zero()
            } else {
                false
            }
        } else if self.kind@ == "array"@ {
            if !(found is Null || found is Array) {
                false
            } else if self.operation@ == "?"@ {
                contains_value(found.elements(), self.value@)
            } else if self.operation@ == "length"@ {
                found.elements().len() == self.value@.count_or_zero()
            } else {
                false
            }
        } else if self.kind@ == "boolean"@ {
            if !(found is Null || found is Bool) {
                false
            } else if self.operation@ == "="@ {
                found.truth_or_false() == self.value@.truth_or_false()
            } else {
                false
            }
        } else if self.kind@ == "null"@ {
            if self.operation@ == "="@ {
                found is Null
            } else {
                false
            }
        } else {
            false
        }
    }
}

impl FilterTree {
    /// Whether the filter holds of `obj`. `AND` holds where every child does,
    /// `OR` where some child does, `NOT` where the first child does not. A
    /// combination without a known kind, a `NOT` without a child and a leaf
    /// without a condition hold of nothing.
    pub open spec fn holds(self, obj: JsonValue) -> bool
        decreases self,
    {
        match self.children {
            Some(children) => match self.kind {
                Some(kind) => {
                    if kind@ == "AND"@ {
                        forall|i: int|
                            0 <= i < children@.len() ==> (#[trigger] children@[i]).holds(obj)
                    } else if kind@ == "OR"@ {
                        exists|i: int|
                            0 <= i < children@.len() && (#[trigger] children@[i]).holds(obj)
                    } else if kind@ == "NOT"@ {
                        children@.len() > 0 && !children@[0].holds(obj)
                    } else {
                        false
                    }
                },
                None => false,
            },
            None => match self.condition {
                Some(condition) => condition.holds(obj),
                None => false,
            },
        }
    }
}

/// The text of a string value, the empty text for anything else.
fn text_of(found: Option<&Json>) -> (out: Vec<char>)
    ensures
        out@ == value_of(found).text_or_empty(),
{
    match found {
        Some(Json::Text(s)) => to_chars(s.as_str()),
        _ => Vec::new(),
    }
}

/// The key of a number, zero for anything else.
fn key_of(found: Option<&Json>) -> (out: i64)
    ensures
        out == value_of(found).key_or_zero(),
{
    match found {
        Some(Json::Number(n)) => n.key,
        _ => 0,
    }
}

/// The count that a number holds, zero for anything else.
fn count_of(found: Option<&Json>) -> (out: u64)
    ensures
        out == value_of(found).count_or_zero(),
{
    match found {
        Some(Json::Number(n)) => match n.count {
            Some(c) => c,
            None => 0,
        },
        _ => 0,
    }
}

/// The truth value of a boolean, `false` for anything else.
fn truth_of(found: Option<&Json>) -> (out: bool)
    ensures
        out == value_of(found).truth_or_false(),
{
    match found {
        Some(Json::Bool(b)) => *b,
        _ => false,
    }
}

/// Whether `needle` occurs in `hay`.
pub fn text_contains(hay: &Vec<char>, needle: &Vec<char>) -> (out: bool)
    ensures
        out == contains_text(hay@, needle@),
{
    if needle.len() > hay.len() {
        return false;
    }
    let last: usize = hay.len() - needle.len();
    let mut i: usize = 0;
    while i <= last
        invariant
            i <= last + 1,
            last == hay.len() - needle.len(),
            needle.len() <= hay.len(),
            forall|k: int|
                0 <= k < i ==> #[trigger] hay@.subrange(k, k + needle@.len()) != needle@,
        decreases last + 1 - i,
    {
        let mut j: usize = 0;
        while j < needle.len() && hay[i + j] == needle[j]
            invariant
                j <= needle.len(),
                i <= last,
                last == hay.len() - needle.len(),
                needle.len() <= hay.len(),
                forall|m: int| 0 <= m < j ==> hay@[i + m] == needle@[m],
            decreases needle.len() - j,
        {
            j = j + 1;
        }
        if j == needle.len() {
            assert(hay@.subrange(i as int, i + needle@.len()) =~= needle@);
            return true;
        }
        assert(hay@.subrange(i as int, i + needle@.len())[j as int] != needle@[j as int]);
        i = i + 1;
    }
    false
}

/// Whether some element of an array is the JSON value `wanted`; `false` for
/// what is no array.
fn array_contains(found: Option<&Json>, wanted: &Json) -> (out: bool)
    ensures
        out == contains_value(value_of(found).elements(), wanted@),
{
    match found {
        Some(Json::Array(items)) => {
            let ghost values = value_of(found).elements();
            proof {
                lemma_array_view(*found->0);
            }
            let mut i: usize = 0;
            while i < items.len()
                invariant
                    i <= items.len(),
                    values.len() == items@.len(),
                    values == value_of(found).elements(),
                    forall|k: int| 0 <= k < items@.len() ==> (#[trigger] values[k]) == items@[k]@,
                    forall|k: int| 0 <= k < i ==> (#[trigger] values[k]) != wanted@,
                decreases items.len() - i,
            {
                assert(values[i as int] == items@[i as int]@);
                if items[i].same(wanted) {
                    return true;
                }
                i = i + 1;
            }
            false
        },
        _ => false,
    }
}

/// The number of elements of an array, zero for anything else.
fn length_of(found: Option<&Json>) -> (out: usize)
    ensures
        out == value_of(found).elements().len(),
{
    match found {
        Some(Json::Array(items)) => {
            proof {
                lemma_array_view(*found->0);
            }
            items.len()
        },
        _ => 0,
    }
}

/// The key of a number as a condition reads it from a document.
fn narrow_key_of(found: Option<&Json>) -> (out: i64)
    ensures
        out == value_of(found).narrow_key_or_zero(),
{
    match found {
        Some(Json::Number(n)) => match n.count {
            Some(c) => if c > 0x7fff_ffff_ffff_ffff {
                0
            } else {
                n.key
            },
            None => n.key,
        },
        _ => 0,
    }
}

/// Whether nothing was found, or null.
fn is_absent(found: Option<&Json>) -> (out: bool)
    ensures
        out == (value_of(found) is Null),
{
    match found {
        None => true,
        Some(Json::Null) => true,
        _ => false,
    }
}

/// Whether the condition holds of `obj`.
pub fn check_condition(condition: &FilterCondition, obj: &Json) -> (out: bool)
    ensures
        out == condition.holds(obj@),
{
    let found = obj.at_path(condition.property.as_str());
    let kind = condition.kind.as_str();
    let operation = condition.operation.as_str();
    let absent = is_absent(found);
    if str_equal(kind, "string") {
        let fitting = match found {
            Some(Json::Text(_)) => true,
            _ => absent,
        };
        if !fitting {
            false
        } else if str_equal(operation, "=") {
            let left = text_of(found);
            let right = text_of(Some(&condition.value));
            same_text(&left, &right)
        } else if str_equal(operation, "?") {
            text_contains(&text_of(found), &text_of(Some(&condition.value)))
        } else {
            false
        }
    } else if str_equal(kind, "number") {
        let fitting = match found {
            Some(Json::Number(_)) => true,
            _ => absent,
        };
        if !fitting {
            false
        } else if str_equal(operation, "=") {
            let key = narrow_key_of(found);
            condition.window.low < key && key < condition.window.high
        } else if str_equal(operation, ">") {
            narrow_key_of(found) > key_of(Some(&condition.value))
        } else if str_equal(operation, "<") {
            narrow_key_of(found) < key_of(Some(&condition.value))
        } else {
            false
        }
    } else if str_equal(kind, "array") {
        let fitting = match found {
            Some(Json::Array(_)) => true,
            _ => absent,
        };
        if !fitting {
            false
        } else if str_equal(operation, "?") {
            array_contains(found, &condition.value)
        } else if str_equal(operation, "length") {
            length_of(found) as u64 == count_of(Some(&condition.value))
        } else {
            false
        }
    } else if str_equal(kind, "boolean") {
        let fitting = match found {
            Some(Json::Bool(_)) => true,
            _ => absent,
        };
        if !fitting {
            false
        } else if str_equal(operation, "=") {
            truth_of(found) == truth_of(Some(&condition.value))
        } else {
            false
        }
    } else if str_equal(kind, "null") {
        if str_equal(operation, "=") {
            absent
        } else {
            false
        }
    } else {
        false
    }
}

/// Whether two texts hold the same characters.
fn same_text(a: &Vec<char>, b: &Vec<char>) -> (out: bool)
    ensures
        out == (a@ == b@),
{
    if a.len() != b.len() {
        return false;
    }
    let mut i: usize = 0;
    while i < a.len()
        invariant
            i <= a.len(),
            a.len() == b.len(),
            forall|k: int| 0 <= k < i ==> a@[k] == b@[k],
        decreases a.len() - i,
    {
        if a[i] != b[i] {
            return false;
        }
        i = i + 1;
    }
    assert(a@ =~= b@);
    true
}

/// Whether the filter holds of `obj`.
#[verifier::loop_isolation(false)]
pub fn check_tree_node(tree: &FilterTree, obj: &Json) -> (out: bool)
    ensures
        out == tree.holds(obj@),
    decreases tree,
{
    match &tree.children {
        Some(children) => match &tree.kind {
            Some(kind) => {
                if str_equal(kind.as_str(), "AND") {
                    let mut i: usize = 0;
                    while i < children.len()
                        invariant
                            i <= children.len(),
                            tree.children == Some(*children),
                            forall|k: int| 0 <= k < i ==> (#[trigger] children@[k]).holds(obj@),
                        decreases children.len() - i,
                    {
                        if !check_tree_node(&children[i], obj) {
                            return false;
                        }
                        i = i + 1;
                    }
                    true
                } else if str_equal(kind.as_str(), "OR") {
                    let mut i: usize = 0;
                    while i < children.len()
                        invariant
                            i <= children.len(),
                            tree.children == Some(*children),
                            forall|k: int| 0 <= k < i ==> !(#[trigger] children@[k]).holds(obj@),
                        decreases children.len() - i,
                    {
                        if check_tree_node(&children[i], obj) {
                            return true;
                        }
                        i = i + 1;
                    }
                    false
                } else if str_equal(kind.as_str(), "NOT") {
                    if children.len() > 0 {
                        !check_tree_node(&children[0], obj)
                    } else {
                        false
                    }
                } else {
                    false
                }
            },
            None => false,
        },
        None => match &tree.condition {
            Some(condition) => check_condition(condition, obj),
            None => false,
        },
    }
}

} // verus!
