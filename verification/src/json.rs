//! JSON documents, parsed and written by `serde_json`.

use vstd::prelude::*;

verus! {

/// A parsed JSON document.
#[verifier::external_type_specification]
#[verifier::external_body]
pub struct ExternalValue(serde_json::Value);

/// An error of the JSON parser or writer.
#[verifier::external_type_specification]
#[verifier::external_body]
pub struct ExternalError(serde_json::Error);

/// What a JSON document says.
///
/// A number is an integer if the parser holds it as one; any other number is
/// given by the bit pattern of the binary64 number that the parser holds. The
/// members of an object stand in the order of their keys, each key once.
pub enum JsonTree {
    Null,
    Bool(bool),
    Int(int),
    Float(u64),
    Str(Seq<char>),
    Array(Seq<JsonTree>),
    Object(Seq<(Seq<char>, JsonTree)>),
}

/// The key that the parser takes, where it comes first in an object, for the
/// mark of a document within a string.
pub open spec fn reserved_key() -> Seq<char> {
    "$serde_json::private::RawValue"@
}

/// The larger of two numbers.
pub open spec fn larger(a: nat, b: nat) -> nat {
    if a >= b {
        a
    } else {
        b
    }
}

impl JsonTree {
    /// How deep arrays and objects are nested.
    pub open spec fn nesting(self) -> nat
        decreases self,
    {
        match self {
            JsonTree::Array(items) => 1 + items_nesting(items),
            JsonTree::Object(members) => 1 + members_nesting(members),
            _ => 0,
        }
    }

    /// Whether each number that is not an integer is parsed, on its own, as the
    /// number that was written, and no object starts with the reserved key.
    pub open spec fn reads_back(self) -> bool
        decreases self,
    {
        match self {
            JsonTree::Float(_) => json_parse(json_text(self)) == Ok::<JsonTree, Seq<char>>(self),
            JsonTree::Array(items) => forall|i: int|
                0 <= i < items.len() ==> (#[trigger] items[i]).reads_back(),
            JsonTree::Object(members) => {
                &&& members.len() > 0 ==> members[0].0 != reserved_key()
                &&& forall|i: int|
                    0 <= i < members.len() ==> (#[trigger] members[i]).1.reads_back()
            },
            _ => true,
        }
    }

    /// The member of an object under `key`.
    pub open spec fn member(self, key: Seq<char>) -> Option<JsonTree> {
        match self {
            JsonTree::Object(members) => find_member(members, key),
            _ => None,
        }
    }
}

/// The deepest nesting among `items`.
pub open spec fn items_nesting(items: Seq<JsonTree>) -> nat
    decreases items,
{
    if items.len() == 0 {
        0
    } else {
        larger(items[0].nesting(), items_nesting(items.drop_first()))
    }
}

/// The deepest nesting among the values of `members`.
pub open spec fn members_nesting(members: Seq<(Seq<char>, JsonTree)>) -> nat
    decreases members,
{
    if members.len() == 0 {
        0
    } else {
        larger(members[0].1.nesting(), members_nesting(members.drop_first()))
    }
}

/// The value of the member of `members` under `key`.
pub open spec fn find_member(members: Seq<(Seq<char>, JsonTree)>, key: Seq<char>) -> Option<
    JsonTree,
>
    decreases members.len(),
{
    if members.len() == 0 {
        None
    } else if members[0].0 == key {
        Some(members[0].1)
    } else {
        find_member(members.drop_first(), key)
    }
}

/// What a parsed document says.
pub uninterp spec fn json_tree(value: serde_json::Value) -> JsonTree;

/// The sentence that an error shows.
pub uninterp spec fn json_error_text(error: serde_json::Error) -> Seq<char>;

/// What the parser makes of a text: a document, or the sentence of an error.
pub uninterp spec fn json_parse(text: Seq<char>) -> Result<JsonTree, Seq<char>>;

/// How the writer writes a document.
pub uninterp spec fn json_text(tree: JsonTree) -> Seq<char>;

/// The greatest nesting that the parser follows.
pub const NESTING_LIMIT: u64 = 127;

/// `serde_json::from_str` parses a whole text as one document. What it returns
/// depends on the text alone.
#[verifier::external_body]
pub(crate) fn parse_value(text: &str) -> (r: Result<serde_json::Value, serde_json::Error>)
    ensures
        match r {
            Ok(value) => json_parse(text@) == Ok::<JsonTree, Seq<char>>(json_tree(value)),
            Err(error) => json_parse(text@) == Err::<JsonTree, Seq<char>>(json_error_text(error)),
        },
{
    serde_json::from_str(text)
}

/// Where a character of a JSON text stands: outside strings, within a string, or
/// within a string behind a backslash.
pub enum Place {
    Outside,
    Inside,
    Escaped,
}

/// Where character `i` of `text` stands. The quotation mark that opens a string
/// stands outside it, the one that closes it inside.
pub open spec fn place(text: Seq<char>, i: int) -> Place
    decreases i,
{
    if i <= 0 {
        Place::Outside
    } else {
        match place(text, i - 1) {
            Place::Outside => if text[i - 1] == '"' {
                Place::Inside
            } else {
                Place::Outside
            },
            Place::Inside => if text[i - 1] == '"' {
                Place::Outside
            } else if text[i - 1] == '\\' {
                Place::Escaped
            } else {
                Place::Inside
            },
            Place::Escaped => Place::Inside,
        }
    }
}

/// Whether no white space stands outside the strings of `text`.
pub open spec fn is_compact(text: Seq<char>) -> bool {
    forall|i: int|
        0 <= i < text.len() && place(text, i) is Outside ==> !crate::text::is_white_space(
            #[trigger] text[i],
        )
}

/// Whether `text` is not empty, holds no control character and no white space
/// outside its strings, and is parsed as `tree`. Nothing is said of the parser where `tree` is nested deeper than it
/// follows, holds a number that is not parsed as it was written, or has an
/// object that starts with the reserved key.
pub open spec fn is_faithful(text: Seq<char>, tree: JsonTree) -> bool {
    &&& text.len() > 0
    &&& forall|i: int| 0 <= i < text.len() ==> #[trigger] text[i] as u32 >= 0x20
    &&& is_compact(text)
    &&& tree.reads_back() && tree.nesting() <= NESTING_LIMIT ==> json_parse(text) == Ok::<
        JsonTree,
        Seq<char>,
    >(tree)
}

/// `serde_json::to_string` writes a document without decorative white space,
/// in a way that depends on what the document says alone. It does not fail on
/// a document; no control character stands in what it writes, and no white
/// space but within strings; and the parser gives the document back, as far as
/// `is_faithful` says so. Not stated: which
/// numbers that are not integers are parsed as they were written, since the
/// parser may round them.
#[verifier::external_body]
pub(crate) fn value_text(value: &serde_json::Value) -> (r: Result<String, serde_json::Error>)
    ensures
        match r {
            Ok(written) => {
                &&& written@ == json_text(json_tree(*value))
                &&& is_faithful(written@, json_tree(*value))
            },
            Err(_) => false,
        },
{
    serde_json::to_string(value)
}

/// `Display` of `serde_json::Error` shows the error as a sentence.
#[verifier::external_body]
pub(crate) fn error_text(error: &serde_json::Error) -> (r: String)
    ensures
        r@ == json_error_text(*error),
{
    format!("{}", error)
}

/// `serde_json::Value::get` with a string looks up the member of an object; it
/// finds nothing in any other document.
#[verifier::external_body]
pub(crate) fn value_member<'a>(value: &'a serde_json::Value, key: &str) -> (r: Option<
    &'a serde_json::Value,
>)
    ensures
        match r {
            Some(found) => json_tree(*value).member(key@) == Some(json_tree(*found)),
            None => json_tree(*value).member(key@) is None,
        },
{
    value.get(key)
}

/// `serde_json::Value::as_str` gives the characters of a string, and nothing
/// for any other document.
pub assume_specification[ serde_json::Value::as_str ](value: &serde_json::Value) -> (r: Option<
    &str,
>)
    ensures
        match json_tree(*value) {
            JsonTree::Str(characters) => r matches Some(found) && found@ == characters,
            _ => r is None,
        },
;

/// `serde_json::Value::as_array` gives the items of an array, and nothing for
/// any other document.
pub assume_specification[ serde_json::Value::as_array ](value: &serde_json::Value) -> (r: Option<
    &Vec<serde_json::Value>,
>)
    ensures
        match json_tree(*value) {
            JsonTree::Array(items) => r matches Some(found) && found@.len() == items.len()
                && forall|i: int|
                0 <= i < items.len() ==> json_tree(#[trigger] found@[i]) == items[i],
            _ => r is None,
        },
;

/// `serde_json::Value::is_object` tells whether a document is an object.
pub assume_specification[ serde_json::Value::is_object ](value: &serde_json::Value) -> (r: bool)
    ensures
        r == (json_tree(*value) is Object),
;

/// `Clone` of `serde_json::Value` gives a document that says the same.
pub assume_specification[ <serde_json::Value as Clone>::clone ](value: &serde_json::Value) -> (r:
    serde_json::Value)
    ensures
        json_tree(r) == json_tree(*value),
;

/// The member of an object under a key is the value that stands there, wherever
/// in the object it stands; an object without the key, and a document that is
/// no object, has no such member.
pub proof fn law_members_are_found_by_their_keys(
    members: Seq<(Seq<char>, JsonTree)>,
    key: Seq<char>,
    i: int,
)
    ensures
        0 <= i < members.len() && members[i].0 == key && (forall|j: int|
            0 <= j < i ==> (#[trigger] members[j]).0 != key) ==> JsonTree::Object(members).member(
            key,
        ) == Some(members[i].1),
        (forall|j: int| 0 <= j < members.len() ==> (#[trigger] members[j]).0 != key)
            ==> JsonTree::Object(members).member(key) is None,
        forall|document: JsonTree| !(document is Object) ==> #[trigger] document.member(key) is None,
    decreases members.len(),
{
    if members.len() > 0 {
        let rest = members.drop_first();
        law_members_are_found_by_their_keys(rest, key, i - 1);
        if i < members.len() && forall|j: int| 0 <= j < i ==> (#[trigger] members[j]).0 != key {
            assert forall|j: int| 0 <= j < i - 1 implies (#[trigger] rest[j]).0 != key by {
                assert(rest[j] == members[j + 1]);
            }
            if i > 0 {
                assert(members[0].0 != key);
            }
        }
        if forall|j: int| 0 <= j < members.len() ==> (#[trigger] members[j]).0 != key {
            assert forall|j: int| 0 <= j < rest.len() implies (#[trigger] rest[j]).0 != key by {
                assert(rest[j] == members[j + 1]);
            }
            assert(members[0].0 != key);
        }
    }
}

} // verus!
