//! What is read from a message.
//!
//! A message is a JSON object. Its `role` says who speaks; its `content` is
//! what is said, mostly a string.

use crate::json;
use crate::json::{parse_value, value_member, JsonTree};
use crate::text;
use crate::text::{characters, words};
use vstd::hash_set::StringHashSet;
use vstd::prelude::*;

verus! {

/// The string that is the member of `message` under `key`.
pub open spec fn text_member(message: JsonTree, key: Seq<char>) -> Option<Seq<char>> {
    match message.member(key) {
        Some(JsonTree::Str(characters)) => Some(characters),
        _ => None,
    }
}

/// The string that is the member of `message` under `key`.
pub fn read_text<'a>(message: &'a serde_json::Value, key: &str) -> (r: Option<&'a str>)
    ensures
        match r {
            Some(found) => text_member(json::json_tree(*message), key@) == Some(found@),
            None => text_member(json::json_tree(*message), key@) is None,
        },
{
    match value_member(message, key) {
        Some(member) => member.as_str(),
        None => None,
    }
}

/// Whether the role of `message` is `role`.
pub open spec fn has_role(message: JsonTree, role: Seq<char>) -> bool {
    text_member(message, "role"@) == Some(role)
}

/// Whether the role of `message` is `role`.
pub fn is_from(message: &serde_json::Value, role: &str) -> (r: bool)
    ensures
        r == has_role(json::json_tree(*message), role@),
{
    match read_text(message, "role") {
        Some(found) => text::same(found, role),
        None => false,
    }
}

/// About how many tokens `message` takes: one for four characters of its
/// content, and a hundred if the content is not a string.
pub open spec fn token_estimate(message: JsonTree) -> nat {
    match text_member(message, "content"@) {
        Some(content) => content.len() / 4,
        None => 100,
    }
}

/// About how many tokens `message` takes.
pub fn estimate_tokens(message: &serde_json::Value) -> (r: usize)
    ensures
        r == token_estimate(json::json_tree(*message)),
{
    match read_text(message, "content") {
        Some(content) => characters(content).len() / 4,
        None => 100,
    }
}

/// Whether a document can be the output of a tool: an object, or an array with
/// items.
pub open spec fn can_be_output(document: JsonTree) -> bool {
    match document {
        JsonTree::Object(_) => true,
        JsonTree::Array(items) => items.len() > 0,
        _ => false,
    }
}

/// Whether a document can be the output of a tool.
pub fn is_output(document: &serde_json::Value) -> (r: bool)
    ensures
        r == can_be_output(json::json_tree(*document)),
{
    if document.is_object() {
        return true;
    }
    match document.as_array() {
        Some(items) => items.len() > 0,
        None => false,
    }
}

/// The document `candidate`, if it can be the output of a tool.
pub open spec fn as_output(candidate: JsonTree) -> Option<JsonTree> {
    if can_be_output(candidate) {
        Some(candidate)
    } else {
        None
    }
}

/// The output that a tool's message carries: its content, or what its content
/// is parsed as if it is a string.
pub open spec fn tool_output(message: JsonTree) -> Option<JsonTree> {
    match message.member("content"@) {
        Some(JsonTree::Str(characters)) => if characters.len() == 0 {
            None
        } else {
            match json::json_parse(characters) {
                Ok(parsed) => as_output(parsed),
                Err(_) => None,
            }
        },
        Some(content) => as_output(content),
        None => None,
    }
}

/// The output that a tool's message carries.
pub fn parse_tool_content(message: &serde_json::Value) -> (r: Option<serde_json::Value>)
    ensures
        match r {
            Some(output) => tool_output(json::json_tree(*message)) == Some(
                json::json_tree(output),
            ),
            None => tool_output(json::json_tree(*message)) is None,
        },
{
    let content: &serde_json::Value = match value_member(message, "content") {
        Some(content) => content,
        None => {
            return None;
        },
    };
    let parsed: serde_json::Value = match content.as_str() {
        Some(characters) => {
            if characters.is_empty() {
                return None;
            }
            match parse_value(characters) {
                Ok(parsed) => parsed,
                Err(_) => {
                    return None;
                },
            }
        },
        None => content.clone(),
    };
    if is_output(&parsed) {
        Some(parsed)
    } else {
        None
    }
}

/// How many words of `lower` there are, the same ones counted once and each
/// time, if there are three or more.
pub open spec fn word_count(lower: Seq<char>) -> Option<(nat, nat)> {
    let found = text::words_of(lower);
    if found.len() < 3 {
        None
    } else {
        Some((found.to_set().len(), found.len()))
    }
}

/// How many words of `lower` there are, the same ones counted once and each
/// time, if there are three or more.
pub fn count_words(lower: &str) -> (r: Option<(usize, usize)>)
    ensures
        match r {
            Some(counts) => word_count(lower@) == Some((counts.0 as nat, counts.1 as nat)),
            None => word_count(lower@) is None,
        },
{
    let found: Vec<String> = words(lower);
    let ghost expected = text::words_of(lower@);
    if found.len() < 3 {
        return None;
    }
    let mut unique = StringHashSet::new();
    let mut i: usize = 0;
    assert(expected.take(0).to_set() =~= Set::empty());
    while i < found.len()
        invariant
            i <= found@.len(),
            text::texts(found@) == expected,
            unique@ == expected.take(i as int).to_set(),
        decreases found@.len() - i,
    {
        proof {
            assert(found@[i as int]@ == expected[i as int]);
            lemma_take_one_more(expected, i as int);
        }
        unique.insert(found[i].clone());
        i = i + 1;
    }
    assert(expected.take(i as int) == expected);
    Some((unique.len(), found.len()))
}

proof fn lemma_take_one_more(list: Seq<Seq<char>>, i: int)
    requires
        0 <= i < list.len(),
    ensures
        list.take(i + 1).to_set() == list.take(i).to_set().insert(list[i]),
{
    let more = list.take(i + 1);
    let less = list.take(i);
    assert forall|word: Seq<char>| #[trigger]
        more.to_set().contains(word) == less.to_set().insert(list[i]).contains(word) by {
        if less.contains(word) {
            let k = choose|k: int| 0 <= k < less.len() && less[k] == word;
            assert(more[k] == word);
        }
        if word == list[i] {
            assert(more[i] == word);
        }
        if more.contains(word) {
            let k = choose|k: int| 0 <= k < more.len() && more[k] == word;
            if k < i {
                assert(less[k] == word);
            }
        }
    }
    assert(more.to_set() =~= less.to_set().insert(list[i]));
}

/// What the density of `message` is computed from: the distinct words and all
/// words of its content, in lower case. Nothing if the content is not a string,
/// has fewer than ten characters, or fewer than three words.
pub open spec fn density_counts(message: JsonTree) -> Option<(nat, nat)> {
    match text_member(message, "content"@) {
        Some(content) => if content.len() < 10 {
            None
        } else {
            word_count(text::lowercase(content))
        },
        None => None,
    }
}

/// What the density of `message` is computed from.
pub fn compute_density_counts(message: &serde_json::Value) -> (r: Option<(usize, usize)>)
    ensures
        match r {
            Some(counts) => density_counts(json::json_tree(*message)) == Some(
                (counts.0 as nat, counts.1 as nat),
            ),
            None => density_counts(json::json_tree(*message)) is None,
        },
{
    match read_text(message, "content") {
        Some(content) => {
            if characters(content).len() < 10 {
                None
            } else {
                count_words(content.to_lowercase().as_str())
            }
        },
        None => None,
    }
}

/// Of the words that a density is computed from, at least one is distinct, and
/// no more are distinct than there are.
pub proof fn law_distinct_words_are_among_all_words(message: JsonTree)
    requires
        density_counts(message) is Some,
    ensures
        density_counts(message) matches Some((distinct, all)) && 1 <= distinct <= all && all >= 3,
{
    let content = text_member(message, "content"@)->0;
    let found = text::words_of(text::lowercase(content));
    found.lemma_cardinality_of_set();
    let unique = found.to_set();
    vstd::seq_lib::seq_to_set_is_finite(found);
    assert(unique.contains(found[0]));
    assert(unique.len() > 0);
}

/// A message takes a token for each whole four characters of its content, and a
/// hundred if its content is not a string.
pub proof fn law_four_characters_make_a_token(message: JsonTree, content: Seq<char>)
    ensures
        message.member("content"@) == Some(JsonTree::Str(content)) ==> 4 * token_estimate(message)
            <= content.len() < 4 * token_estimate(message) + 4,
        !(message.member("content"@) matches Some(JsonTree::Str(_))) ==> token_estimate(message)
            == 100,
{
}

/// The output that a tool's message carries is its content if that is an object
/// or an array with items, and what its content is parsed as if that is a
/// string of whatever length and the parsed document is one of these. No other
/// message carries any.
pub proof fn law_objects_and_filled_arrays_are_outputs(message: JsonTree)
    ensures
        match message.member("content"@) {
            Some(JsonTree::Object(members)) => tool_output(message) == Some(
                JsonTree::Object(members),
            ),
            Some(JsonTree::Array(items)) => tool_output(message) == if items.len() > 0 {
                Some(JsonTree::Array(items))
            } else {
                None
            },
            Some(JsonTree::Str(characters)) => tool_output(message) == if characters.len() == 0 {
                None
            } else {
                match json::json_parse(characters) {
                    Ok(JsonTree::Object(members)) => Some(JsonTree::Object(members)),
                    Ok(JsonTree::Array(items)) => if items.len() > 0 {
                        Some(JsonTree::Array(items))
                    } else {
                        None
                    },
                    _ => None,
                }
            },
            _ => tool_output(message) is None,
        },
{
}

/// The density of a message is computed from how many different words its
/// content has in lower case, and how many words in all. It is computed for
/// every content that is a string of ten characters or more with three words or
/// more, and for no other.
pub proof fn law_density_counts_the_words(message: JsonTree, content: Seq<char>)
    ensures
        message.member("content"@) == Some(JsonTree::Str(content)) ==> {
            let found = text::words_of(text::lowercase(content));
            let different = Set::new(
                |word: Seq<char>| exists|i: int| 0 <= i < found.len() && found[i] == word,
            );
            density_counts(message) == if content.len() >= 10 && found.len() >= 3 {
                Some((different.len(), found.len()))
            } else {
                None
            }
        },
        !(message.member("content"@) matches Some(JsonTree::Str(_))) ==> density_counts(
            message,
        ) is None,
{
    let found = text::words_of(text::lowercase(content));
    let different = Set::new(
        |word: Seq<char>| exists|i: int| 0 <= i < found.len() && found[i] == word,
    );
    assert(found.to_set() =~= different);
}

} // verus!
