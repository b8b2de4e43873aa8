//! Which messages later messages refer to.
//!
//! A message of the assistant may call tools, each call with an identifier. A
//! tool's message names the call that it answers, and so refers to the latest
//! message before it that made the call.

use crate::json;
use crate::json::{value_member, JsonTree};
use crate::scoring::messages;
use crate::scoring::messages::{is_from, read_text};
use std::collections::HashMap;
use vstd::hash_map::StringHashMap;
use vstd::prelude::*;

verus! {

broadcast use vstd::std_specs::hash::group_hash_axioms;

/// What the messages say.
pub open spec fn trees(messages: Seq<serde_json::Value>) -> Seq<JsonTree> {
    Seq::new(messages.len(), |i: int| json::json_tree(messages[i]))
}

/// Whether one of `calls` has the identifier `id`.
pub open spec fn some_call_has(calls: Seq<JsonTree>, id: Seq<char>) -> bool {
    exists|i: int|
        0 <= i < calls.len() && messages::text_member(#[trigger] calls[i], "id"@) == Some(id)
}

/// Whether `message` is the assistant's and makes a call with the identifier
/// `id`.
pub open spec fn makes_call(message: JsonTree, id: Seq<char>) -> bool {
    &&& messages::has_role(message, "assistant"@)
    &&& message.member("tool_calls"@) matches Some(JsonTree::Array(calls)) && some_call_has(
        calls,
        id,
    )
}

/// The latest of the first `k` messages that makes a call with the identifier
/// `id`.
pub open spec fn caller(conversation: Seq<JsonTree>, k: nat, id: Seq<char>) -> Option<nat>
    decreases k,
{
    if k == 0 {
        None
    } else if makes_call(conversation[k - 1], id) {
        Some((k - 1) as nat)
    } else {
        caller(conversation, (k - 1) as nat, id)
    }
}

/// The message that message `i` refers to.
pub open spec fn referent(conversation: Seq<JsonTree>, i: nat) -> Option<nat> {
    if messages::has_role(conversation[i as int], "tool"@) {
        match messages::text_member(conversation[i as int], "tool_call_id"@) {
            Some(id) => caller(conversation, i, id),
            None => None,
        }
    } else {
        None
    }
}

/// How many of the first `k` messages refer to message `target`.
pub open spec fn reference_count(conversation: Seq<JsonTree>, k: nat, target: nat) -> nat
    decreases k,
{
    if k == 0 {
        0
    } else {
        reference_count(conversation, (k - 1) as nat, target) + if referent(
            conversation,
            (k - 1) as nat,
        ) == Some(target) {
            1nat
        } else {
            0nat
        }
    }
}

/// Whether `known` gives, for each identifier, the latest of the first `k`
/// messages that makes the call.
spec fn knows_callers(
    known: Map<Seq<char>, usize>,
    conversation: Seq<JsonTree>,
    k: nat,
) -> bool {
    forall|id: Seq<char>|
        match #[trigger] caller(conversation, k, id) {
            Some(at) => known.contains_key(id) && known[id] == at,
            None => !known.contains_key(id),
        }
}

/// Whether `counts` gives the number of references to each message that has
/// any, among the first `k` messages.
pub open spec fn counts_references(
    counts: Map<usize, usize>,
    conversation: Seq<JsonTree>,
    k: nat,
) -> bool {
    forall|target: usize|
        {
            let expected = #[trigger] reference_count(conversation, k, target as nat);
            if expected == 0 {
                !counts.contains_key(target)
            } else {
                counts.contains_key(target) && counts[target] == expected
            }
        }
}

/// Whether `after` is `before` at `id`, but for `at` if the call was `made`.
spec fn recorded(
    before: Map<Seq<char>, usize>,
    after: Map<Seq<char>, usize>,
    id: Seq<char>,
    made: bool,
    at: usize,
) -> bool {
    if made {
        after.contains_key(id) && after[id] == at
    } else {
        after.contains_key(id) == before.contains_key(id) && (before.contains_key(id) ==> after[id]
            == before[id])
    }
}

proof fn lemma_one_more_call(calls: Seq<JsonTree>, i: int, id: Seq<char>)
    requires
        0 <= i < calls.len(),
    ensures
        some_call_has(calls.take(i + 1), id) == (some_call_has(calls.take(i), id)
            || messages::text_member(calls[i], "id"@) == Some(id)),
{
    let more = calls.take(i + 1);
    let less = calls.take(i);
    if some_call_has(less, id) {
        let k = choose|k: int|
            0 <= k < less.len() && messages::text_member(#[trigger] less[k], "id"@) == Some(id);
        assert(more[k] == less[k]);
    }
    if messages::text_member(calls[i], "id"@) == Some(id) {
        assert(more[i] == calls[i]);
    }
    if some_call_has(more, id) {
        let k = choose|k: int|
            0 <= k < more.len() && messages::text_member(#[trigger] more[k], "id"@) == Some(id);
        if k < i {
            assert(less[k] == more[k]);
        }
    }
}

/// Records message `at` for each call that it makes.
fn record_calls(known: &mut StringHashMap<usize>, message: &serde_json::Value, at: usize)
    ensures
        forall|id: Seq<char>| #[trigger]
            recorded(
                old(known)@,
                final(known)@,
                id,
                makes_call(json::json_tree(*message), id),
                at,
            ),
{
    let ghost before = known@;
    if !is_from(message, "assistant") {
        return;
    }
    let calls: &Vec<serde_json::Value> = match value_member(message, "tool_calls") {
        Some(member) => match member.as_array() {
            Some(calls) => calls,
            None => {
                return;
            },
        },
        None => {
            return;
        },
    };
    let ghost list = trees(calls@);
    let mut i: usize = 0;
    while i < calls.len()
        invariant
            i <= calls@.len(),
            list == trees(calls@),
            forall|id: Seq<char>| #[trigger]
                recorded(before, known@, id, some_call_has(list.take(i as int), id), at),
        decreases calls@.len() - i,
    {
        let ghost step = known@;
        let named = read_text(&calls[i], "id");
        if let Some(id) = named {
            known.insert(id.to_string(), at);
        }
        proof {
            assert forall|id: Seq<char>| #[trigger]
                recorded(before, known@, id, some_call_has(list.take(i + 1), id), at) by {
                assert(recorded(before, step, id, some_call_has(list.take(i as int), id), at));
                lemma_one_more_call(list, i as int, id);
                assert(list[i as int] == json::json_tree(calls@[i as int]));
            }
        }
        i = i + 1;
    }
    proof {
        assert(list.take(i as int) == list);
        let tree = json::json_tree(*message);
        assert(tree.member("tool_calls"@)->0->Array_0 =~= list);
        assert forall|id: Seq<char>| #[trigger]
            recorded(before, known@, id, makes_call(tree, id), at) by {
            assert(recorded(before, known@, id, some_call_has(list, id), at));
        }
    }
}

/// How many later messages refer to each message, for those that have any
/// references.
pub fn compute_forward_references(messages: &[serde_json::Value]) -> (r: HashMap<usize, usize>)
    ensures
        counts_references(r@, trees(messages@), messages@.len()),
{
    let ghost conversation = trees(messages@);
    let mut counts: HashMap<usize, usize> = HashMap::new();
    let mut known: StringHashMap<usize> = StringHashMap::new();
    let mut i: usize = 0;
    while i < messages.len()
        invariant
            i <= messages@.len(),
            conversation == trees(messages@),
            knows_callers(known@, conversation, i as nat),
            counts_references(counts@, conversation, i as nat),
        decreases messages@.len() - i,
    {
        let ghost known_before = known@;
        let ghost counts_before = counts@;
        let message: &serde_json::Value = &messages[i];
        assert(json::json_tree(*message) == conversation[i as int]);
        let referred: Option<usize> = if is_from(message, "tool") {
            match read_text(message, "tool_call_id") {
                Some(id) => {
                    assert(match caller(conversation, i as nat, id@) {
                        Some(at) => known@.contains_key(id@) && known@[id@] == at,
                        None => !known@.contains_key(id@),
                    });
                    match known.get(id) {
                        Some(at) => Some(*at),
                        None => None,
                    }
                },
                None => None,
            }
        } else {
            None
        };
        if let Some(at) = referred {
            let so_far: usize = match counts.get(&at) {
                Some(count) => *count,
                None => 0,
            };
            proof {
                assert(reference_count(conversation, i as nat, at as nat) == so_far);
                lemma_references_are_few(conversation, i as nat, at as nat);
            }
            counts.insert(at, so_far + 1);
        }
        record_calls(&mut known, message, i);
        proof {
            assert(match referred {
                Some(at) => referent(conversation, i as nat) == Some(at as nat),
                None => referent(conversation, i as nat) is None,
            });
            assert(knows_callers(known@, conversation, (i + 1) as nat)) by {
                assert forall|id: Seq<char>|
                    match #[trigger] caller(conversation, (i + 1) as nat, id) {
                        Some(at) => known@.contains_key(id) && known@[id] == at,
                        None => !known@.contains_key(id),
                    } by {
                    assert(recorded(
                        known_before,
                        known@,
                        id,
                        makes_call(conversation[i as int], id),
                        i,
                    ));
                    assert(match caller(conversation, i as nat, id) {
                        Some(at) => known_before.contains_key(id) && known_before[id] == at,
                        None => !known_before.contains_key(id),
                    });
                }
            }
            assert(counts_references(counts@, conversation, (i + 1) as nat)) by {
                assert forall|target: usize|
                    {
                        let expected = #[trigger] reference_count(
                            conversation,
                            (i + 1) as nat,
                            target as nat,
                        );
                        if expected == 0 {
                            !counts@.contains_key(target)
                        } else {
                            counts@.contains_key(target) && counts@[target] == expected
                        }
                    } by {
                    let earlier = reference_count(conversation, i as nat, target as nat);
                    if earlier == 0 {
                        assert(!counts_before.contains_key(target));
                    } else {
                        assert(counts_before.contains_key(target));
                    }
                }
            }
        }
        i = i + 1;
    }
    counts
}

/// No message has more references than there are messages.
proof fn lemma_references_are_few(conversation: Seq<JsonTree>, k: nat, target: nat)
    ensures
        reference_count(conversation, k, target) <= k,
    decreases k,
{
    if k > 0 {
        lemma_references_are_few(conversation, (k - 1) as nat, target);
    }
}

proof fn lemma_caller(conversation: Seq<JsonTree>, k: nat, id: Seq<char>)
    ensures
        match caller(conversation, k, id) {
            Some(at) => {
                &&& at < k
                &&& makes_call(conversation[at as int], id)
                &&& forall|j: int| at < j < k ==> !makes_call(#[trigger] conversation[j], id)
            },
            None => forall|j: int| 0 <= j < k ==> !makes_call(#[trigger] conversation[j], id),
        },
    decreases k,
{
    if k > 0 {
        lemma_caller(conversation, (k - 1) as nat, id);
    }
}

/// A tool's message refers to the latest message before it that made the call
/// that it answers, and to none if no message before it made the call.
pub proof fn law_references_go_to_the_latest_caller(
    conversation: Seq<JsonTree>,
    i: nat,
    id: Seq<char>,
)
    requires
        i < conversation.len(),
        messages::has_role(conversation[i as int], "tool"@),
        messages::text_member(conversation[i as int], "tool_call_id"@) == Some(id),
    ensures
        match referent(conversation, i) {
            Some(at) => {
                &&& at < i
                &&& makes_call(conversation[at as int], id)
                &&& forall|j: int| at < j < i ==> !makes_call(#[trigger] conversation[j], id)
            },
            None => forall|j: int| 0 <= j < i ==> !makes_call(#[trigger] conversation[j], id),
        },
{
    lemma_caller(conversation, i, id);
}

/// Only messages of the assistant are referred to, and only by messages that
/// come later.
pub proof fn law_only_earlier_assistant_messages_are_referred_to(
    conversation: Seq<JsonTree>,
    k: nat,
    target: nat,
)
    requires
        k <= conversation.len(),
        reference_count(conversation, k, target) > 0,
    ensures
        target + 1 < k,
        messages::has_role(conversation[target as int], "assistant"@),
    decreases k,
{
    let i = (k - 1) as nat;
    if referent(conversation, i) == Some(target) {
        let id = messages::text_member(conversation[i as int], "tool_call_id"@)->0;
        lemma_caller(conversation, i, id);
    } else {
        law_only_earlier_assistant_messages_are_referred_to(conversation, i, target);
    }
}

/// A tool's message with the identifier `id` refers to message `j` of the
/// assistant before it, if the call with that identifier stands anywhere among
/// the calls of message `j`, and among those of no assistant's message between
/// the two.
pub proof fn law_an_answer_refers_to_the_call_it_answers(
    conversation: Seq<JsonTree>,
    i: nat,
    j: nat,
    id: Seq<char>,
    calls: Seq<JsonTree>,
    place: int,
)
    requires
        j < i < conversation.len(),
        conversation[i as int].member("role"@) == Some(JsonTree::Str("tool"@)),
        conversation[i as int].member("tool_call_id"@) == Some(JsonTree::Str(id)),
        conversation[j as int].member("role"@) == Some(JsonTree::Str("assistant"@)),
        conversation[j as int].member("tool_calls"@) == Some(JsonTree::Array(calls)),
        0 <= place < calls.len(),
        calls[place].member("id"@) == Some(JsonTree::Str(id)),
        forall|k: int, items: Seq<JsonTree>, c: int|
            j < k < i && (#[trigger] conversation[k]).member("role"@) == Some(
                JsonTree::Str("assistant"@),
            ) && conversation[k].member("tool_calls"@) == Some(JsonTree::Array(items)) && 0 <= c
                < items.len() ==> (#[trigger] items[c]).member("id"@) != Some(JsonTree::Str(id)),
    ensures
        referent(conversation, i) == Some(j),
        reference_count(conversation, i + 1, j) == reference_count(conversation, i, j) + 1,
        forall|other: nat|
            other != j ==> #[trigger] reference_count(conversation, i + 1, other)
                == reference_count(conversation, i, other),
{
    assert(messages::text_member(calls[place], "id"@) == Some(id));
    assert(makes_call(conversation[j as int], id));
    lemma_caller(conversation, i, id);
    assert forall|k: int| j < k < i implies !makes_call(#[trigger] conversation[k], id) by {
        if makes_call(conversation[k], id) {
            let items = conversation[k].member("tool_calls"@)->0->Array_0;
            let c = choose|c: int|
                0 <= c < items.len() && messages::text_member(#[trigger] items[c], "id"@) == Some(
                    id,
                );
            assert(conversation[k].member("role"@) == Some(JsonTree::Str("assistant"@)));
            assert(items[c].member("id"@) == Some(JsonTree::Str(id)));
        }
    }
}

/// Whether message `k` makes a call with the identifier `id`.
spec fn is_call(conversation: Seq<JsonTree>, k: int, id: Seq<char>) -> bool {
    conversation[k].member("role"@) == Some(JsonTree::Str("assistant"@)) && (
            conversation[k].member("tool_calls"@) matches Some(JsonTree::Array(items)) && exists|
                c: int,
            |
                0 <= c < items.len() && (#[trigger] items[c]).member("id"@) == Some(
                    JsonTree::Str(id),
                ))
}

/// Whether message `i` answers a call of message `target` that no message
/// between them makes again.
spec fn is_answer(conversation: Seq<JsonTree>, i: int, target: nat) -> bool {
    &&& conversation[i].member("role"@) == Some(JsonTree::Str("tool"@))
    &&& conversation[i].member("tool_call_id"@) matches Some(JsonTree::Str(id)) && is_call(
        conversation,
        target as int,
        id,
    ) && forall|k: int| target < k < i ==> !is_call(conversation, k, id)
}

proof fn lemma_calls_are_made(conversation: Seq<JsonTree>, k: int, id: Seq<char>)
    ensures
        is_call(conversation, k, id) == makes_call(conversation[k], id),
{
    if makes_call(conversation[k], id) {
        let items = conversation[k].member("tool_calls"@)->0->Array_0;
        let c = choose|c: int|
            0 <= c < items.len() && messages::text_member(#[trigger] items[c], "id"@) == Some(id);
        assert(items[c].member("id"@) == Some(JsonTree::Str(id)));
    }
    if is_call(conversation, k, id) {
        let items = conversation[k].member("tool_calls"@)->0->Array_0;
        let c = choose|c: int|
            0 <= c < items.len() && (#[trigger] items[c]).member("id"@) == Some(
                JsonTree::Str(id),
            );
        assert(messages::text_member(items[c], "id"@) == Some(id));
    }
}

proof fn lemma_answers_refer(conversation: Seq<JsonTree>, i: nat, target: nat)
    ensures
        (target < i && is_answer(conversation, i as int, target)) == (referent(conversation, i)
            == Some(target)),
{
    if let Some(id) = messages::text_member(conversation[i as int], "tool_call_id"@) {
        lemma_caller(conversation, i, id);
        assert forall|k: int| is_call(conversation, k, id) == makes_call(
            #[trigger] conversation[k],
            id,
        ) by {
            lemma_calls_are_made(conversation, k, id);
        }
        if target < i && is_answer(conversation, i as int, target) {
            assert(makes_call(conversation[target as int], id));
            let at = caller(conversation, i, id);
            if at is Some && at->0 > target {
                assert(is_call(conversation, at->0 as int, id));
            }
        }
        if referent(conversation, i) == Some(target) {
            assert(makes_call(conversation[target as int], id));
            assert forall|k: int| target < k < i implies !is_call(conversation, k, id) by {
                assert(!makes_call(conversation[k], id));
            }
        }
    }
}

/// The messages among the first `k` that answer message `target`.
spec fn answers_among(conversation: Seq<JsonTree>, k: nat, target: nat) -> Set<int> {
    Set::new(|i: int| target < i < k && is_answer(conversation, i, target))
}

proof fn lemma_answers_are_counted(conversation: Seq<JsonTree>, k: nat, target: nat)
    ensures
        answers_among(conversation, k, target).finite(),
        reference_count(conversation, k, target) == answers_among(conversation, k, target).len(),
    decreases k,
{
    let all = answers_among(conversation, k, target);
    if k == 0 {
        assert(all =~= Set::empty());
    } else {
        let i = (k - 1) as nat;
        lemma_answers_are_counted(conversation, i, target);
        lemma_answers_refer(conversation, i, target);
        let fewer = answers_among(conversation, i, target);
        if target < i && is_answer(conversation, i as int, target) {
            assert(all =~= fewer.insert(i as int));
        } else {
            assert(all =~= fewer);
        }
    }
}

/// A message is referred to as often as there are later messages of tools that
/// answer one of its calls, wherever among its calls that stands, which no
/// assistant's message between the two makes again.
pub proof fn law_a_message_is_referred_to_by_its_answers(conversation: Seq<JsonTree>, target: nat)
    ensures
        ({
            let calls = |k: int, id: Seq<char>|
                conversation[k].member("role"@) == Some(JsonTree::Str("assistant"@)) && (
                    conversation[k].member("tool_calls"@) matches Some(JsonTree::Array(items)) && exists|
                        c: int,
                    |
                        0 <= c < items.len() && (#[trigger] items[c]).member("id"@) == Some(
                            JsonTree::Str(id),
                        ));
            let answers = Set::new(
                |i: int|
                    {
                        &&& target < i < conversation.len()
                        &&& conversation[i].member("role"@) == Some(JsonTree::Str("tool"@))
                        &&& conversation[i].member("tool_call_id"@) matches Some(
                            JsonTree::Str(id),
                        ) && calls(target as int, id) && forall|k: int|
                            target < k < i ==> !(#[trigger] calls(k, id))
                    },
            );
            &&& answers.finite()
            &&& reference_count(conversation, conversation.len(), target) == answers.len()
        }),
{
    let calls = |k: int, id: Seq<char>|
        conversation[k].member("role"@) == Some(JsonTree::Str("assistant"@)) && (
            conversation[k].member("tool_calls"@) matches Some(JsonTree::Array(items)) && exists|
                c: int,
            |
                0 <= c < items.len() && (#[trigger] items[c]).member("id"@) == Some(
                    JsonTree::Str(id),
                ));
    let answers = Set::new(
        |i: int|
            {
                &&& target < i < conversation.len()
                &&& conversation[i].member("role"@) == Some(JsonTree::Str("tool"@))
                &&& conversation[i].member("tool_call_id"@) matches Some(JsonTree::Str(id))
                    && calls(target as int, id) && forall|k: int|
                    target < k < i ==> !(#[trigger] calls(k, id))
            },
    );
    assert(forall|k: int, id: Seq<char>| #[trigger]
        calls(k, id) == is_call(conversation, k, id));
    let counted = answers_among(conversation, conversation.len(), target);
    assert forall|i: int| answers.contains(i) == counted.contains(i) by {
        if let Some(JsonTree::Str(id)) = conversation[i].member("tool_call_id"@) {
            if answers.contains(i) {
                assert forall|k: int| target < k < i implies !is_call(conversation, k, id) by {
                    assert(!calls(k, id));
                }
            }
            if counted.contains(i) {
                assert forall|k: int| target < k < i implies !(#[trigger] calls(k, id)) by {
                    assert(!is_call(conversation, k, id));
                }
            }
        }
    }
    assert(answers =~= counted);
    lemma_answers_are_counted(conversation, conversation.len(), target);
}

/// `counts` holds, for each message that is referred to, how often it is: as
/// often as there are later messages of tools that answer one of its calls, wherever among its calls that stands, which no
/// assistant's message between the two makes again.
pub proof fn law_references_are_counted(
    counts: Map<usize, usize>,
    conversation: Seq<JsonTree>,
    target: usize,
)
    requires
        counts_references(counts, conversation, conversation.len()),
    ensures
        ({
            let calls = |k: int, id: Seq<char>|
                conversation[k].member("role"@) == Some(JsonTree::Str("assistant"@)) && (
                    conversation[k].member("tool_calls"@) matches Some(JsonTree::Array(items)) && exists|
                        c: int,
                    |
                        0 <= c < items.len() && (#[trigger] items[c]).member("id"@) == Some(
                            JsonTree::Str(id),
                        ));
            let answers = Set::new(
                |i: int|
                    {
                        &&& target < i < conversation.len()
                        &&& conversation[i].member("role"@) == Some(JsonTree::Str("tool"@))
                        &&& conversation[i].member("tool_call_id"@) matches Some(
                            JsonTree::Str(id),
                        ) && calls(target as int, id) && forall|k: int|
                            target < k < i ==> !(#[trigger] calls(k, id))
                    },
            );
            &&& answers.finite()
            &&& reference_count(conversation, conversation.len(), target as nat) == answers.len()
            &&& counts.contains_key(target) <==> answers.len() > 0
            &&& counts.contains_key(target) ==> counts[target] == answers.len()
        }),
{
    law_a_message_is_referred_to_by_its_answers(conversation, target as nat);
    let expected = reference_count(conversation, conversation.len(), target as nat);
}

/// What a list of messages says is what each of them says, all of them in order.
pub proof fn law_every_message_is_read(messages: Seq<serde_json::Value>, i: int)
    ensures
        trees(messages).len() == messages.len(),
        0 <= i < messages.len() ==> trees(messages)[i] == json::json_tree(messages[i]),
{
}

} // verus!
