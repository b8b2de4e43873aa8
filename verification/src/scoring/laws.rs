//! What the scores of a conversation say, in terms of its messages and of what
//! the providers return.

use crate::float::Float32;
use crate::json::JsonTree;
use crate::scoring::messages;
use crate::scoring::references;
use crate::scoring::score::MessageScore;
use crate::scoring::scorer;
use crate::scoring::scorer::{lemma_message_is_scored, Embedded, MessageScorer};
use crate::scoring::traits;
use crate::scoring::traits::{EmbeddingError, ToinFieldSemantic, ToinPattern};
use crate::text;
use vstd::prelude::*;

verus! {

/// There is one score for each message, in order. It tells the place of the
/// message from the end, unless there is only one, how often the message is
/// referred to, its tokens and word counts, and whether it is protected; it may
/// be dropped unless it is both protected and within a tool unit.
pub proof fn law_each_message_has_its_score(
    scorer: MessageScorer,
    conversation: Seq<JsonTree>,
    protected: Set<usize>,
    tool_units: Set<usize>,
    scores: Seq<MessageScore>,
    recent: Option<Vec<Float32>>,
    caches: Seq<Map<usize, Embedded>>,
    i: int,
)
    requires
        scorer.may_score_all(conversation, protected, tool_units, scores, recent, caches),
        0 <= i < conversation.len() <= usize::MAX,
    ensures
        scores.len() == conversation.len(),
        scores[i].message_index == i,
        conversation.len() == 1 ==> scores[i].position_from_end is None,
        conversation.len() > 1 ==> (scores[i].position_from_end matches Some(position) && position
            + i + 1 == conversation.len()),
        scores[i].reference_count == references::reference_count(
            conversation,
            conversation.len(),
            i as nat,
        ),
        conversation[i].member("content"@) matches Some(JsonTree::Str(content)) ==> 4
            * scores[i].tokens <= content.len() < 4 * scores[i].tokens + 4,
        !(conversation[i].member("content"@) matches Some(JsonTree::Str(_))) ==> scores[i].tokens
            == 100,
        match scores[i].density {
            Some(counts) => messages::density_counts(conversation[i]) == Some(
                (counts.0 as nat, counts.1 as nat),
            ),
            None => messages::density_counts(conversation[i]) is None,
        },
        scores[i].is_protected <==> protected.contains(i as usize),
        scores[i].drop_safe <==> !(protected.contains(i as usize) && tool_units.contains(
            i as usize,
        )),
{
    lemma_message_is_scored(
        scorer,
        conversation,
        protected,
        tool_units,
        scores,
        recent,
        caches,
        i,
    );
}

/// The recent context is made of the contents of the last messages, as many as
/// `count` says, that are strings and not blank: all of these and no others, in
/// order, with a space between each two. There is none if there are no such
/// contents.
pub proof fn law_the_recent_context_joins_the_last_contents(
    conversation: Seq<JsonTree>,
    count: nat,
)
    ensures
        exists|places: Seq<int>|
            #![trigger places.len()]
            {
                &&& forall|a: int, b: int| 0 <= a < b < places.len() ==> places[a] < places[b]
                &&& forall|k: int|
                    places.contains(k) <==> {
                        &&& 0 <= k < conversation.len()
                        &&& k + count >= conversation.len()
                        &&& (#[trigger] conversation[k]).member("content"@) matches Some(
                            JsonTree::Str(content),
                        )
                        &&& exists|c: int|
                            0 <= c < content.len() && !text::is_white_space(#[trigger] content[c])
                    }
                &&& scorer::recent_context(conversation, count) == if places.len() == 0 {
                    None
                } else {
                    Some(
                        text::joined(
                            Seq::new(
                                places.len(),
                                |a: int| conversation[places[a]].member("content"@)->0->Str_0,
                            ),
                            " "@,
                        ),
                    )
                }
            },
{
    let from = if conversation.len() >= count {
        (conversation.len() - count) as nat
    } else {
        0
    };
    let places = lemma_spoken_places(conversation, from, conversation.len());
    let contents = scorer::spoken_between(conversation, from, conversation.len());
    assert(contents =~= Seq::new(
        places.len(),
        |a: int| conversation[places[a]].member("content"@)->0->Str_0,
    ));
    assert forall|k: int|
        places.contains(k) <==> {
            &&& 0 <= k < conversation.len()
            &&& k + count >= conversation.len()
            &&& (#[trigger] conversation[k]).member("content"@) matches Some(JsonTree::Str(content))
            &&& exists|c: int|
                0 <= c < content.len() && !text::is_white_space(#[trigger] content[c])
        } by {
        lemma_spoken(conversation[k]);
    }
    assert(places.len() == contents.len());
}

proof fn lemma_spoken(message: JsonTree)
    ensures
        match scorer::spoken(message) {
            Some(found) => {
                &&& message.member("content"@) == Some(JsonTree::Str(found))
                &&& exists|c: int|
                    0 <= c < found.len() && !text::is_white_space(#[trigger] found[c])
            },
            None => !(message.member("content"@) matches Some(JsonTree::Str(content)) && exists|
                c: int,
            |
                0 <= c < content.len() && !text::is_white_space(#[trigger] content[c])),
        },
{
}

proof fn lemma_spoken_places(conversation: Seq<JsonTree>, from: nat, to: nat) -> (places: Seq<int>)
    requires
        to <= conversation.len(),
    ensures
        forall|a: int, b: int| 0 <= a < b < places.len() ==> places[a] < places[b],
        forall|k: int| #[trigger]
            places.contains(k) <==> from <= k < to && scorer::spoken(conversation[k]) is Some,
        places.len() == scorer::spoken_between(conversation, from, to).len(),
        forall|a: int|
            0 <= a < places.len() ==> {
                &&& from <= #[trigger] places[a] < to
                &&& conversation[places[a]].member("content"@) == Some(
                    JsonTree::Str(scorer::spoken_between(conversation, from, to)[a]),
                )
            },
    decreases to,
{
    if to <= from {
        let none = Seq::<int>::empty();
        none
    } else {
        let earlier = lemma_spoken_places(conversation, from, (to - 1) as nat);
        lemma_spoken(conversation[to - 1]);
        if scorer::spoken(conversation[to - 1]) is Some {
            let places = earlier.push(to - 1);
            assert forall|k: int| #[trigger]
                places.contains(k) <==> from <= k < to && scorer::spoken(
                    conversation[k],
                ) is Some by {
                if earlier.contains(k) {
                    let a = choose|a: int| 0 <= a < earlier.len() && earlier[a] == k;
                    assert(places[a] == k);
                }
                if k == to - 1 {
                    assert(places[earlier.len() as int] == k);
                }
                if places.contains(k) && k != to - 1 {
                    let a = choose|a: int| 0 <= a < places.len() && places[a] == k;
                    assert(earlier[a] == k);
                }
                if from <= k < to - 1 && scorer::spoken(conversation[k]) is Some {
                    assert(earlier.contains(k));
                }
            }
            places
        } else {
            earlier
        }
    }
}

/// Messages are compared with the provider's embedding of the contents of the
/// last three messages. Without a provider, and without such contents, and
/// where the provider fails, there is no embedding to compare with.
pub proof fn law_messages_are_compared_with_the_last_three(
    scorer: MessageScorer,
    conversation: Seq<JsonTree>,
    protected: Set<usize>,
    tool_units: Set<usize>,
    scores: Seq<MessageScore>,
    recent: Option<Vec<Float32>>,
    caches: Seq<Map<usize, Embedded>>,
)
    requires
        scorer.may_score_all(conversation, protected, tool_units, scores, recent, caches),
    ensures
        scorer.spec_embedding_provider() is None ==> recent is None,
        scorer::recent_context(conversation, 3) is None ==> recent is None,
        scorer.spec_embedding_provider() matches Some(provider) ==> (scorer::recent_context(
            conversation,
            3,
        ) matches Some(context) ==> exists|outcome: Result<Vec<Float32>, EmbeddingError>|
            {
                &&& #[trigger] provider.may_embed(context, outcome)
                &&& match outcome {
                    Ok(embedding) => recent == Some(embedding),
                    Err(_) => recent is None,
                }
            }),
{
    if let Some(provider) = scorer.spec_embedding_provider() {
        if let Some(context) = scorer::recent_context(conversation, 3) {
            let outcome = choose|outcome: Result<Vec<Float32>, EmbeddingError>|
                {
                    &&& #[trigger] provider.may_embed(context, outcome)
                    &&& recent == scorer::spec_usable(outcome)
                };
            assert(provider.may_embed(context, outcome));
        }
    }
}

/// A message whose content is a string that is not blank is compared, wherever
/// it stands, if there is an embedding to compare with and the provider does
/// not fail on the content. Any other message is not, nor is any without a
/// provider or without an embedding to compare with.
pub proof fn law_messages_with_contents_are_compared(
    scorer: MessageScorer,
    conversation: Seq<JsonTree>,
    protected: Set<usize>,
    tool_units: Set<usize>,
    scores: Seq<MessageScore>,
    recent: Option<Vec<Float32>>,
    caches: Seq<Map<usize, Embedded>>,
    i: int,
)
    requires
        scorer.may_score_all(conversation, protected, tool_units, scores, recent, caches),
        0 <= i < conversation.len(),
    ensures
        scorer.spec_embedding_provider() is None || recent is None ==> scores[i].semantic is None,
        !(conversation[i].member("content"@) matches Some(JsonTree::Str(_)))
            ==> scores[i].semantic is None,
        conversation[i].member("content"@) matches Some(JsonTree::Str(content)) ==> {
            &&& (forall|c: int|
                0 <= c < content.len() ==> text::is_white_space(#[trigger] content[c]))
                ==> scores[i].semantic is None
            &&& (exists|c: int|
                0 <= c < content.len() && !text::is_white_space(#[trigger] content[c])) ==> (
            scorer.spec_embedding_provider() matches Some(provider) ==> (recent is Some && (
            forall|outcome: Result<Vec<Float32>, EmbeddingError>| #[trigger]
                provider.may_embed(content, outcome) ==> outcome is Ok) ==> (
            scores[i].semantic matches Some(pair) && pair.recent@ == recent->0@)))
        },
{
    lemma_message_is_scored(
        scorer,
        conversation,
        protected,
        tool_units,
        scores,
        recent,
        caches,
        i,
    );
    lemma_spoken(conversation[i]);
}

/// A message that is compared is compared by the embedding that is kept for its
/// index, if that was computed for the same content; nothing kept changes then.
/// Otherwise it is compared by one that the provider returns for its content,
/// and that one is kept with the content in place of what was kept there.
pub proof fn law_an_embedding_is_computed_once_for_a_content(
    scorer: MessageScorer,
    conversation: Seq<JsonTree>,
    protected: Set<usize>,
    tool_units: Set<usize>,
    scores: Seq<MessageScore>,
    recent: Option<Vec<Float32>>,
    caches: Seq<Map<usize, Embedded>>,
    i: int,
)
    requires
        scorer.may_score_all(conversation, protected, tool_units, scores, recent, caches),
        0 <= i < conversation.len() <= usize::MAX,
    ensures
        caches.len() == conversation.len() + 1,
        caches[0] == scorer.cache(),
        scores[i].semantic is None ==> caches[i + 1] == caches[i],
        scores[i].semantic matches Some(pair) ==> {
            let index = i as usize;
            &&& conversation[i].member("content"@) matches Some(JsonTree::Str(content))
            &&& if caches[i].contains_key(index) && caches[i][index].content == content {
                &&& pair.message@ == caches[i][index].embedding
                &&& caches[i + 1] == caches[i]
            } else {
                &&& caches[i + 1] == caches[i].insert(
                    index,
                    Embedded { content, embedding: pair.message@ },
                )
                &&& scorer.spec_embedding_provider() matches Some(provider)
                &&& exists|outcome: Result<Vec<Float32>, EmbeddingError>|
                    {
                        &&& #[trigger] provider.may_embed(content, outcome)
                        &&& outcome matches Ok(embedding)
                        &&& embedding@ == pair.message@
                    }
            }
        },
{
    lemma_message_is_scored(
        scorer,
        conversation,
        protected,
        tool_units,
        scores,
        recent,
        caches,
        i,
    );
    lemma_spoken(conversation[i]);
}

/// What has been learned of a tool's output counts for every message of a tool
/// with an output, as the provider answers: the retrieval rate and the number
/// of fields of a pattern whose confidence is not below three tenths, and the
/// number of its fields that are error indicators, and of those with a
/// confidence of seven tenths or more. It counts for no other message.
pub proof fn law_learned_patterns_count_for_tools(
    scorer: MessageScorer,
    conversation: Seq<JsonTree>,
    protected: Set<usize>,
    tool_units: Set<usize>,
    scores: Seq<MessageScore>,
    recent: Option<Vec<Float32>>,
    caches: Seq<Map<usize, Embedded>>,
    i: int,
)
    requires
        scorer.may_score_all(conversation, protected, tool_units, scores, recent, caches),
        0 <= i < conversation.len(),
    ensures
        ({
            let score = scores[i];
            let is_tool = conversation[i].member("role"@) == Some(JsonTree::Str("tool"@));
            match (scorer.spec_toin(), messages::tool_output(conversation[i])) {
                (Some(provider), Some(output)) if is_tool => {
                    &&& exists|answer: Option<ToinPattern>|
                        {
                            &&& #[trigger] provider.may_answer(output, answer)
                            &&& match answer {
                                Some(pattern) => if pattern.confidence.spec_below(
                                    Float32 { bits: 0x3E99_999A },
                                ) {
                                    score.toin is None
                                } else {
                                    &&& score.toin matches Some(found)
                                    &&& found.retrieval_rate == pattern.retrieval_rate
                                    &&& found.retrieved_fields
                                        == pattern.commonly_retrieved_fields@.len() as usize
                                },
                                None => score.toin is None,
                            }
                        }
                    &&& exists|answer: Option<ToinPattern>|
                        {
                            &&& #[trigger] provider.may_answer(output, answer)
                            &&& match answer {
                                Some(pattern) => if pattern.confidence.spec_below(
                                    Float32 { bits: 0x3E99_999A },
                                ) {
                                    score.error_fields == 0 && score.sure_error_fields == 0
                                } else {
                                    let fields = pattern.field_semantics@;
                                    &&& score.error_fields == Set::new(
                                        |name: Seq<char>|
                                            fields.contains_key(name)
                                                && fields[name].inferred_type@
                                                == "error_indicator"@,
                                    ).len()
                                    &&& score.sure_error_fields == Set::new(
                                        |name: Seq<char>|
                                            fields.contains_key(name)
                                                && fields[name].inferred_type@
                                                == "error_indicator"@
                                                && fields[name].confidence.spec_at_least(
                                                Float32 { bits: 0x3F33_3333 },
                                            ),
                                    ).len()
                                },
                                None => score.error_fields == 0 && score.sure_error_fields == 0,
                            }
                        }
                },
                _ => {
                    &&& score.toin is None
                    &&& score.error_fields == 0
                    &&& score.sure_error_fields == 0
                },
            }
        }),
{
    lemma_message_is_scored(
        scorer,
        conversation,
        protected,
        tool_units,
        scores,
        recent,
        caches,
        i,
    );
    let score = scores[i];
    if let Some(provider) = scorer.spec_toin() {
        if let Some(output) = messages::tool_output(conversation[i]) {
            if messages::has_role(conversation[i], "tool"@) {
                let answer = choose|answer: Option<ToinPattern>|
                    {
                        &&& #[trigger] provider.may_answer(output, answer)
                        &&& match answer {
                            Some(pattern) => score.toin == scorer::importance(pattern),
                            None => score.toin is None,
                        }
                    };
                assert(provider.may_answer(output, answer));
                let told = choose|answer: Option<ToinPattern>|
                    {
                        &&& #[trigger] provider.may_answer(output, answer)
                        &&& match answer {
                            Some(pattern) => if scorer::is_learned(pattern) {
                                &&& score.error_fields == traits::error_fields(
                                    pattern.field_semantics@,
                                ).len()
                                &&& score.sure_error_fields == traits::sure_error_fields(
                                    pattern.field_semantics@,
                                ).len()
                            } else {
                                score.error_fields == 0 && score.sure_error_fields == 0
                            },
                            None => score.error_fields == 0 && score.sure_error_fields == 0,
                        }
                    };
                assert(provider.may_answer(output, told));
                if let Some(pattern) = told {
                    lemma_error_fields(pattern.field_semantics@);
                }
            }
        }
    }
}

proof fn lemma_error_fields(fields: Map<Seq<char>, ToinFieldSemantic>)
    ensures
        traits::error_fields(fields) == Set::new(
            |name: Seq<char>|
                fields.contains_key(name) && fields[name].inferred_type@ == "error_indicator"@,
        ),
        traits::sure_error_fields(fields) == Set::new(
            |name: Seq<char>|
                fields.contains_key(name) && fields[name].inferred_type@ == "error_indicator"@
                    && fields[name].confidence.spec_at_least(Float32 { bits: 0x3F33_3333 }),
        ),
{
    assert(traits::error_fields(fields) =~= Set::new(
        |name: Seq<char>|
            fields.contains_key(name) && fields[name].inferred_type@ == "error_indicator"@,
    ));
    assert(traits::sure_error_fields(fields) =~= Set::new(
        |name: Seq<char>|
            fields.contains_key(name) && fields[name].inferred_type@ == "error_indicator"@
                && fields[name].confidence.spec_at_least(Float32 { bits: 0x3F33_3333 }),
    ));
}

/// The embedding of the last messages, as many as `count` says, is the one that
/// the provider returns for their contents. There is none without a provider,
/// without such contents, and where the provider fails.
pub proof fn law_the_recent_context_is_embedded(
    scorer: MessageScorer,
    conversation: Seq<JsonTree>,
    count: nat,
    recent: Option<Vec<Float32>>,
)
    requires
        scorer.may_embed_recent(conversation, count, recent),
    ensures
        match (scorer.spec_embedding_provider(), scorer::recent_context(conversation, count)) {
            (Some(provider), Some(context)) => exists|outcome: Result<Vec<Float32>, EmbeddingError>|
                {
                    &&& #[trigger] provider.may_embed(context, outcome)
                    &&& match outcome {
                        Ok(embedding) => recent == Some(embedding),
                        Err(_) => recent is None,
                    }
                },
            _ => recent is None,
        },
{
    if let Some(provider) = scorer.spec_embedding_provider() {
        if let Some(context) = scorer::recent_context(conversation, count) {
            let outcome = choose|outcome: Result<Vec<Float32>, EmbeddingError>|
                {
                    &&& #[trigger] provider.may_embed(context, outcome)
                    &&& recent == scorer::spec_usable(outcome)
                };
            assert(provider.may_embed(context, outcome));
        }
    }
}

/// The thresholds of confidence are the binary32 numbers nearest to three and to
/// seven tenths.
pub proof fn law_thresholds_are_three_and_seven_tenths()
    ensures
        ({
            let learned = scorer::LEARNED_CONFIDENCE as int;
            let high = traits::HIGH_CONFIDENCE as int;
            &&& learned / 0x80_0000 == 125
            &&& -10 <= 2 * (10 * (learned % 0x80_0000 + 0x80_0000) - 3 * 0x200_0000) <= 10
            &&& high / 0x80_0000 == 126
            &&& -10 <= 2 * (10 * (high % 0x80_0000 + 0x80_0000) - 7 * 0x100_0000) <= 10
        }),
{
}

} // verus!
