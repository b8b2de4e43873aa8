//! `MessageScorer` gathers what the scores of messages are computed from.

use crate::float::Float32;
use crate::json;
use crate::json::JsonTree;
use crate::scoring::messages;
use crate::scoring::messages::{
    compute_density_counts, estimate_tokens, is_from, parse_tool_content, read_text,
};
use crate::scoring::references;
use crate::scoring::references::compute_forward_references;
use crate::scoring::score::{EmbeddingPair, MessageScore, ToinImportance};
use crate::scoring::traits;
use crate::scoring::traits::{
    count_error_fields, EmbeddingError, EmbeddingProvider, ToinPattern, ToinProvider,
};
use crate::text;
use crate::text::{blank, join, same};
use std::collections::{HashMap, HashSet};
use vstd::prelude::*;

verus! {

broadcast use vstd::std_specs::hash::group_hash_axioms;

/// The bit pattern of the binary32 number written `0.3`: below this confidence
/// a pattern counts as not learned.
pub const LEARNED_CONFIDENCE: u32 = 0x3E99_999A;

/// How many messages at the end make up the recent context.
pub const RECENT_MESSAGES: usize = 3;

/// How many messages come after message `index` of `total`; nothing for the
/// only message.
pub open spec fn spec_position_from_end(index: nat, total: nat) -> Option<nat> {
    if total <= 1 {
        None
    } else {
        Some((total - 1 - index) as nat)
    }
}

/// How many messages come after message `index` of `total`; nothing for the
/// only message.
pub fn position_from_end(index: usize, total: usize) -> (r: Option<usize>)
    requires
        total <= 1 || index < total,
    ensures
        match r {
            Some(position) => spec_position_from_end(index as nat, total as nat) == Some(
                position as nat,
            ),
            None => spec_position_from_end(index as nat, total as nat) is None,
        },
{
    if total <= 1 {
        return None;
    }
    Some(total - 1 - index)
}

/// Whether a message may be dropped: unless it is protected and within a tool
/// unit.
pub fn is_drop_safe(in_tool_unit: bool, protected: bool) -> (r: bool)
    ensures
        r == !(in_tool_unit && protected),
{
    !in_tool_unit || !protected
}

/// The content of a message, if it is a string that is not blank.
pub open spec fn spoken(message: JsonTree) -> Option<Seq<char>> {
    match messages::text_member(message, "content"@) {
        Some(content) => if text::is_blank(content) {
            None
        } else {
            Some(content)
        },
        None => None,
    }
}

/// The content of a message, if it is a string that is not blank.
fn read_spoken<'a>(message: &'a serde_json::Value) -> (r: Option<&'a str>)
    ensures
        match r {
            Some(content) => spoken(json::json_tree(*message)) == Some(content@),
            None => spoken(json::json_tree(*message)) is None,
        },
{
    match read_text(message, "content") {
        Some(content) => {
            if blank(content) {
                None
            } else {
                Some(content)
            }
        },
        None => None,
    }
}

/// The contents of messages `from` to `to` that are strings and not blank.
pub open spec fn spoken_between(conversation: Seq<JsonTree>, from: nat, to: nat) -> Seq<Seq<char>>
    decreases to,
{
    if to <= from {
        Seq::empty()
    } else {
        let earlier = spoken_between(conversation, from, (to - 1) as nat);
        match spoken(conversation[to - 1]) {
            Some(content) => earlier.push(content),
            None => earlier,
        }
    }
}

/// The contents of the last `count` messages, with a space between each two;
/// nothing if none is a string that is not blank.
pub open spec fn recent_context(conversation: Seq<JsonTree>, count: nat) -> Option<Seq<char>> {
    let from = if conversation.len() >= count {
        (conversation.len() - count) as nat
    } else {
        0
    };
    let contents = spoken_between(conversation, from, conversation.len());
    if contents.len() == 0 {
        None
    } else {
        Some(text::joined(contents, " "@))
    }
}

/// The contents of the last `count` messages, with a space between each two;
/// nothing if none is a string that is not blank.
pub fn read_recent_context(messages: &[serde_json::Value], count: usize) -> (r: Option<String>)
    ensures
        match r {
            Some(context) => recent_context(references::trees(messages@), count as nat) == Some(
                context@,
            ),
            None => recent_context(references::trees(messages@), count as nat) is None,
        },
{
    let ghost conversation = references::trees(messages@);
    let from: usize = messages.len().saturating_sub(count);
    let mut contents: Vec<String> = Vec::new();
    let mut i: usize = from;
    assert(text::texts(contents@) == spoken_between(conversation, from as nat, i as nat));
    while i < messages.len()
        invariant
            from <= i <= messages@.len(),
            conversation == references::trees(messages@),
            text::texts(contents@) == spoken_between(conversation, from as nat, i as nat),
        decreases messages@.len() - i,
    {
        assert(conversation[i as int] == json::json_tree(messages@[i as int]));
        let ghost before = contents@;
        if let Some(content) = read_spoken(&messages[i]) {
            contents.push(content.to_string());
            assert(text::texts(contents@) == text::texts(before).push(content@));
        }
        i = i + 1;
    }
    assert(text::texts(contents@).len() == contents@.len());
    if contents.len() == 0 {
        None
    } else {
        Some(join(&contents, " "))
    }
}

/// The numbers of an embedding.
pub open spec fn vector_of(embedding: Option<Vec<Float32>>) -> Option<Seq<Float32>> {
    match embedding {
        Some(vector) => Some(vector@),
        None => None,
    }
}

/// The embedding, if it could be computed.
pub open spec fn spec_usable(outcome: Result<Vec<Float32>, EmbeddingError>) -> Option<
    Vec<Float32>,
> {
    match outcome {
        Ok(embedding) => Some(embedding),
        Err(_) => None,
    }
}

/// The embedding, if it could be computed.
fn usable(outcome: Result<Vec<Float32>, EmbeddingError>) -> (r: Option<Vec<Float32>>)
    ensures
        r == spec_usable(outcome),
{
    match outcome {
        Ok(embedding) => Some(embedding),
        Err(_) => None,
    }
}

/// Whether a pattern counts as learned: unless its confidence is low.
pub open spec fn is_learned(pattern: ToinPattern) -> bool {
    !pattern.confidence.spec_below(Float32 { bits: LEARNED_CONFIDENCE })
}

/// Whether a pattern counts as learned: unless its confidence is low.
pub fn has_been_learned(pattern: &ToinPattern) -> (r: bool)
    ensures
        r == is_learned(*pattern),
{
    !pattern.confidence.below(Float32 { bits: LEARNED_CONFIDENCE })
}

/// What counts of a pattern: nothing if its confidence is low.
pub open spec fn importance(pattern: ToinPattern) -> Option<ToinImportance> {
    if is_learned(pattern) {
        Some(
            ToinImportance {
                retrieval_rate: pattern.retrieval_rate,
                retrieved_fields: pattern.commonly_retrieved_fields@.len() as usize,
            },
        )
    } else {
        None
    }
}

/// What counts of a pattern: nothing if its confidence is low.
pub fn weigh_pattern(pattern: &ToinPattern) -> (r: Option<ToinImportance>)
    ensures
        r == importance(*pattern),
{
    if has_been_learned(pattern) {
        Some(
            ToinImportance {
                retrieval_rate: pattern.retrieval_rate,
                retrieved_fields: pattern.commonly_retrieved_fields.len(),
            },
        )
    } else {
        None
    }
}

/// A content with its embedding.
pub struct Embedded {
    pub content: Seq<char>,
    pub embedding: Seq<Float32>,
}

/// An embedding that is kept, with the content that it was computed for.
struct KeptEmbedding {
    content: String,
    embedding: Vec<Float32>,
}

impl View for KeptEmbedding {
    type V = Embedded;

    closed spec fn view(&self) -> Embedded {
        Embedded { content: self.content@, embedding: self.embedding@ }
    }
}

/// Gathers what the scores of messages are computed from.
///
/// The embedding of a message is computed once and kept by the message's index.
/// Where another content comes at that index, it is computed anew.
pub struct MessageScorer {
    toin: Option<Box<dyn ToinProvider>>,
    embedding_provider: Option<Box<dyn EmbeddingProvider>>,
    embedding_cache: HashMap<usize, KeptEmbedding>,
}

impl MessageScorer {
    /// The provider of learned patterns.
    pub closed spec fn spec_toin(&self) -> Option<Box<dyn ToinProvider>> {
        self.toin
    }

    /// The provider of embeddings.
    pub closed spec fn spec_embedding_provider(&self) -> Option<Box<dyn EmbeddingProvider>> {
        self.embedding_provider
    }

    /// The embeddings that are kept, with their contents, by the indices of
    /// their messages.
    pub closed spec fn cache(&self) -> Map<usize, Embedded> {
        self.embedding_cache@.map_values(|kept: KeptEmbedding| kept@)
    }

    /// A scorer with these providers. Without a provider, messages are neutral
    /// in the factors that need it.
    pub fn new(
        toin: Option<Box<dyn ToinProvider>>,
        embedding_provider: Option<Box<dyn EmbeddingProvider>>,
    ) -> (r: Self)
        ensures
            r.spec_toin() == toin,
            r.spec_embedding_provider() == embedding_provider,
            r.cache() == Map::<usize, Embedded>::empty(),
    {
        MessageScorer { toin, embedding_provider, embedding_cache: HashMap::new() }
    }

    /// A scorer without providers.
    pub fn with_defaults() -> (r: Self)
        ensures
            r.spec_toin() is None,
            r.spec_embedding_provider() is None,
            r.cache() == Map::<usize, Embedded>::empty(),
    {
        Self::new(None, None)
    }

    /// Whether `embedding` may be the provider's embedding of `content`.
    pub open spec fn may_stand_for(&self, content: Seq<char>, embedding: Seq<Float32>) -> bool {
        &&& self.spec_embedding_provider() matches Some(provider)
        &&& exists|outcome: Result<Vec<Float32>, EmbeddingError>|
            {
                &&& #[trigger] provider.may_embed(content, outcome)
                &&& outcome matches Ok(vector)
                &&& vector@ == embedding
            }
    }

    /// Whether each of these embeddings may be the provider's embedding of its
    /// content.
    pub open spec fn is_sound(&self, kept: Map<usize, Embedded>) -> bool {
        forall|index: usize| #[trigger]
            kept.contains_key(index) ==> self.may_stand_for(
                kept[index].content,
                kept[index].embedding,
            )
    }

    /// Whether the embedding of the recent context may be `recent`.
    pub open spec fn may_embed_recent(
        &self,
        conversation: Seq<JsonTree>,
        count: nat,
        recent: Option<Vec<Float32>>,
    ) -> bool {
        match self.spec_embedding_provider() {
            Some(provider) => match recent_context(conversation, count) {
                Some(context) => exists|outcome: Result<Vec<Float32>, EmbeddingError>|
                    {
                        &&& #[trigger] provider.may_embed(context, outcome)
                        &&& recent == spec_usable(outcome)
                    },
                None => recent is None,
            },
            None => recent is None,
        }
    }

    /// The embedding of the last `count` messages.
    pub fn compute_recent_context_embedding(
        &self,
        messages: &[serde_json::Value],
        count: usize,
    ) -> (r: Option<Vec<Float32>>)
        ensures
            self.may_embed_recent(references::trees(messages@), count as nat, r),
    {
        match &self.embedding_provider {
            Some(provider) => match read_recent_context(messages, count) {
                Some(context) => {
                    let outcome = provider.embed(context.as_str());
                    let ghost expected = recent_context(references::trees(messages@), count as nat);
                    assert(self.spec_embedding_provider()->0.may_embed(expected->0, outcome));
                    usable(outcome)
                },
                None => None,
            },
            None => None,
        }
    }

    /// Whether the embeddings that are compared for message `index` may be
    /// `pair`, where those that are kept are `before` and then `after`.
    pub open spec fn may_compare(
        &self,
        message: JsonTree,
        index: usize,
        recent: Option<Seq<Float32>>,
        pair: Option<EmbeddingPair>,
        before: Map<usize, Embedded>,
        after: Map<usize, Embedded>,
    ) -> bool {
        match (self.spec_embedding_provider(), recent, spoken(message)) {
            (Some(provider), Some(context), Some(content)) => {
                if before.contains_key(index) && before[index].content == content {
                    &&& pair matches Some(found)
                    &&& found.message@ == before[index].embedding
                    &&& found.recent@ == context
                    &&& after == before
                } else {
                    exists|outcome: Result<Vec<Float32>, EmbeddingError>|
                        {
                            &&& #[trigger] provider.may_embed(content, outcome)
                            &&& match outcome {
                                Ok(embedding) => {
                                    &&& pair matches Some(found)
                                    &&& found.message@ == embedding@
                                    &&& found.recent@ == context
                                    &&& after == before.insert(
                                        index,
                                        Embedded { content, embedding: embedding@ },
                                    )
                                },
                                Err(_) => pair is None && after == before,
                            }
                        }
                }
            },
            _ => pair is None && after == before,
        }
    }

    /// The embeddings that are compared for message `index`.
    pub fn compute_semantic(
        &mut self,
        message: &serde_json::Value,
        index: usize,
        recent: Option<&Vec<Float32>>,
    ) -> (r: Option<EmbeddingPair>)
        ensures
            old(self).may_compare(
                json::json_tree(*message),
                index,
                match recent {
                    Some(context) => Some(context@),
                    None => None,
                },
                r,
                old(self).cache(),
                final(self).cache(),
            ),
            final(self).spec_toin() == old(self).spec_toin(),
            final(self).spec_embedding_provider() == old(self).spec_embedding_provider(),
    {
        let ghost before = self.cache();
        let context: &Vec<Float32> = match recent {
            Some(context) => context,
            None => {
                return None;
            },
        };
        let content: &str = match read_spoken(message) {
            Some(content) => content,
            None => {
                return None;
            },
        };
        let provider: &Box<dyn EmbeddingProvider> = match &self.embedding_provider {
            Some(provider) => provider,
            None => {
                return None;
            },
        };
        if let Some(kept) = self.embedding_cache.get(&index) {
            assert(before[index] == kept@);
            if same(kept.content.as_str(), content) {
                return Some(
                    EmbeddingPair {
                        message: copy_embedding(&kept.embedding),
                        recent: copy_embedding(context),
                    },
                );
            }
        }
        let outcome = provider.embed(content);
        assert(provider.may_embed(content@, outcome));
        let embedding: Vec<Float32> = match outcome {
            Ok(embedding) => embedding,
            Err(_) => {
                return None;
            },
        };
        let kept = KeptEmbedding {
            content: content.to_string(),
            embedding: copy_embedding(&embedding),
        };
        self.embedding_cache.insert(index, kept);
        assert(self.cache() == before.insert(
            index,
            Embedded { content: content@, embedding: embedding@ },
        ));
        Some(EmbeddingPair { message: embedding, recent: copy_embedding(context) })
    }

    /// Whether what has been learned of the tool's output in `message` may count
    /// as `toin` says.
    pub open spec fn may_weigh(&self, message: JsonTree, toin: Option<ToinImportance>) -> bool {
        match (self.spec_toin(), messages::tool_output(message)) {
            (Some(provider), Some(output)) => if messages::has_role(message, "tool"@) {
                exists|answer: Option<ToinPattern>|
                    {
                        &&& #[trigger] provider.may_answer(output, answer)
                        &&& match answer {
                            Some(pattern) => toin == importance(pattern),
                            None => toin is None,
                        }
                    }
            } else {
                toin is None
            },
            _ => toin is None,
        }
    }

    /// Asks what has been learned of the tool's output in `message`.
    fn ask_for_pattern(&self, message: &serde_json::Value) -> (r: Option<ToinPattern>)
        ensures
            self.may_find(json::json_tree(*message), r),
    {
        match &self.toin {
            Some(provider) => {
                if !is_from(message, "tool") {
                    return None;
                }
                match parse_tool_content(message) {
                    Some(output) => provider.pattern_for_tool_content(&output),
                    None => None,
                }
            },
            None => None,
        }
    }

    /// Whether a request for what has been learned of the tool's output in
    /// `message` may be answered `answer`.
    spec fn may_find(&self, message: JsonTree, answer: Option<ToinPattern>) -> bool {
        match (self.spec_toin(), messages::tool_output(message)) {
            (Some(provider), Some(output)) => if messages::has_role(message, "tool"@) {
                provider.may_answer(output, answer)
            } else {
                answer is None
            },
            _ => answer is None,
        }
    }

    /// What has been learned of the tool's output in `message`.
    pub fn compute_toin(&self, message: &serde_json::Value) -> (r: Option<ToinImportance>)
        ensures
            self.may_weigh(json::json_tree(*message), r),
    {
        let answer = self.ask_for_pattern(message);
        assert(self.may_find(json::json_tree(*message), answer));
        match answer {
            Some(pattern) => weigh_pattern(&pattern),
            None => None,
        }
    }

    /// Whether `all` fields of the tool's output in `message` may indicate
    /// errors, and `sure` of them with high confidence. A pattern of low
    /// confidence indicates none.
    pub open spec fn may_count_errors(&self, message: JsonTree, all: nat, sure: nat) -> bool {
        match (self.spec_toin(), messages::tool_output(message)) {
            (Some(provider), Some(output)) => if messages::has_role(message, "tool"@) {
                exists|answer: Option<ToinPattern>|
                    {
                        &&& #[trigger] provider.may_answer(output, answer)
                        &&& match answer {
                            Some(pattern) => if is_learned(pattern) {
                                &&& all == traits::error_fields(pattern.field_semantics@).len()
                                &&& sure == traits::sure_error_fields(
                                    pattern.field_semantics@,
                                ).len()
                            } else {
                                all == 0 && sure == 0
                            },
                            None => all == 0 && sure == 0,
                        }
                    }
            } else {
                all == 0 && sure == 0
            },
            _ => all == 0 && sure == 0,
        }
    }

    /// How many fields of the tool's output in `message` indicate errors, and
    /// how many of them with high confidence. A pattern of low confidence
    /// indicates none.
    pub fn compute_errors(&self, message: &serde_json::Value) -> (r: (usize, usize))
        ensures
            self.may_count_errors(json::json_tree(*message), r.0 as nat, r.1 as nat),
    {
        let answer = self.ask_for_pattern(message);
        assert(self.may_find(json::json_tree(*message), answer));
        match answer {
            Some(pattern) => {
                if has_been_learned(&pattern) {
                    count_error_fields(&pattern)
                } else {
                    (0, 0)
                }
            },
            None => (0, 0),
        }
    }

    /// Whether the score of message `index` of `total` may be `score`, where the
    /// embeddings that are kept are `before` and then `after`.
    pub open spec fn may_score(
        &self,
        message: JsonTree,
        index: usize,
        total: nat,
        protected: bool,
        in_tool_unit: bool,
        references: nat,
        recent: Option<Seq<Float32>>,
        score: MessageScore,
        before: Map<usize, Embedded>,
        after: Map<usize, Embedded>,
    ) -> bool {
        &&& score.message_index == index
        &&& match score.position_from_end {
            Some(position) => spec_position_from_end(index as nat, total) == Some(position as nat),
            None => spec_position_from_end(index as nat, total) is None,
        }
        &&& self.may_compare(message, index, recent, score.semantic, before, after)
        &&& self.may_weigh(message, score.toin)
        &&& self.may_count_errors(
            message,
            score.error_fields as nat,
            score.sure_error_fields as nat,
        )
        &&& score.reference_count == references
        &&& match score.density {
            Some(counts) => messages::density_counts(message) == Some(
                (counts.0 as nat, counts.1 as nat),
            ),
            None => messages::density_counts(message) is None,
        }
        &&& score.tokens == messages::token_estimate(message)
        &&& score.is_protected == protected
        &&& score.drop_safe == !(in_tool_unit && protected)
    }

    /// The score of message `index` of `total`.
    pub fn score_message(
        &mut self,
        message: &serde_json::Value,
        index: usize,
        total: usize,
        protected: bool,
        in_tool_unit: bool,
        forward_refs: &HashMap<usize, usize>,
        recent: Option<&Vec<Float32>>,
    ) -> (r: MessageScore)
        requires
            total <= 1 || index < total,
        ensures
            old(self).may_score(
                json::json_tree(*message),
                index,
                total as nat,
                protected,
                in_tool_unit,
                if forward_refs@.contains_key(index) {
                    forward_refs@[index] as nat
                } else {
                    0
                },
                match recent {
                    Some(context) => Some(context@),
                    None => None,
                },
                r,
                old(self).cache(),
                final(self).cache(),
            ),
            final(self).spec_toin() == old(self).spec_toin(),
            final(self).spec_embedding_provider() == old(self).spec_embedding_provider(),
    {
        let semantic = self.compute_semantic(message, index, recent);
        let toin = self.compute_toin(message);
        let (error_fields, sure_error_fields) = self.compute_errors(message);
        let reference_count: usize = match forward_refs.get(&index) {
            Some(count) => *count,
            None => 0,
        };
        MessageScore {
            message_index: index,
            position_from_end: position_from_end(index, total),
            semantic,
            toin,
            error_fields,
            sure_error_fields,
            reference_count,
            density: compute_density_counts(message),
            tokens: estimate_tokens(message),
            is_protected: protected,
            drop_safe: is_drop_safe(in_tool_unit, protected),
        }
    }

    /// Whether the scores of the messages of `conversation` may be `scores`.
    ///
    /// The messages are scored one after the other, against one embedding of
    /// the recent context; `caches` are the embeddings that are kept before
    /// each message and after the last.
    pub open spec fn may_score_all(
        &self,
        conversation: Seq<JsonTree>,
        protected: Set<usize>,
        tool_units: Set<usize>,
        scores: Seq<MessageScore>,
        recent: Option<Vec<Float32>>,
        caches: Seq<Map<usize, Embedded>>,
    ) -> bool {
        &&& self.may_embed_recent(conversation, RECENT_MESSAGES as nat, recent)
        &&& scores.len() == conversation.len()
        &&& caches.len() == conversation.len() + 1
        &&& caches[0] == self.cache()
        &&& forall|i: int|
            0 <= i < scores.len() ==> self.may_score(
                conversation[i],
                i as usize,
                conversation.len(),
                protected.contains(i as usize),
                tool_units.contains(i as usize),
                references::reference_count(conversation, conversation.len(), i as nat),
                vector_of(recent),
                #[trigger] scores[i],
                caches[i],
                caches[i + 1],
            )
    }

    /// The score of every message.
    ///
    /// The messages of `protected_indices` are never to be dropped; those of
    /// `tool_unit_indices` belong to a call and its answer.
    pub fn score_messages(
        &mut self,
        messages: &[serde_json::Value],
        protected_indices: &HashSet<usize>,
        tool_unit_indices: &HashSet<usize>,
    ) -> (r: Vec<MessageScore>)
        ensures
            exists|recent: Option<Vec<Float32>>, caches: Seq<Map<usize, Embedded>>|
                {
                    &&& #[trigger] old(self).may_score_all(
                        references::trees(messages@),
                        protected_indices@,
                        tool_unit_indices@,
                        r@,
                        recent,
                        caches,
                    )
                    &&& caches.last() == final(self).cache()
                },
            final(self).spec_toin() == old(self).spec_toin(),
            final(self).spec_embedding_provider() == old(self).spec_embedding_provider(),
    {
        let ghost conversation = references::trees(messages@);
        let forward_refs: HashMap<usize, usize> = compute_forward_references(messages);
        let recent: Option<Vec<Float32>> = self.compute_recent_context_embedding(
            messages,
            RECENT_MESSAGES,
        );
        let ghost context: Option<Seq<Float32>> = vector_of(recent);
        let ghost mut caches: Seq<Map<usize, Embedded>> = seq![self.cache()];
        let mut scores: Vec<MessageScore> = Vec::new();
        let mut i: usize = 0;
        while i < messages.len()
            invariant
                i <= messages@.len(),
                conversation == references::trees(messages@),
                references::counts_references(forward_refs@, conversation, conversation.len()),
                context == vector_of(recent),
                self.spec_toin() == old(self).spec_toin(),
                self.spec_embedding_provider() == old(self).spec_embedding_provider(),
                scores@.len() == i,
                caches.len() == i + 1,
                caches[0] == old(self).cache(),
                caches.last() == self.cache(),
                forall|j: int|
                    0 <= j < i ==> old(self).may_score(
                        conversation[j],
                        j as usize,
                        conversation.len(),
                        protected_indices@.contains(j as usize),
                        tool_unit_indices@.contains(j as usize),
                        references::reference_count(conversation, conversation.len(), j as nat),
                        context,
                        #[trigger] scores@[j],
                        caches[j],
                        caches[j + 1],
                    ),
            decreases messages@.len() - i,
        {
            let ghost caches_before = caches;
            let ghost scores_before = scores@;
            assert(conversation[i as int] == json::json_tree(messages@[i as int]));
            assert(references::reference_count(conversation, conversation.len(), i as nat) == if
                forward_refs@.contains_key(i) {
                forward_refs@[i] as nat
            } else {
                0
            });
            let score = self.score_message(
                &messages[i],
                i,
                messages.len(),
                protected_indices.contains(&i),
                tool_unit_indices.contains(&i),
                &forward_refs,
                recent.as_ref(),
            );
            scores.push(score);
            proof {
                caches = caches.push(self.cache());
                assert forall|j: int| 0 <= j < i + 1 implies old(self).may_score(
                    conversation[j],
                    j as usize,
                    conversation.len(),
                    protected_indices@.contains(j as usize),
                    tool_unit_indices@.contains(j as usize),
                    references::reference_count(conversation, conversation.len(), j as nat),
                    context,
                    #[trigger] scores@[j],
                    caches[j],
                    caches[j + 1],
                ) by {
                    if j < i {
                        assert(scores@[j] == scores_before[j]);
                        assert(caches[j] == caches_before[j]);
                        assert(caches[j + 1] == caches_before[j + 1]);
                    }
                }
            }
            i = i + 1;
        }
        proof {
            assert(old(self).may_score_all(
                conversation,
                protected_indices@,
                tool_unit_indices@,
                scores@,
                recent,
                caches,
            ));
        }
        scores
    }
}

/// A copy of an embedding.
fn copy_embedding(embedding: &Vec<Float32>) -> (r: Vec<Float32>)
    ensures
        r@ == embedding@,
{
    let r = embedding.clone();
    assert(r@ =~= embedding@);
    r
}

/// What a run over the messages says of message `i`.
pub(crate) proof fn lemma_message_is_scored(
    scorer: MessageScorer,
    conversation: Seq<JsonTree>,
    protected: Set<usize>,
    tool_units: Set<usize>,
    scores: Seq<MessageScore>,
    recent: Option<Vec<Float32>>,
    caches: Seq<Map<usize, Embedded>>,
    i: int,
)
    requires
        scorer.may_score_all(conversation, protected, tool_units, scores, recent, caches),
        0 <= i < conversation.len(),
    ensures
        scorer.may_score(
            conversation[i],
            i as usize,
            conversation.len(),
            protected.contains(i as usize),
            tool_units.contains(i as usize),
            references::reference_count(conversation, conversation.len(), i as nat),
            vector_of(recent),
            scores[i],
            caches[i],
            caches[i + 1],
        ),
{
}

/// Two runs over the same messages give the same place, the same number of
/// references, the same word counts and token estimate, and the same marks,
/// whatever the providers say.
pub proof fn law_factors_without_providers_depend_on_the_messages_alone(
    first: MessageScorer,
    second: MessageScorer,
    conversation: Seq<JsonTree>,
    protected: Set<usize>,
    tool_units: Set<usize>,
    first_scores: Seq<MessageScore>,
    first_recent: Option<Vec<Float32>>,
    first_caches: Seq<Map<usize, Embedded>>,
    second_scores: Seq<MessageScore>,
    second_recent: Option<Vec<Float32>>,
    second_caches: Seq<Map<usize, Embedded>>,
    i: int,
)
    requires
        first.may_score_all(
            conversation,
            protected,
            tool_units,
            first_scores,
            first_recent,
            first_caches,
        ),
        second.may_score_all(
            conversation,
            protected,
            tool_units,
            second_scores,
            second_recent,
            second_caches,
        ),
        0 <= i < conversation.len(),
    ensures
        first_scores[i].message_index == second_scores[i].message_index,
        first_scores[i].position_from_end == second_scores[i].position_from_end,
        first_scores[i].reference_count == second_scores[i].reference_count,
        first_scores[i].density == second_scores[i].density,
        first_scores[i].tokens == second_scores[i].tokens,
        first_scores[i].is_protected == second_scores[i].is_protected,
        first_scores[i].drop_safe == second_scores[i].drop_safe,
{
    let a = first_scores[i];
    let b = second_scores[i];
    lemma_message_is_scored(
        first,
        conversation,
        protected,
        tool_units,
        first_scores,
        first_recent,
        first_caches,
        i,
    );
    lemma_message_is_scored(
        second,
        conversation,
        protected,
        tool_units,
        second_scores,
        second_recent,
        second_caches,
        i,
    );
    match (a.density, b.density) {
        (Some(x), Some(y)) => {
            assert(x.0 as nat == y.0 as nat && x.1 as nat == y.1 as nat);
        },
        _ => {},
    }
}

/// Without a provider of embeddings no embeddings are compared and none are
/// kept; without a provider of patterns nothing learned counts and no errors
/// are counted.
pub proof fn law_without_providers_messages_are_neutral(
    scorer: MessageScorer,
    conversation: Seq<JsonTree>,
    protected: Set<usize>,
    tool_units: Set<usize>,
    scores: Seq<MessageScore>,
    recent: Option<Vec<Float32>>,
    caches: Seq<Map<usize, Embedded>>,
    i: int,
)
    requires
        scorer.may_score_all(conversation, protected, tool_units, scores, recent, caches),
        0 <= i < conversation.len(),
    ensures
        scorer.spec_embedding_provider() is None ==> scores[i].semantic is None && caches[i + 1]
            == caches[i],
        scorer.spec_toin() is None ==> scores[i].toin is None && scores[i].error_fields == 0
            && scores[i].sure_error_fields == 0,
{
    lemma_message_is_scored(
        scorer,
        conversation,
        protected,
        tool_units,
        scores,
        recent,
        caches,
        i,
    );
}

/// An embedding that is kept stays as it is, unless another content comes at
/// its index.
pub proof fn law_kept_embeddings_stay(
    scorer: MessageScorer,
    conversation: Seq<JsonTree>,
    protected: Set<usize>,
    tool_units: Set<usize>,
    scores: Seq<MessageScore>,
    recent: Option<Vec<Float32>>,
    caches: Seq<Map<usize, Embedded>>,
    index: usize,
    k: int,
)
    requires
        scorer.may_score_all(conversation, protected, tool_units, scores, recent, caches),
        conversation.len() <= usize::MAX,
        scorer.cache().contains_key(index),
        index < conversation.len() ==> (spoken(conversation[index as int]) matches Some(content)
            ==> content == scorer.cache()[index].content),
        0 <= k <= conversation.len(),
    ensures
        caches[k].contains_key(index),
        caches[k][index] == scorer.cache()[index],
    decreases k,
{
    if k > 0 {
        law_kept_embeddings_stay(
            scorer,
            conversation,
            protected,
            tool_units,
            scores,
            recent,
            caches,
            index,
            k - 1,
        );
        lemma_message_is_scored(
            scorer,
            conversation,
            protected,
            tool_units,
            scores,
            recent,
            caches,
            k - 1,
        );
    }
}

proof fn lemma_embeddings_stay_sound(
    scorer: MessageScorer,
    conversation: Seq<JsonTree>,
    protected: Set<usize>,
    tool_units: Set<usize>,
    scores: Seq<MessageScore>,
    recent: Option<Vec<Float32>>,
    caches: Seq<Map<usize, Embedded>>,
    k: int,
)
    requires
        scorer.may_score_all(conversation, protected, tool_units, scores, recent, caches),
        scorer.is_sound(scorer.cache()),
        0 <= k <= conversation.len(),
    ensures
        scorer.is_sound(caches[k]),
    decreases k,
{
    if k > 0 {
        let i = k - 1;
        lemma_embeddings_stay_sound(
            scorer,
            conversation,
            protected,
            tool_units,
            scores,
            recent,
            caches,
            i,
        );
        lemma_message_is_scored(
            scorer,
            conversation,
            protected,
            tool_units,
            scores,
            recent,
            caches,
            i,
        );
    }
}

/// Where every embedding that is kept at the start is one of its content, the
/// same holds at the end, and every message is compared by an embedding of its
/// own content. A new scorer keeps none.
pub proof fn law_messages_are_compared_by_their_own_content(
    scorer: MessageScorer,
    conversation: Seq<JsonTree>,
    protected: Set<usize>,
    tool_units: Set<usize>,
    scores: Seq<MessageScore>,
    recent: Option<Vec<Float32>>,
    caches: Seq<Map<usize, Embedded>>,
    i: int,
)
    requires
        scorer.may_score_all(conversation, protected, tool_units, scores, recent, caches),
        scorer.is_sound(scorer.cache()),
        0 <= i < conversation.len(),
    ensures
        scorer.is_sound(caches.last()),
        scores[i].semantic matches Some(pair) ==> (spoken(conversation[i]) matches Some(content)
            && scorer.may_stand_for(content, pair.message@)),
{
    lemma_embeddings_stay_sound(
        scorer,
        conversation,
        protected,
        tool_units,
        scores,
        recent,
        caches,
        conversation.len() as int,
    );
    lemma_embeddings_stay_sound(
        scorer,
        conversation,
        protected,
        tool_units,
        scores,
        recent,
        caches,
        i,
    );
    lemma_message_is_scored(
        scorer,
        conversation,
        protected,
        tool_units,
        scores,
        recent,
        caches,
        i,
    );
}

/// A message may be dropped unless it is both protected and within a tool unit.
pub proof fn law_only_protected_messages_of_tool_units_must_stay(
    scorer: MessageScorer,
    conversation: Seq<JsonTree>,
    protected: Set<usize>,
    tool_units: Set<usize>,
    scores: Seq<MessageScore>,
    recent: Option<Vec<Float32>>,
    caches: Seq<Map<usize, Embedded>>,
    i: int,
)
    requires
        scorer.may_score_all(conversation, protected, tool_units, scores, recent, caches),
        0 <= i < conversation.len(),
    ensures
        !scores[i].drop_safe <==> protected.contains(i as usize) && tool_units.contains(i as usize),
        scores[i].is_protected <==> protected.contains(i as usize),
{
    lemma_message_is_scored(
        scorer,
        conversation,
        protected,
        tool_units,
        scores,
        recent,
        caches,
        i,
    );
}

} // verus!
