//! The providers that a scorer consults, and what they return.

use crate::float::Float32;
use crate::json;
use crate::text::same;
use vstd::prelude::*;
use vstd::string::StringExecFns;

verus! {

/// The bit pattern of the binary32 number written `0.7`: from this confidence
/// on, a field is taken for an error indicator with high confidence.
pub const HIGH_CONFIDENCE: u32 = 0x3F33_3333;

/// Why an embedding could not be computed.
#[derive(Debug, Clone)]
pub struct EmbeddingError(pub String);

impl EmbeddingError {
    /// The sentence that describes the error.
    pub fn to_string(&self) -> (r: String)
        ensures
            r@ == "embedding error: "@ + self.0@,
    {
        let mut out = String::new();
        out.append("embedding error: ");
        out.append(self.0.as_str());
        out
    }
}

/// Turns text into vectors, all of one dimension.
pub trait EmbeddingProvider: Send + Sync {
    /// Whether `embed` may return `outcome` for `text`. An implementation that
    /// does not say may return any.
    open spec fn may_embed(
        &self,
        text: Seq<char>,
        outcome: Result<Vec<Float32>, EmbeddingError>,
    ) -> bool {
        true
    }

    /// The vector of a text.
    fn embed(&self, text: &str) -> (r: Result<Vec<Float32>, EmbeddingError>)
        ensures
            self.may_embed(text@, r),
    ;
}

/// What a field of a tool's output means, and how sure that is.
#[derive(Debug, Clone)]
pub struct ToinFieldSemantic {
    /// The kind of field, such as `error_indicator` or `identifier`.
    pub inferred_type: String,
    /// Between zero and one.
    pub confidence: Float32,
}

impl ToinFieldSemantic {
    /// Whether the field indicates an error.
    pub open spec fn indicates_error(self) -> bool {
        self.inferred_type@ == "error_indicator"@
    }

    /// Whether the field indicates an error with high confidence.
    pub open spec fn surely_indicates_error(self) -> bool {
        self.indicates_error() && self.confidence.spec_at_least(Float32 { bits: HIGH_CONFIDENCE })
    }
}

/// Whether no name occurs twice.
spec fn distinct(entries: Seq<(String, ToinFieldSemantic)>) -> bool {
    forall|i: int, j: int|
        0 <= i < entries.len() && 0 <= j < entries.len() && (#[trigger] entries[i]).0@ == (
        #[trigger] entries[j]).0@ ==> i == j
}

/// What the fields of a tool's output mean, by their hashed names.
#[derive(Debug)]
pub struct FieldSemantics {
    entries: Vec<(String, ToinFieldSemantic)>,
}

impl View for FieldSemantics {
    type V = Map<Seq<char>, ToinFieldSemantic>;

    closed spec fn view(&self) -> Map<Seq<char>, ToinFieldSemantic> {
        as_map(self.entries@)
    }
}

/// The entries as a map.
spec fn as_map(entries: Seq<(String, ToinFieldSemantic)>) -> Map<Seq<char>, ToinFieldSemantic>
    decreases entries.len(),
{
    if entries.len() == 0 {
        Map::empty()
    } else {
        as_map(entries.drop_last()).insert(entries.last().0@, entries.last().1)
    }
}

proof fn lemma_as_map(entries: Seq<(String, ToinFieldSemantic)>)
    requires
        distinct(entries),
    ensures
        as_map(entries).dom().finite(),
        as_map(entries).dom().len() == entries.len(),
        forall|name: Seq<char>| #[trigger]
            as_map(entries).contains_key(name) ==> exists|i: int|
                0 <= i < entries.len() && (#[trigger] entries[i]).0@ == name,
        forall|i: int|
            0 <= i < entries.len() ==> as_map(entries).contains_key((#[trigger] entries[i]).0@)
                && as_map(entries)[entries[i].0@] == entries[i].1,
    decreases entries.len(),
{
    if entries.len() > 0 {
        let earlier = entries.drop_last();
        assert(distinct(earlier)) by {
            assert forall|i: int, j: int|
                0 <= i < earlier.len() && 0 <= j < earlier.len() && (#[trigger] earlier[i]).0@ == (
                #[trigger] earlier[j]).0@ implies i == j by {
                assert(entries[i].0@ == entries[j].0@);
            }
        }
        lemma_as_map(earlier);
        let last = entries.len() - 1;
        assert(!as_map(earlier).contains_key(entries[last].0@)) by {
            if as_map(earlier).contains_key(entries[last].0@) {
                let i = choose|i: int|
                    0 <= i < earlier.len() && (#[trigger] earlier[i]).0@ == entries[last].0@;
                assert(entries[i].0@ == entries[last].0@);
            }
        }
        assert(as_map(entries).dom() =~= as_map(earlier).dom().insert(entries[last].0@));
        assert forall|i: int| 0 <= i < entries.len() implies as_map(entries).contains_key(
            (#[trigger] entries[i]).0@,
        ) && as_map(entries)[entries[i].0@] == entries[i].1 by {
            if i < last {
                assert(earlier[i] == entries[i]);
                assert(as_map(earlier).contains_key(earlier[i].0@));
            }
        }
        assert forall|name: Seq<char>| #[trigger] as_map(entries).contains_key(name) implies exists|
            i: int,
        |
            0 <= i < entries.len() && (#[trigger] entries[i]).0@ == name by {
            if name == entries[last].0@ {
            } else {
                assert(as_map(earlier).contains_key(name));
                let i = choose|i: int| 0 <= i < earlier.len() && (#[trigger] earlier[i]).0@ == name;
                assert(entries[i].0@ == name);
            }
        }
    }
}

impl FieldSemantics {
    #[verifier::type_invariant]
    spec fn well_formed(&self) -> bool {
        distinct(self.entries@)
    }

    /// No fields.
    pub fn new() -> (r: Self)
        ensures
            r@ == Map::<Seq<char>, ToinFieldSemantic>::empty(),
    {
        FieldSemantics { entries: Vec::new() }
    }

    /// Sets what the field `name` means.
    pub fn insert(&mut self, name: String, semantic: ToinFieldSemantic)
        ensures
            final(self)@ == old(self)@.insert(name@, semantic),
    {
        proof {
            use_type_invariant(&*self);
        }
        let ghost before = self.entries@;
        let mut entries: Vec<(String, ToinFieldSemantic)> = Vec::new();
        std::mem::swap(&mut entries, &mut self.entries);
        let mut i: usize = 0;
        while i < entries.len()
            invariant
                i <= entries@.len(),
                entries@ == before,
                distinct(before),
                forall|j: int| 0 <= j < i ==> (#[trigger] before[j]).0@ != name@,
            ensures
                i <= entries@.len(),
                i < entries@.len() ==> before[i as int].0@ == name@,
                forall|j: int| 0 <= j < i ==> (#[trigger] before[j]).0@ != name@,
            decreases entries@.len() - i,
        {
            if entries[i].0 == name {
                break;
            }
            i = i + 1;
        }
        if i < entries.len() {
            entries.set(i, (name, semantic));
        } else {
            entries.push((name, semantic));
        }
        proof {
            assert(distinct(entries@)) by {
                assert forall|a: int, b: int|
                    0 <= a < entries@.len() && 0 <= b < entries@.len() && (#[trigger] entries@[a]).0@
                        == (#[trigger] entries@[b]).0@ implies a == b by {
                    if a < before.len() && b < before.len() {
                        assert(before[a].0@ == before[b].0@);
                    }
                }
            }
            lemma_as_map(before);
            lemma_as_map(entries@);
            let expected = as_map(before).insert(name@, semantic);
            assert forall|key: Seq<char>|
                as_map(entries@).contains_key(key) == #[trigger] expected.contains_key(key) && (
                expected.contains_key(key) ==> as_map(entries@)[key] == expected[key]) by {
                if as_map(entries@).contains_key(key) {
                    let k = choose|k: int|
                        0 <= k < entries@.len() && (#[trigger] entries@[k]).0@ == key;
                    if k < before.len() {
                        assert(before[k].0@ == key);
                    }
                }
                if as_map(before).contains_key(key) {
                    let k = choose|k: int| 0 <= k < before.len() && (#[trigger] before[k]).0@ == key;
                    assert(entries@[k].0@ == key);
                }
                if key == name@ {
                    assert(entries@[i as int].0@ == key);
                }
            }
            assert(as_map(entries@) =~= expected);
        }
        self.entries = entries;
    }

    /// The fields with what they mean, each once, in no particular order.
    pub fn into_entries(self) -> (r: Vec<(String, ToinFieldSemantic)>)
        ensures
            r@.len() == self@.dom().len(),
            forall|i: int|
                0 <= i < r@.len() ==> self@.contains_key((#[trigger] r@[i]).0@)
                    && self@[r@[i].0@] == r@[i].1,
            forall|name: Seq<char>| #[trigger]
                self@.contains_key(name) ==> exists|i: int|
                    0 <= i < r@.len() && (#[trigger] r@[i]).0@ == name,
    {
        proof {
            use_type_invariant(&self);
            lemma_as_map(self.entries@);
        }
        self.entries
    }
}

/// The names of the fields that indicate an error.
pub open spec fn error_fields(fields: Map<Seq<char>, ToinFieldSemantic>) -> Set<Seq<char>> {
    fields.dom().filter(|name: Seq<char>| fields[name].indicates_error())
}

/// The names of the fields that indicate an error with high confidence.
pub open spec fn sure_error_fields(fields: Map<Seq<char>, ToinFieldSemantic>) -> Set<Seq<char>> {
    fields.dom().filter(|name: Seq<char>| fields[name].surely_indicates_error())
}

/// What has been learned of a tool's output.
#[derive(Debug)]
pub struct ToinPattern {
    /// How sure the pattern is, between zero and one.
    pub confidence: Float32,
    /// How often the output was asked for again, between zero and one.
    pub retrieval_rate: Float32,
    /// The hashed names of the fields that are often asked for again.
    pub commonly_retrieved_fields: Vec<String>,
    /// What the fields mean.
    pub field_semantics: FieldSemantics,
}

/// Looks up what has been learned of a tool's output.
pub trait ToinProvider: Send + Sync {
    /// Whether `pattern_for_tool_content` may return `answer` for a document.
    /// An implementation that does not say may return any.
    open spec fn may_answer(&self, content: json::JsonTree, answer: Option<ToinPattern>) -> bool {
        true
    }

    /// What has been learned of outputs like `content`, if anything has.
    fn pattern_for_tool_content(&self, content: &serde_json::Value) -> (r: Option<ToinPattern>)
        ensures
            self.may_answer(json::json_tree(*content), r),
    ;
}

/// How many fields indicate an error, and how many of them with high
/// confidence.
pub fn count_error_fields(pattern: &ToinPattern) -> (r: (usize, usize))
    ensures
        r.0 == error_fields(pattern.field_semantics@).len(),
        r.1 == sure_error_fields(pattern.field_semantics@).len(),
{
    proof {
        use_type_invariant(&pattern.field_semantics);
    }
    let entries: &Vec<(String, ToinFieldSemantic)> = &pattern.field_semantics.entries;
    let mut total: usize = 0;
    let mut high: usize = 0;
    let mut i: usize = 0;
    proof {
        let none = as_map(entries@.take(0));
        assert(error_fields(none) =~= Set::empty());
        assert(sure_error_fields(none) =~= Set::empty());
    }
    while i < entries.len()
        invariant
            i <= entries@.len(),
            distinct(entries@),
            total <= i,
            high <= i,
            error_fields(as_map(entries@.take(i as int))).finite(),
            sure_error_fields(as_map(entries@.take(i as int))).finite(),
            total == error_fields(as_map(entries@.take(i as int))).len(),
            high == sure_error_fields(as_map(entries@.take(i as int))).len(),
        decreases entries@.len() - i,
    {
        proof {
            lemma_one_more_field(entries@, i as int);
        }
        if same(entries[i].1.inferred_type.as_str(), "error_indicator") {
            total = total + 1;
            if entries[i].1.confidence.at_least(Float32 { bits: HIGH_CONFIDENCE }) {
                high = high + 1;
            }
        }
        i = i + 1;
    }
    proof {
        assert(entries@.take(i as int) == entries@);
    }
    (total, high)
}

proof fn lemma_one_more_field(entries: Seq<(String, ToinFieldSemantic)>, i: int)
    requires
        distinct(entries),
        0 <= i < entries.len(),
    ensures
        ({
            let before = as_map(entries.take(i));
            let after = as_map(entries.take(i + 1));
            let (name, semantic) = (entries[i].0@, entries[i].1);
            &&& !before.contains_key(name)
            &&& error_fields(after) == if semantic.indicates_error() {
                error_fields(before).insert(name)
            } else {
                error_fields(before)
            }
            &&& sure_error_fields(after) == if semantic.surely_indicates_error() {
                sure_error_fields(before).insert(name)
            } else {
                sure_error_fields(before)
            }
        }),
{
    let earlier = entries.take(i);
    let before = as_map(earlier);
    let after = as_map(entries.take(i + 1));
    let (name, semantic) = (entries[i].0@, entries[i].1);
    assert(distinct(earlier)) by {
        assert forall|a: int, b: int|
            0 <= a < earlier.len() && 0 <= b < earlier.len() && (#[trigger] earlier[a]).0@ == (
            #[trigger] earlier[b]).0@ implies a == b by {
            assert(entries[a].0@ == entries[b].0@);
        }
    }
    lemma_as_map(earlier);
    assert(entries.take(i + 1).drop_last() == earlier);
    assert(after == before.insert(name, semantic));
    assert(!before.contains_key(name)) by {
        if before.contains_key(name) {
            let k = choose|k: int| 0 <= k < earlier.len() && (#[trigger] earlier[k]).0@ == name;
            assert(entries[k].0@ == entries[i].0@);
        }
    }
    assert(error_fields(after) =~= if semantic.indicates_error() {
        error_fields(before).insert(name)
    } else {
        error_fields(before)
    });
    assert(sure_error_fields(after) =~= if semantic.surely_indicates_error() {
        sure_error_fields(before).insert(name)
    } else {
        sure_error_fields(before)
    });
}

} // verus!
