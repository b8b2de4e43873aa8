//! Transforms, listed by the content types that they accept.

use crate::transforms::ContentType;
use std::collections::HashMap;
use vstd::prelude::*;

verus! {

broadcast use vstd::std_specs::hash::group_hash_axioms;

/// A registered transform.
#[verifier::reject_recursive_types(S)]
pub struct Registered<S: ?Sized> {
    pub transform: Box<S>,
}

/// How often `content_type` occurs in `content_types`.
pub open spec fn occurrences(content_types: Seq<ContentType>, content_type: ContentType) -> nat
    decreases content_types.len(),
{
    if content_types.len() == 0 {
        0
    } else {
        occurrences(content_types.drop_last(), content_type) + if content_types.last()
            == content_type {
            1nat
        } else {
            0nat
        }
    }
}

/// `times` times `entry`.
pub open spec fn repeated<S: ?Sized>(entry: Registered<S>, times: nat) -> Seq<Registered<S>> {
    Seq::new(times, |i: int| entry)
}

/// The positions that `by_type` lists for a content type.
spec fn listed(by_type: Map<u64, Vec<usize>>, content_type: ContentType) -> Seq<usize> {
    if by_type.contains_key(content_type.spec_code()) {
        by_type[content_type.spec_code()]@
    } else {
        Seq::empty()
    }
}

/// Whether `after` is `before`, followed by `times` times `position`.
spec fn appended(before: Seq<usize>, after: Seq<usize>, position: usize, times: nat) -> bool {
    &&& after.len() == before.len() + times
    &&& forall|i: int| 0 <= i < before.len() ==> #[trigger] after[i] == before[i]
    &&& forall|i: int| before.len() <= i < after.len() ==> #[trigger] after[i] == position
}

/// The registered transforms, and for each content type the positions of those
/// that accept it, in the order of registration.
#[verifier::reject_recursive_types(S)]
pub struct Registry<S: ?Sized> {
    entries: Vec<Registered<S>>,
    by_type: HashMap<u64, Vec<usize>>,
}

impl<S: ?Sized> Registry<S> {
    #[verifier::type_invariant]
    spec fn well_formed(&self) -> bool {
        forall|content_type: ContentType, k: int|
            0 <= k < listed(self.by_type@, content_type).len() ==> (#[trigger] listed(
                self.by_type@,
                content_type,
            )[k]) < self.entries@.len()
    }

    /// The transforms for a content type, in the order in which they run.
    pub closed spec fn of_type(&self, content_type: ContentType) -> Seq<Registered<S>> {
        Seq::new(
            listed(self.by_type@, content_type).len(),
            |k: int| self.entries@[listed(self.by_type@, content_type)[k] as int],
        )
    }

    /// A registry without transforms.
    pub fn new() -> (r: Self)
        ensures
            forall|content_type: ContentType| (#[trigger] r.of_type(content_type)).len() == 0,
    {
        Registry { entries: Vec::new(), by_type: HashMap::new() }
    }

    /// Adds a transform behind the others, once for each of `content_types`.
    pub fn add(self, entry: Registered<S>, content_types: &[ContentType]) -> (r: Self)
        ensures
            forall|content_type: ContentType|
                #[trigger] r.of_type(content_type) == self.of_type(content_type) + repeated(
                    entry,
                    occurrences(content_types@, content_type),
                ),
    {
        let ghost before = self;
        proof {
            use_type_invariant(&self);
        }
        let Registry { entries, by_type } = self;
        let mut entries = entries;
        let mut by_type = by_type;
        let position: usize = entries.len();
        let ghost listed_before = by_type@;
        let mut i: usize = 0;
        while i < content_types.len()
            invariant
                i <= content_types@.len(),
                forall|content_type: ContentType|
                    appended(
                        listed(listed_before, content_type),
                        #[trigger] listed(by_type@, content_type),
                        position,
                        occurrences(content_types@.take(i as int), content_type),
                    ),
            decreases content_types@.len() - i,
        {
            let ghost step_before = by_type@;
            let code: u64 = content_types[i].code();
            let mut list: Vec<usize> = match by_type.remove(&code) {
                Some(list) => list,
                None => Vec::new(),
            };
            list.push(position);
            by_type.insert(code, list);
            proof {
                let next = content_types@.take(i + 1);
                assert(next.drop_last() == content_types@.take(i as int));
                assert forall|content_type: ContentType|
                    appended(
                        listed(listed_before, content_type),
                        #[trigger] listed(by_type@, content_type),
                        position,
                        occurrences(next, content_type),
                    ) by {
                    let earlier = listed(step_before, content_type);
                    if content_type == content_types@[i as int] {
                        assert(listed(by_type@, content_type) == earlier.push(position));
                    } else {
                        assert(listed(by_type@, content_type) == earlier);
                    }
                }
            }
            i = i + 1;
        }
        entries.push(entry);
        proof {
            assert(content_types@.take(i as int) == content_types@);
            assert forall|content_type: ContentType, k: int|
                0 <= k < listed(by_type@, content_type).len() implies (#[trigger] listed(
                by_type@,
                content_type,
            )[k]) < entries@.len() by {
                if k < listed(listed_before, content_type).len() {
                    assert(listed(by_type@, content_type)[k] == listed(
                        listed_before,
                        content_type,
                    )[k]);
                }
            }
        }
        let r = Registry { entries, by_type };
        proof {
            assert forall|content_type: ContentType|
                #[trigger] r.of_type(content_type) == before.of_type(content_type) + repeated(
                    entry,
                    occurrences(content_types@, content_type),
                ) by {
                let earlier = listed(listed_before, content_type);
                assert(appended(
                    earlier,
                    listed(by_type@, content_type),
                    position,
                    occurrences(content_types@, content_type),
                ));
                assert(forall|k: int| 0 <= k < earlier.len() ==> #[trigger] earlier[k] < position);
            }
        }
        r
    }

    /// How many times a transform runs for a content type.
    pub fn count(&self, content_type: ContentType) -> (r: usize)
        ensures
            r == self.of_type(content_type).len(),
    {
        match self.by_type.get(&content_type.code()) {
            Some(list) => list.len(),
            None => 0,
        }
    }

    /// The transform that runs in place `k` for a content type.
    pub fn get(&self, content_type: ContentType, k: usize) -> (r: &Registered<S>)
        requires
            k < self.of_type(content_type).len(),
        ensures
            *r == self.of_type(content_type)[k as int],
    {
        proof {
            use_type_invariant(self);
        }
        match self.by_type.get(&content_type.code()) {
            Some(list) => {
                let position: usize = list[k];
                assert(listed(self.by_type@, content_type)[k as int] == position);
                &self.entries[position]
            },
            None => &self.entries[0],
        }
    }
}

} // verus!
