//! Byte-keyed prefix-search containers. A container maps arbitrary byte
//! sequences (the empty one included) to values and answers point lookups,
//! prefix membership, enumeration of the stored prefixes of a query, and
//! enumeration of the stored extensions of a prefix. The backing structure
//! is an edge-compressed radix trie, verified against a finite-map model.

pub mod art;
pub mod laws;
pub mod patricia;
pub mod prefixmap;

pub use art::AdaptiveRadixTrie;
pub use patricia::PatriciaTrie;

use vstd::prelude::*;
use crate::prefixmap::is_prefix_of;

verus! {

/// The common contract of a prefix-search container: a mutable finite map
/// from byte sequences to values, with prefix queries. `model` is the
/// abstract contents and `wf` the implementation's invariant, established
/// by its constructor and preserved by every operation.
pub trait PrefixSearch {
    type Value;

    /// The stored contents, as a map from byte keys to values.
    spec fn model(&self) -> Map<Seq<u8>, Self::Value>;

    /// The implementation's structural invariant.
    spec fn wf(&self) -> bool;

    /// The stored contents always form a finite map.
    proof fn model_finite(&self)
        requires
            self.wf(),
        ensures
            self.model().dom().finite(),
    ;

    /// Stores `(key, value)`; returns the value the key was bound to
    /// before, if any.
    fn insert(&mut self, key: &[u8], value: Self::Value) -> (prev: Option<Self::Value>)
        requires
            old(self).wf(),
            old(self).model().dom().len() < usize::MAX,
        ensures
            final(self).wf(),
            final(self).model() == old(self).model().insert(key@, value),
            match prev {
                Some(v) => old(self).model().dom().contains(key@) && v == old(self).model()[key@],
                None => !old(self).model().dom().contains(key@),
            },
    ;

    /// Removes `key`; returns the value it was bound to, if any.
    fn delete(&mut self, key: &[u8]) -> (prev: Option<Self::Value>)
        requires
            old(self).wf(),
        ensures
            final(self).wf(),
            final(self).model() == old(self).model().remove(key@),
            match prev {
                Some(v) => old(self).model().dom().contains(key@) && v == old(self).model()[key@],
                None => !old(self).model().dom().contains(key@),
            },
    ;

    /// A shared reference to the value bound to exactly `key`, if any.
    fn get<'a>(&'a self, key: &[u8]) -> (r: Option<&'a Self::Value>)
        requires
            self.wf(),
        ensures
            match r {
                Some(v) => self.model().dom().contains(key@) && *v == self.model()[key@],
                None => !self.model().dom().contains(key@),
            },
    ;

    /// Whether exactly `key` is stored.
    fn contains(&self, key: &[u8]) -> (r: bool)
        requires
            self.wf(),
        ensures
            r == self.model().dom().contains(key@),
    ;

    /// Whether some stored key starts with `prefix` (including `prefix`).
    fn contains_prefix(&self, prefix: &[u8]) -> (r: bool)
        requires
            self.wf(),
        ensures
            r == exists|y: Seq<u8>| #[trigger] self.model().dom().contains(y) && is_prefix_of(
                prefix@,
                y,
            ),
    ;

    /// Every stored key that is a prefix of `key`, as its length paired
    /// with a reference to its value, in strictly increasing length.
    fn prefix_matches<'a>(&'a self, key: &[u8]) -> (out: Vec<(usize, &'a Self::Value)>)
        requires
            self.wf(),
        ensures
            forall|t: int|
                0 <= t < out@.len() ==> #[trigger] out@[t].0 <= key@.len()
                    && self.model().dom().contains(key@.subrange(0, out@[t].0 as int))
                    && *out@[t].1 == self.model()[key@.subrange(0, out@[t].0 as int)],
            forall|a: int, b: int| 0 <= a < b < out@.len() ==> out@[a].0 < out@[b].0,
            forall|l: int|
                0 <= l <= key@.len() && #[trigger] self.model().dom().contains(
                    key@.subrange(0, l),
                ) ==> exists|t: int| 0 <= t < out@.len() && (#[trigger] out@[t]).0 == l,
    ;

    /// Every stored key that starts with `prefix`, paired with a reference
    /// to its value; each such key exactly once, in no promised order.
    fn continuations<'a>(&'a self, prefix: &[u8]) -> (out: Vec<(Vec<u8>, &'a Self::Value)>)
        requires
            self.wf(),
        ensures
            forall|t: int|
                0 <= t < out@.len() ==> is_prefix_of(prefix@, (#[trigger] out@[t]).0@)
                    && self.model().dom().contains(out@[t].0@) && *out@[t].1 == self.model()[out@[
                    t].0@],
            forall|a: int, b: int| 0 <= a < b < out@.len() ==> out@[a].0@ != out@[b].0@,
            forall|y: Seq<u8>|
                #[trigger] self.model().dom().contains(y) && is_prefix_of(prefix@, y) ==> exists|
                    t: int,
                | 0 <= t < out@.len() && (#[trigger] out@[t]).0@ == y,
    ;

    /// The number of stored keys.
    fn len(&self) -> (n: usize)
        requires
            self.wf(),
        ensures
            n == self.model().dom().len(),
    ;

    /// Whether nothing is stored.
    fn is_empty(&self) -> (r: bool)
        requires
            self.wf(),
        ensures
            r == (self.model().dom().len() == 0),
    {
        self.len() == 0
    }
}

impl<V> PrefixSearch for PatriciaTrie<V> {
    type Value = V;

    closed spec fn model(&self) -> Map<Seq<u8>, V> {
        self.view()
    }

    closed spec fn wf(&self) -> bool {
        self.inv()
    }

    proof fn model_finite(&self) {
        self.lemma_view_finite();
    }

    fn insert(&mut self, key: &[u8], value: V) -> (prev: Option<V>) {
        PatriciaTrie::insert(self, key, value)
    }

    fn delete(&mut self, key: &[u8]) -> (prev: Option<V>) {
        PatriciaTrie::delete(self, key)
    }

    fn get<'a>(&'a self, key: &[u8]) -> (r: Option<&'a V>) {
        PatriciaTrie::get(self, key)
    }

    fn contains(&self, key: &[u8]) -> (r: bool) {
        PatriciaTrie::contains(self, key)
    }

    fn contains_prefix(&self, prefix: &[u8]) -> (r: bool) {
        let r = PatriciaTrie::contains_prefix(self, prefix);
        proof {
            if r {
                let y = choose|y: Seq<u8>| #[trigger] self@.dom().contains(y) && is_prefix_of(
                    prefix@,
                    y,
                );
                assert(self.model().dom().contains(y) && is_prefix_of(prefix@, y));
            } else {
                assert forall|y: Seq<u8>| #[trigger] self.model().dom().contains(
                    y,
                ) implies !is_prefix_of(prefix@, y) by {
                    assert(self@.dom().contains(y));
                }
            }
        }
        r
    }

    fn prefix_matches<'a>(&'a self, key: &[u8]) -> (out: Vec<(usize, &'a V)>) {
        PatriciaTrie::prefix_matches(self, key)
    }

    fn continuations<'a>(&'a self, prefix: &[u8]) -> (out: Vec<(Vec<u8>, &'a V)>) {
        PatriciaTrie::continuations(self, prefix)
    }

    fn len(&self) -> (n: usize) {
        PatriciaTrie::len(self)
    }
}

impl<V> PrefixSearch for AdaptiveRadixTrie<V> {
    type Value = V;

    closed spec fn model(&self) -> Map<Seq<u8>, V> {
        self.view()
    }

    closed spec fn wf(&self) -> bool {
        self.inv()
    }

    proof fn model_finite(&self) {
        self.lemma_view_finite();
    }

    fn insert(&mut self, key: &[u8], value: V) -> (prev: Option<V>) {
        AdaptiveRadixTrie::insert(self, key, value)
    }

    fn delete(&mut self, key: &[u8]) -> (prev: Option<V>) {
        AdaptiveRadixTrie::delete(self, key)
    }

    fn get<'a>(&'a self, key: &[u8]) -> (r: Option<&'a V>) {
        AdaptiveRadixTrie::get(self, key)
    }

    fn contains(&self, key: &[u8]) -> (r: bool) {
        AdaptiveRadixTrie::contains(self, key)
    }

    fn contains_prefix(&self, prefix: &[u8]) -> (r: bool) {
        let r = AdaptiveRadixTrie::contains_prefix(self, prefix);
        proof {
            if r {
                let y = choose|y: Seq<u8>| #[trigger] self@.dom().contains(y) && is_prefix_of(
                    prefix@,
                    y,
                );
                assert(self.model().dom().contains(y) && is_prefix_of(prefix@, y));
            } else {
                assert forall|y: Seq<u8>| #[trigger] self.model().dom().contains(
                    y,
                ) implies !is_prefix_of(prefix@, y) by {
                    assert(self@.dom().contains(y));
                }
            }
        }
        r
    }

    fn prefix_matches<'a>(&'a self, key: &[u8]) -> (out: Vec<(usize, &'a V)>) {
        AdaptiveRadixTrie::prefix_matches(self, key)
    }

    fn continuations<'a>(&'a self, prefix: &[u8]) -> (out: Vec<(Vec<u8>, &'a V)>) {
        AdaptiveRadixTrie::continuations(self, prefix)
    }

    fn len(&self) -> (n: usize) {
        AdaptiveRadixTrie::len(self)
    }
}

} // verus!
