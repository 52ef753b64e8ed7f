//! Attribute sets that carry their hash.

use crate::canonical::{
    canonical, distinct_keys, is_canonical, law_canonical_idempotent, law_canonical_ignores_order,
    law_canonical_same_values, lemma_canonical_unique, same_values, sort_and_dedup,
};
use crate::encoding::{attrs_bytes, encode_attrs};
use crate::key_value::{attr_views, KeyValue, KeyValueView, ValueView};
use core::hash::{BuildHasher, Hasher};
use vstd::prelude::*;

verus! {

/// What `foldhash::fast::FixedState` makes of `bytes` written at once, where it is seeded with
/// `seed`. The hasher is not seeded at random, so one build of the program gives the same number
/// for the same bytes each time. `foldhash` does not promise the number to be the same under
/// another version of it or for another target, and nothing here depends on which number it is.
pub uninterp spec fn foldhash_fixed(seed: u64, bytes: Seq<u8>) -> u64;

/// Hashes bytes with `foldhash::fast::FixedState::with_seed`, `build_hasher`, `write` and
/// `finish`: the result is a function of the seed and of the bytes alone, called
/// [`foldhash_fixed`].
#[verifier::external_body]
fn fold_hash(seed: u64, bytes: &[u8]) -> (hash: u64)
    ensures
        hash == foldhash_fixed(seed, bytes@),
{
    let mut hasher = foldhash::fast::FixedState::with_seed(seed).build_hasher();
    hasher.write(bytes);
    hasher.finish()
}

/// The key of the attribute that marks the overflow set.
pub const OVERFLOW_KEY: &'static str = "otel.metric.overflow";

/// What a [`HashedAttributes`] holds.
pub struct HashedView {
    pub attrs: Seq<KeyValueView>,
    pub hash: u64,
}

/// An attribute set with its hash, which is computed once, when the set is first seen, and then
/// carried through every lookup.
#[derive(Debug)]
pub struct HashedAttributes {
    /// The attributes, in canonical form.
    pub attrs: Vec<KeyValue>,
    /// The hash of the attributes.
    pub hash: u64,
}

/// A hasher that gives back the hash which was written to it.
pub struct PassthroughHasher(pub u64);

/// Makes a [`PassthroughHasher`].
#[derive(Clone, Copy, Default)]
pub struct PassthroughBuildHasher;

/// The hash of an attribute list.
pub open spec fn attrs_hash(attrs: Seq<KeyValueView>) -> u64 {
    foldhash_fixed(0, attrs_bytes(attrs))
}

/// An attribute list as it stands, with its hash.
pub open spec fn hashed(attrs: Seq<KeyValueView>) -> HashedView {
    HashedView { attrs, hash: attrs_hash(attrs) }
}

/// The set that stands for the attributes as a caller gives them: their canonical form, hashed.
pub open spec fn set_of(attributes: Seq<KeyValueView>) -> HashedView {
    hashed(canonical(attributes))
}

/// The attributes under which measurements beyond the cardinality limit are counted.
pub open spec fn overflow_attrs() -> Seq<KeyValueView> {
    seq![KeyValueView { key: OVERFLOW_KEY@, value: ValueView::Bool(true) }]
}

impl View for HashedAttributes {
    type V = HashedView;

    open spec fn view(&self) -> HashedView {
        HashedView { attrs: attr_views(self.attrs@), hash: self.hash }
    }
}

impl View for PassthroughHasher {
    type V = u64;

    open spec fn view(&self) -> u64 {
        self.0
    }
}

/// The attributes under which measurements beyond the cardinality limit are counted.
pub fn stream_overflow_attributes() -> (attrs: Vec<KeyValue>)
    ensures
        attr_views(attrs@) == overflow_attrs(),
{
    let mut attrs: Vec<KeyValue> = Vec::new();
    attrs.push(KeyValue::new(OVERFLOW_KEY, true));
    assert(attr_views(attrs@) =~= overflow_attrs());
    attrs
}

impl HashedAttributes {
    /// Takes attributes as a caller gives them: sorts them, drops repeated keys and hashes the rest.
    pub fn from_raw(attributes: &[KeyValue]) -> (set: Self)
        ensures
            is_canonical(attr_views(attributes@), set@.attrs),
            set@ == set_of(attr_views(attributes@)),
    {
        let attrs: Vec<KeyValue> = sort_and_dedup(attributes);
        let hash: u64 = Self::compute_hash(&attrs);
        HashedAttributes { attrs, hash }
    }

    /// Takes attributes that are sorted already, and hashes them.
    pub fn from_sorted(attrs: Vec<KeyValue>) -> (set: Self)
        ensures
            set.attrs == attrs,
            set@ == hashed(attr_views(attrs@)),
    {
        let hash: u64 = Self::compute_hash(&attrs);
        HashedAttributes { attrs, hash }
    }

    /// Hashes an attribute list.
    pub fn compute_hash(attrs: &Vec<KeyValue>) -> (hash: u64)
        ensures
            hash == attrs_hash(attr_views(attrs@)),
    {
        let bytes: Vec<u8> = encode_attrs(attrs);
        fold_hash(0, bytes.as_slice())
    }

    /// Writes the hash to a hasher.
    pub fn hash(&self, state: &mut PassthroughHasher)
        ensures
            final(state)@ == self.hash,
    {
        state.write_u64(self.hash);
    }
}

impl Clone for HashedAttributes {
    fn clone(&self) -> (copy: Self)
        ensures
            copy@ == self@,
    {
        HashedAttributes { attrs: clone_attrs(&self.attrs), hash: self.hash }
    }
}

/// Copies an attribute list.
pub fn clone_attrs(attrs: &Vec<KeyValue>) -> (copy: Vec<KeyValue>)
    ensures
        attr_views(copy@) == attr_views(attrs@),
{
    let copy: Vec<KeyValue> = attrs.clone();
    assert(attr_views(copy@) =~= attr_views(attrs@));
    copy
}

impl PartialEq for HashedAttributes {
    fn eq(&self, other: &Self) -> (equal: bool) {
        if self.hash != other.hash {
            return false;
        }
        let equal: bool = self.attrs == other.attrs;
        proof {
            let (a, b) = (attr_views(self.attrs@), attr_views(other.attrs@));
            if equal {
                assert(a =~= b);
            } else if a == b {
                assert forall|i: int| 0 <= i < a.len() implies self.attrs[i]@
                    == other.attrs[i]@ by {
                    assert(a[i] == b[i]);
                }
            }
        }
        equal
    }
}

impl Eq for HashedAttributes {

}

impl vstd::std_specs::cmp::PartialEqSpecImpl for HashedAttributes {
    open spec fn obeys_eq_spec() -> bool {
        true
    }

    open spec fn eq_spec(&self, other: &Self) -> bool {
        self@ == other@
    }
}

impl PassthroughHasher {
    /// Takes the hash.
    pub fn write_u64(&mut self, i: u64)
        ensures
            final(self)@ == i,
    {
        self.0 = i;
    }

    /// Gives back the hash that was written last.
    pub fn finish(&self) -> (hash: u64)
        ensures
            hash == self@,
    {
        self.0
    }
}

impl PassthroughBuildHasher {
    /// Makes a hasher.
    pub fn build_hasher(&self) -> (hasher: PassthroughHasher)
        ensures
            hasher@ == 0,
    {
        PassthroughHasher(0)
    }
}

/// Two attribute lists stand for the same set exactly where they give the same value to each key.
pub proof fn law_set_of_same_values(a: Seq<KeyValueView>, b: Seq<KeyValueView>)
    ensures
        set_of(a) == set_of(b) <==> same_values(a, b),
{
    law_canonical_same_values(a, b);
}

/// The order of attributes with distinct keys does not matter.
pub proof fn law_set_of_ignores_order(a: Seq<KeyValueView>, b: Seq<KeyValueView>)
    requires
        distinct_keys(a),
        a.to_multiset() == b.to_multiset(),
    ensures
        set_of(a) == set_of(b),
{
    law_canonical_ignores_order(a, b);
}

/// A set holds each key once, and hashing it as it stands gives it back.
pub proof fn law_set_of_stands(attributes: Seq<KeyValueView>)
    ensures
        distinct_keys(set_of(attributes).attrs),
        set_of(set_of(attributes).attrs) == set_of(attributes),
        hashed(set_of(attributes).attrs) == set_of(attributes),
{
    law_canonical_idempotent(attributes);
}

/// The overflow attributes stand as they are.
pub proof fn lemma_overflow_attrs_stand()
    ensures
        set_of(overflow_attrs()) == hashed(overflow_attrs()),
        overflow_attrs().len() > 0,
{
    assert(is_canonical(overflow_attrs(), overflow_attrs()));
    lemma_canonical_unique(overflow_attrs(), overflow_attrs());
}

} // verus!
