//! Hashes of byte strings.

use std::collections::hash_map::DefaultHasher;
use std::hash::{Hash, Hasher};

use vstd::prelude::*;
use vstd::std_specs::hash::*;

verus! {

/// What a byte string writes to a hasher.
pub uninterp spec fn slice_writes(data: Seq<u8>) -> Seq<Seq<u8>>;

/// What a byte string with a tag behind it writes to a hasher.
pub uninterp spec fn tagged_writes(data: Seq<u8>, tag: u8) -> Seq<Seq<u8>>;

/// `Hash::hash` of std for `[u8]`, which feeds the bytes to a hasher. Claimed:
/// what it writes depends on the bytes alone. What the writes are is not said:
/// std does not document them.
#[verifier::external_body]
fn feed(data: &[u8], hasher: &mut DefaultHasher)
    ensures
        final(hasher)@ == old(hasher)@ + slice_writes(data@),
{
    data.hash(hasher)
}

/// `Hash::hash` of std for a pair of `&[u8]` and `u8`. Claimed: what it writes
/// depends on the bytes and the tag alone. What the writes are is not said.
#[verifier::external_body]
fn feed_tagged(data: &[u8], tag: u8, hasher: &mut DefaultHasher)
    ensures
        final(hasher)@ == old(hasher)@ + tagged_writes(data@, tag),
{
    (data, tag).hash(hasher)
}

/// The hash of a byte string.
pub open spec fn slice_hash(data: Seq<u8>) -> u64 {
    DefaultHasher::spec_finish(slice_writes(data))
}

/// The hash of a byte string with a tag behind it.
pub open spec fn tagged_hash(data: Seq<u8>, tag: u8) -> u64 {
    DefaultHasher::spec_finish(tagged_writes(data, tag))
}

/// The hash of a byte string.
pub fn sip_hash(data: &[u8]) -> (r: u64)
    ensures
        r == slice_hash(data@),
{
    let mut hasher: DefaultHasher = DefaultHasher::new();
    feed(data, &mut hasher);
    assert(hasher@ =~= slice_writes(data@));
    hasher.finish()
}

/// The hash of a byte string with a tag behind it.
pub fn sip_hash_tagged(data: &[u8], tag: u8) -> (r: u64)
    ensures
        r == tagged_hash(data@, tag),
{
    let mut hasher: DefaultHasher = DefaultHasher::new();
    feed_tagged(data, tag, &mut hasher);
    assert(hasher@ =~= tagged_writes(data@, tag));
    hasher.finish()
}

/// A hash is what a new hasher gives that was fed the bytes, or the bytes and
/// the tag, and nothing else.
pub proof fn hashes_are_of_what_is_fed(data: Seq<u8>, tag: u8)
    ensures
        slice_hash(data) == DefaultHasher::spec_finish(Seq::<Seq<u8>>::empty() + slice_writes(data)),
        tagged_hash(data, tag) == DefaultHasher::spec_finish(Seq::<Seq<u8>>::empty() + tagged_writes(data, tag)),
{
    assert(Seq::<Seq<u8>>::empty() + slice_writes(data) =~= slice_writes(data));
    assert(Seq::<Seq<u8>>::empty() + tagged_writes(data, tag) =~= tagged_writes(data, tag));
}

} // verus!
