use std::collections::hash_map::DefaultHasher;
use std::hash::Hash;
use std::hash::Hasher;
use vstd::prelude::*;
use vstd::std_specs::hash::DefaultHasherAdditionalSpecFns;

verus! {

/// Feeds a key to a hasher by `Hash::hash`. What the key's `Hash`
/// implementation writes is its own affair: nothing is claimed of the
/// hasher's state afterwards.
#[verifier::external_body]
fn feed<K: Hash>(key: &K, hasher: &mut DefaultHasher) {
    key.hash(hasher);
}

/// The 64-bit digest of a key under the standard library's default hasher
/// with its fixed initial state: the digest of whatever the key's `Hash`
/// implementation wrote.
pub fn hash_key<K: Hash>(key: &K) -> (digest: u64)
    ensures
        exists|written: Seq<Seq<u8>>| digest == DefaultHasher::spec_finish(written),
{
    let mut hasher = DefaultHasher::new();
    feed(key, &mut hasher);
    hasher.finish()
}

} // verus!
