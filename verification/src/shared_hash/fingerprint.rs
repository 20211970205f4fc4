//! Where fingerprints come from: one ordinary hash pass over the key,
//! through the adapter of the `hash_injector` crate.
use vstd::prelude::*;
use std::collections::hash_map::{DefaultHasher, RandomState};
use std::hash::{BuildHasher, Hash, Hasher};
use hash_injector::SignalledInjectionBuildHasher as InjectorBuildHasher;
use hash_injector::SignalledInjectionHasher as InjectorHasher;

verus! {

/// The protocol that the adapters of `hash_injector` are built for: the
/// signal is a length prefix, it comes before the hash, and the hash is
/// written as a `u64`.
pub const PROTOCOL: u8 = 0b101;

/// Builds the hashers that fingerprint keys.
pub type KeyBuildHasher = InjectorBuildHasher<
    DefaultHasher,
    RandomState,
    PROTOCOL,
>;

/// A hasher that fingerprints one key.
pub type KeyHasher = InjectorHasher<DefaultHasher, PROTOCOL>;

/// `hash_injector::SignalledInjectionBuildHasher`, carried through as it is.
#[verifier::external_type_specification]
#[verifier::external_body]
#[verifier::reject_recursive_types(H)]
#[verifier::reject_recursive_types(B)]
pub struct ExInjectorBuildHasher<H: Hasher, B: BuildHasher<Hasher = H>, const PF: u8>(
    InjectorBuildHasher<H, B, PF>,
);

/// `hash_injector::SignalledInjectionHasher`, carried through as it is.
#[verifier::external_type_specification]
#[verifier::external_body]
#[verifier::reject_recursive_types(H)]
pub struct ExInjectorHasher<H: Hasher, const PF: u8>(InjectorHasher<H, PF>);

/// `RandomState::new`: hash keys that this process drew at random. Nothing
/// is claimed of them.
#[verifier::external_body]
pub(crate) fn random_state() -> RandomState {
    RandomState::new()
}

/// `hash_injector::SignalledInjectionBuildHasher::new`: the adapter around
/// `build`. Nothing is claimed of it.
#[verifier::external_body]
pub(crate) fn key_build_hasher(build: RandomState) -> KeyBuildHasher {
    InjectorBuildHasher::new(build)
}

/// `build_hasher` of `hash_injector::SignalledInjectionBuildHasher`: a
/// hasher that has seen nothing yet. Nothing is claimed of it.
#[verifier::external_body]
pub(crate) fn key_hasher(build: &KeyBuildHasher) -> KeyHasher {
    build.build_hasher()
}

/// `Hash::hash` of the key, into a hasher of `hash_injector`. What the key
/// writes is its own business: nothing is claimed of the hasher afterwards.
#[verifier::external_body]
pub(crate) fn write_key<K: Hash>(hasher: &mut KeyHasher, key: &K) {
    key.hash(hasher)
}

/// `finish` of `hash_injector::SignalledInjectionHasher`. The result hangs
/// on the keys drawn by `RandomState`, so nothing is claimed of it.
#[verifier::external_body]
pub(crate) fn finish_key(hasher: &KeyHasher) -> u64 {
    hasher.finish()
}

/// The fingerprint of `key`: one ordinary hash pass through `hasher`, which
/// is used up so that no second key goes through it.
pub fn fingerprint<K: Hash>(key: &K, hasher: KeyHasher) -> u64 {
    let mut hasher = hasher;
    write_key(&mut hasher, key);
    finish_key(&hasher)
}

} // verus!
