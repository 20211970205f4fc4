//! The hash injection protocol: a hasher that can be told its result.
//!
//! The adapter wraps a hasher and hands every ordinary write on to it, so
//! that an ordinary value hashes as it would without the adapter. A length
//! prefix of [`SIGNALLED_LENGTH_PREFIX`] is the signal: it is not handed on,
//! and the 64-bit word written next is the result of `finish`, whatever else
//! the wrapped hasher has seen. Any other write puts the adapter back into
//! its ordinary mode.
use vstd::prelude::*;
use vstd::bytes::{
    spec_u128_to_le_bytes, spec_u16_to_le_bytes, spec_u32_to_le_bytes, spec_u64_to_le_bytes,
    u128_to_le_bytes, u16_to_le_bytes, u32_to_le_bytes, u64_to_le_bytes,
};
use vstd::std_specs::hash::DefaultHasherAdditionalSpecFns;
use vstd::string::StringSliceAdditionalSpecFns;
use std::collections::hash_map::{DefaultHasher, RandomState};
use std::hash::{BuildHasher, Hasher};

verus! {

/// The length prefix that announces an injected hash. No slice of values
/// that occupy memory is this long, so ordinary hashing does not write it.
pub const SIGNALLED_LENGTH_PREFIX: usize = usize::MAX;

/// Where the adapter stands in the protocol.
#[derive(PartialEq, Eq, Structural, Clone, Copy, Debug)]
pub enum SignalState {
    /// Ordinary mode: the result is that of the wrapped hasher.
    NotSignalled,
    /// The signal was seen: the next 64-bit word is the hash.
    Signalled,
    /// The hash was injected: it is the result.
    HashInjected(u64),
}

/// The state after a length prefix `len` was written.
pub open spec fn after_length_prefix(len: usize) -> SignalState {
    if len == SIGNALLED_LENGTH_PREFIX {
        SignalState::Signalled
    } else {
        SignalState::NotSignalled
    }
}

/// The state after the 64-bit word `word` was written in state `before`.
pub open spec fn after_word(before: SignalState, word: u64) -> SignalState {
    if before == SignalState::Signalled {
        SignalState::HashInjected(word)
    } else {
        SignalState::NotSignalled
    }
}

/// What the wrapped hasher has been given after a length prefix `len`: the
/// signal is kept from it, any other length reaches it as eight bytes.
pub open spec fn written_after_length_prefix(before: Seq<Seq<u8>>, len: usize) -> Seq<Seq<u8>> {
    if len == SIGNALLED_LENGTH_PREFIX {
        before
    } else {
        before.push(spec_u64_to_le_bytes(len as u64))
    }
}

/// A hasher with an injection door.
pub struct SignalledInjectionHasher<H: Hasher> {
    hasher: H,
    state: SignalState,
}

impl SignalledInjectionHasher<DefaultHasher> {
    /// Where the adapter stands in the protocol.
    pub closed spec fn state(&self) -> SignalState {
        self.state
    }

    /// What the wrapped hasher has been given so far, write by write.
    pub closed spec fn written(&self) -> Seq<Seq<u8>> {
        self.hasher@
    }

    /// What `finish` returns: the injected hash where one was injected, and
    /// the wrapped hasher's own result otherwise.
    pub open spec fn digest(&self) -> u64 {
        match self.state() {
            SignalState::HashInjected(hash) => hash,
            _ => DefaultHasher::spec_finish(self.written()),
        }
    }

    /// Wraps `hasher`, in ordinary mode.
    pub fn new(hasher: DefaultHasher) -> (adapter: Self)
        ensures
            adapter.state() == SignalState::NotSignalled,
            adapter.written() == hasher@,
    {
        SignalledInjectionHasher { hasher, state: SignalState::NotSignalled }
    }

    /// Whether the adapter is in ordinary mode, as every write but an
    /// injection expects to find it.
    pub fn debug_assert_ordinary_write(&self) -> (ordinary: bool)
        ensures
            ordinary == (self.state() == SignalState::NotSignalled),
    {
        self.state == SignalState::NotSignalled
    }

    /// The hash: see [`Self::digest`].
    pub fn finish(&self) -> (hash: u64)
        ensures
            hash == self.digest(),
    {
        match self.state {
            SignalState::HashInjected(hash) => hash,
            _ => self.hasher.finish(),
        }
    }

    /// Writes bytes. This does not signal, whatever the bytes are.
    pub fn write(&mut self, bytes: &[u8])
        ensures
            final(self).state() == SignalState::NotSignalled,
            final(self).written() == old(self).written().push(bytes@),
    {
        self.state = SignalState::NotSignalled;
        self.hasher.write(bytes);
    }

    pub fn write_u8(&mut self, i: u8)
        ensures
            final(self).state() == SignalState::NotSignalled,
            final(self).written() == old(self).written().push(seq![i]),
    {
        self.state = SignalState::NotSignalled;
        let bytes: [u8; 1] = [i];
        assert(bytes@ =~= seq![i]);
        self.hasher.write(bytes.as_slice());
    }

    pub fn write_u16(&mut self, i: u16)
        ensures
            final(self).state() == SignalState::NotSignalled,
            final(self).written() == old(self).written().push(spec_u16_to_le_bytes(i)),
    {
        self.state = SignalState::NotSignalled;
        let bytes = u16_to_le_bytes(i);
        self.hasher.write(bytes.as_slice());
    }

    pub fn write_u32(&mut self, i: u32)
        ensures
            final(self).state() == SignalState::NotSignalled,
            final(self).written() == old(self).written().push(spec_u32_to_le_bytes(i)),
    {
        self.state = SignalState::NotSignalled;
        let bytes = u32_to_le_bytes(i);
        self.hasher.write(bytes.as_slice());
    }

    /// Writes a 64-bit word. Straight after the signal the word is the
    /// injected hash; at any other time it is an ordinary write. Either way
    /// the wrapped hasher gets it too.
    pub fn write_u64(&mut self, i: u64)
        ensures
            final(self).state() == after_word(old(self).state(), i),
            final(self).written() == old(self).written().push(spec_u64_to_le_bytes(i)),
    {
        if self.state == SignalState::Signalled {
            self.state = SignalState::HashInjected(i);
        } else {
            self.state = SignalState::NotSignalled;
        }
        let bytes = u64_to_le_bytes(i);
        self.hasher.write(bytes.as_slice());
    }

    pub fn write_u128(&mut self, i: u128)
        ensures
            final(self).state() == SignalState::NotSignalled,
            final(self).written() == old(self).written().push(spec_u128_to_le_bytes(i)),
    {
        self.state = SignalState::NotSignalled;
        let bytes = u128_to_le_bytes(i);
        self.hasher.write(bytes.as_slice());
    }

    pub fn write_usize(&mut self, i: usize)
        ensures
            final(self).state() == SignalState::NotSignalled,
            final(self).written() == old(self).written().push(spec_u64_to_le_bytes(i as u64)),
    {
        self.state = SignalState::NotSignalled;
        let bytes = u64_to_le_bytes(i as u64);
        self.hasher.write(bytes.as_slice());
    }

    pub fn write_i8(&mut self, i: i8)
        ensures
            final(self).state() == SignalState::NotSignalled,
            final(self).written() == old(self).written().push(seq![i as u8]),
    {
        self.write_u8(#[verifier::truncate] (i as u8));
    }

    pub fn write_i16(&mut self, i: i16)
        ensures
            final(self).state() == SignalState::NotSignalled,
            final(self).written() == old(self).written().push(spec_u16_to_le_bytes(i as u16)),
    {
        self.write_u16(#[verifier::truncate] (i as u16));
    }

    pub fn write_i32(&mut self, i: i32)
        ensures
            final(self).state() == SignalState::NotSignalled,
            final(self).written() == old(self).written().push(spec_u32_to_le_bytes(i as u32)),
    {
        self.write_u32(#[verifier::truncate] (i as u32));
    }

    /// Writes a signed 64-bit word. It is never taken for an injected hash.
    pub fn write_i64(&mut self, i: i64)
        ensures
            final(self).state() == SignalState::NotSignalled,
            final(self).written() == old(self).written().push(spec_u64_to_le_bytes(i as u64)),
    {
        self.state = SignalState::NotSignalled;
        let bytes = u64_to_le_bytes(#[verifier::truncate] (i as u64));
        self.hasher.write(bytes.as_slice());
    }

    pub fn write_i128(&mut self, i: i128)
        ensures
            final(self).state() == SignalState::NotSignalled,
            final(self).written() == old(self).written().push(spec_u128_to_le_bytes(i as u128)),
    {
        self.write_u128(#[verifier::truncate] (i as u128));
    }

    pub fn write_isize(&mut self, i: isize)
        ensures
            final(self).state() == SignalState::NotSignalled,
            final(self).written() == old(self).written().push(spec_u64_to_le_bytes(i as u64)),
    {
        self.state = SignalState::NotSignalled;
        let bytes = u64_to_le_bytes(#[verifier::truncate] (i as u64));
        self.hasher.write(bytes.as_slice());
    }

    /// Writes a length prefix. [`SIGNALLED_LENGTH_PREFIX`] is the signal and
    /// stays with the adapter; any other length is an ordinary write.
    pub fn write_length_prefix(&mut self, len: usize)
        ensures
            final(self).state() == after_length_prefix(len),
            final(self).written() == written_after_length_prefix(old(self).written(), len),
    {
        if len == SIGNALLED_LENGTH_PREFIX {
            self.state = SignalState::Signalled;
        } else {
            self.write_usize(len);
        }
    }

    /// Writes a string: its bytes, then one byte that no UTF-8 text holds,
    /// so that no string is the beginning of another.
    pub fn write_str(&mut self, s: &str)
        ensures
            final(self).state() == SignalState::NotSignalled,
            final(self).written() == old(self).written().push(s.spec_bytes()).push(seq![0xffu8]),
    {
        self.write(s.as_bytes());
        self.write_u8(0xff);
    }
}

/// Injects `hash` into `hasher`: the signal, then the hash. Whatever the
/// hasher had seen before, `finish` then returns `hash`.
pub fn signal_inject_hash(hasher: &mut SignalledInjectionHasher<DefaultHasher>, hash: u64)
    ensures
        final(hasher).state() == SignalState::HashInjected(hash),
        final(hasher).digest() == hash,
        final(hasher).written() == old(hasher).written().push(spec_u64_to_le_bytes(hash)),
{
    hasher.write_length_prefix(SIGNALLED_LENGTH_PREFIX);
    hasher.write_u64(hash);
}

/// `RandomState::build_hasher`: a fresh hasher with the keys of `build`.
/// Nothing is claimed of it.
#[verifier::external_body]
fn fresh_hasher(build: &RandomState) -> DefaultHasher {
    build.build_hasher()
}

/// Builds adapters over the hashers of `build`.
#[verifier::reject_recursive_types(H)]
pub struct SignalledInjectionBuildHasher<H: Hasher, B: BuildHasher<Hasher = H>> {
    build: B,
}

impl<H: Hasher, B: BuildHasher<Hasher = H>> SignalledInjectionBuildHasher<H, B> {
    /// What builds the wrapped hashers.
    pub closed spec fn inner(&self) -> B {
        self.build
    }

    pub fn new(build: B) -> (adapter: Self)
        ensures
            adapter.inner() == build,
    {
        SignalledInjectionBuildHasher { build }
    }
}

impl SignalledInjectionBuildHasher<DefaultHasher, RandomState> {
    /// A fresh adapter, in ordinary mode.
    pub fn build_hasher(&self) -> (adapter: SignalledInjectionHasher<DefaultHasher>)
        ensures
            adapter.state() == SignalState::NotSignalled,
    {
        SignalledInjectionHasher::new(fresh_hasher(&self.build))
    }
}

} // verus!
