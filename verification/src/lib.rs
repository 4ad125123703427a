//! Building blocks for reinforcement-learning environments: typed action and
//! observation spaces, positions sampled from them, and a named-path format
//! for addressing sub-regions of a flat space.

use vstd::prelude::*;

pub mod float_bits;
pub mod format;
mod rng;
pub mod space;

use crate::rng::entropy_byte;
use vstd::string::StringSliceAdditionalSpecFns;

verus! {

/// Space for the observable environment state.
pub type ObservationSpace = crate::space::Space;

/// Position in Space as the observable environment state.
pub type EnvironmentState = crate::space::Position;

/// Space for available environment agent actions.
pub type ActionSpace = crate::space::Space;

/// Position in Space as the agent action.
pub type AgentAction = crate::space::Position;

/// The bytes left after folding `input` into `n` slots: the bytes are taken
/// in order, and byte `i` is added, wrapping at 256, into slot `i mod n`.
pub open spec fn seed_fold(input: Seq<u8>, n: nat) -> Seq<u8>
    decreases input.len(),
{
    if input.len() == 0 {
        Seq::new(n, |i: int| 0u8)
    } else {
        let prev = seed_fold(input.drop_last(), n);
        let idx = ((input.len() - 1) as int) % (n as int);
        let sum = prev[idx] + input.last();
        prev.update(
            idx,
            if sum > u8::MAX {
                (sum - 256) as u8
            } else {
                sum as u8
            },
        )
    }
}

/// The big-endian value of eight bytes.
pub open spec fn be_u64_of(s: Seq<u8>) -> int
    recommends
        s.len() == 8,
{
    s[0] * 0x100_0000_0000_0000 + s[1] * 0x1_0000_0000_0000 + s[2] * 0x100_0000_0000 + s[3]
        * 0x1_0000_0000 + s[4] * 0x100_0000 + s[5] * 0x1_0000 + s[6] * 0x100 + s[7]
}

/// Folding at most `n` bytes into `n` slots gives every byte a slot of its
/// own: the result is the input padded with zeros to length `n`.
pub proof fn lemma_seed_fold_of_short_input(input: Seq<u8>, n: nat)
    requires
        input.len() <= n,
    ensures
        seed_fold(input, n) =~= Seq::new(
            n,
            |i: int|
                if i < input.len() {
                    input[i]
                } else {
                    0u8
                },
        ),
    decreases input.len(),
{
    if input.len() > 0 {
        lemma_seed_fold_of_short_input(input.drop_last(), n);
        let idx = ((input.len() - 1) as int) % (n as int);
        assert(idx == input.len() - 1) by (nonlinear_arith)
            requires
                0 <= input.len() - 1 < n,
                idx == ((input.len() - 1) as int) % (n as int),
        ;
    }
}

/// Round trip through a seed: the eight big-endian bytes of a value fold back
/// into the value itself.
pub proof fn lemma_u64_seed_round_trip(bytes: Seq<u8>)
    requires
        bytes.len() == 8,
    ensures
        be_u64_of(seed_fold(bytes, 8)) == be_u64_of(bytes),
{
    lemma_seed_fold_of_short_input(bytes, 8);
    assert(seed_fold(bytes, 8) =~= bytes);
}

/// Provides conversion from various values into acceptable seed values.
#[derive(Clone)]
pub struct Seed {
    pub seed_value: Vec<u8>,
}

impl Seed {
    /// A seed of 32 bytes drawn from the thread-local generator.
    pub fn new_random() -> (r: Self)
        ensures
            r.seed_value@.len() == 32,
    {
        let mut seed_value: Vec<u8> = Vec::new();
        let mut i: usize = 0;
        while i < 32
            invariant
                i <= 32,
                seed_value@.len() == i,
            decreases 32 - i,
        {
            seed_value.push(entropy_byte());
            i = i + 1;
        }
        Self { seed_value }
    }

    /// A seed over a copy of the given bytes.
    pub fn from_bytes(bytes: &[u8]) -> (r: Self)
        ensures
            r.seed_value@ == bytes@,
    {
        let mut seed_value: Vec<u8> = Vec::new();
        let mut i: usize = 0;
        while i < bytes.len()
            invariant
                i <= bytes@.len(),
                seed_value@ =~= bytes@.take(i as int),
            decreases bytes@.len() - i,
        {
            seed_value.push(bytes[i]);
            i = i + 1;
        }
        proof {
            assert(bytes@.take(bytes@.len() as int) =~= bytes@);
        }
        Self { seed_value }
    }

    /// A seed over the UTF-8 bytes of the given text.
    pub fn from_text(text: &str) -> (r: Self)
        ensures
            r.seed_value@ == text.spec_bytes(),
    {
        Self::from_bytes(text.as_bytes())
    }

    /// A seed of the eight big-endian bytes of the given value.
    pub fn from_u64(u: u64) -> (r: Self)
        ensures
            r.seed_value@.len() == 8,
            be_u64_of(r.seed_value@) == u,
    {
        let mut seed_value: Vec<u8> = Vec::new();
        seed_value.push((u >> 56) as u8);
        seed_value.push((u >> 48) as u8);
        seed_value.push((u >> 40) as u8);
        seed_value.push((u >> 32) as u8);
        seed_value.push((u >> 24) as u8);
        seed_value.push((u >> 16) as u8);
        seed_value.push((u >> 8) as u8);
        seed_value.push(u as u8);
        proof {
            assert(((u >> 56) as u8) * 0x100_0000_0000_0000 + ((u >> 48) as u8)
                * 0x1_0000_0000_0000 + ((u >> 40) as u8) * 0x100_0000_0000 + ((u >> 32) as u8)
                * 0x1_0000_0000 + ((u >> 24) as u8) * 0x100_0000 + ((u >> 16) as u8) * 0x1_0000 + ((
            u >> 8) as u8) * 0x100 + (u as u8) == u) by (bit_vector);
        }
        Self { seed_value }
    }

    /// Folds this seed's bytes into `length` slots, byte `i` added with
    /// wraparound into slot `i mod length`.
    pub fn fold_to(&self, length: usize) -> (r: Vec<u8>)
        requires
            length >= 1,
        ensures
            r@ == seed_fold(self.seed_value@, length as nat),
            r@.len() == length,
    {
        let mut out: Vec<u8> = Vec::new();
        let mut i: usize = 0;
        while i < length
            invariant
                i <= length,
                out@.len() == i,
                forall|j: int| 0 <= j < i ==> out@[j] == 0u8,
            decreases length - i,
        {
            out.push(0u8);
            i = i + 1;
        }
        proof {
            assert(out@ =~= seed_fold(self.seed_value@.take(0), length as nat));
        }
        let mut k: usize = 0;
        while k < self.seed_value.len()
            invariant
                k <= self.seed_value@.len(),
                length >= 1,
                out@.len() == length,
                out@ == seed_fold(self.seed_value@.take(k as int), length as nat),
            decreases self.seed_value@.len() - k,
        {
            let idx = k % length;
            let updated = out[idx].wrapping_add(self.seed_value[k]);
            out.set(idx, updated);
            proof {
                let p = self.seed_value@.take(k + 1);
                assert(p.drop_last() =~= self.seed_value@.take(k as int));
                assert(p.last() == self.seed_value@[k as int]);
            }
            k = k + 1;
        }
        proof {
            assert(self.seed_value@.take(self.seed_value@.len() as int) =~= self.seed_value@);
        }
        out
    }

    /// The seed folded into eight bytes and read as one big-endian value.
    pub fn to_u64(&self) -> (r: u64)
        ensures
            r == be_u64_of(seed_fold(self.seed_value@, 8)),
    {
        let bytes = self.fold_to(8);
        (bytes[0] as u64) * 0x100_0000_0000_0000 + (bytes[1] as u64) * 0x1_0000_0000_0000 + (
        bytes[2] as u64) * 0x100_0000_0000 + (bytes[3] as u64) * 0x1_0000_0000 + (bytes[4] as u64)
            * 0x100_0000 + (bytes[5] as u64) * 0x1_0000 + (bytes[6] as u64) * 0x100 + (
        bytes[7] as u64)
    }
}

impl From<Vec<u8>> for Seed {
    fn from(v: Vec<u8>) -> (r: Self) {
        Self { seed_value: v }
    }
}

impl vstd::std_specs::convert::FromSpecImpl<Vec<u8>> for Seed {
    open spec fn obeys_from_spec() -> bool {
        true
    }

    open spec fn from_spec(v: Vec<u8>) -> Self {
        Seed { seed_value: v }
    }
}

} // verus!
