//! A generator whose output cannot be predicted.
//!
//! Signal identifiers are drawn from it. One that a stranger could predict
//! could be claimed in a deduplication cache before the signal arrives.

use vstd::prelude::*;

use crate::crypto::KEY_LEN;
use crate::identity::{drawn_seed, os_gives};
use crate::rng::Rng;

verus! {

/// How many 64-bit numbers a stream has.
pub const STREAM_LEN: u128 = 0x8_0000_0000_0000_0000;

/// The 64-bit number at a place, counted in 32-bit words, of the ChaCha12 stream
/// of a seed.
pub uninterp spec fn chacha12_at(seed: Seq<u8>, word: u128) -> u64;

/// Calls `rand_chacha::ChaCha12Rng::from_seed`, `set_word_pos` and `next_u64`. The
/// number depends on the seed and the place alone.
#[verifier::external_body]
fn chacha12(seed: &[u8], word: u128) -> (r: u64)
    requires
        seed@.len() == KEY_LEN,
    ensures
        r == chacha12_at(seed@, word),
{
    let mut key = [0u8; 32];
    key.copy_from_slice(seed);
    let mut stream: rand_chacha::ChaCha12Rng = rand::SeedableRng::from_seed(key);
    stream.set_word_pos(word);
    rand::RngCore::next_u64(&mut stream)
}

/// A ChaCha12 stream, seeded from the operating system.
///
/// A stream that is seeded once spares a call of the system for every draw, and
/// its output does not give it away.
pub struct OsBackedRng {
    seed: Vec<u8>,
    drawn: u128,
}

impl OsBackedRng {
    #[verifier::type_invariant]
    spec fn within_a_stream(self) -> bool {
        self.seed@.len() == KEY_LEN && self.drawn < STREAM_LEN
    }

    /// The seed.
    pub closed spec fn seed(&self) -> Seq<u8> {
        self.seed@
    }

    /// How many numbers have been drawn. After the last it starts again.
    pub closed spec fn drawn(&self) -> u128 {
        self.drawn
    }

    /// The stream of a seed of 32 bytes, from its start.
    pub fn from_seed(seed: Vec<u8>) -> (r: Option<OsBackedRng>)
        ensures
            r is Some <==> seed@.len() == KEY_LEN,
            r matches Some(rng) ==> rng.seed() == seed@ && rng.drawn() == 0,
    {
        if seed.len() == KEY_LEN {
            Some(OsBackedRng { seed, drawn: 0 })
        } else {
            None
        }
    }

    /// Seed from the operating system's source of entropy.
    pub fn from_os() -> (r: OsBackedRng)
        ensures
            r.drawn() == 0,
            r.seed().len() == KEY_LEN,
            os_gives(r.seed()),
    {
        let seed = drawn_seed();
        OsBackedRng { seed, drawn: 0 }
    }
}

/// The place of a draw in the stream: each takes two words.
pub open spec fn place_of_draw(drawn: u128, k: nat) -> u128 {
    (2 * ((drawn + k) % STREAM_LEN as int)) as u128
}

impl Rng for OsBackedRng {
    open spec fn draw(&self, k: nat) -> u64 {
        chacha12_at(self.seed(), place_of_draw(self.drawn(), k))
    }

    fn next_u64(&mut self) -> (r: u64) {
        proof {
            use_type_invariant(&*self);
            vstd::arithmetic::div_mod::lemma_small_mod(self.drawn as nat, STREAM_LEN as nat);
        }
        let ghost before = self.drawn;
        let r: u64 = chacha12(self.seed.as_slice(), self.drawn * 2);
        self.drawn = if self.drawn + 1 == STREAM_LEN {
            0
        } else {
            self.drawn + 1
        };
        proof {
            assert(self.seed() == old(self).seed());
            assert forall|k: nat| #[trigger]
                place_of_draw(self.drawn, k) == place_of_draw(before, k + 1) by {
                if before + 1 == STREAM_LEN {
                    vstd::arithmetic::div_mod::lemma_mod_add_multiples_vanish(
                        k as int,
                        STREAM_LEN as int,
                    );
                }
            }
        }
        r
    }
}

} // verus!
