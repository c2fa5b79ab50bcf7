//! The hash primitive: a fast, non-cryptographic mix for short byte keys.
//!
//! The contract of the hash is determinism: within a process the value is a
//! function of the bytes written, nothing else.  That function is spelled
//! out below — word-at-a-time folding of little-endian words through a
//! rotate-xor-multiply mixing step — so equal byte strings always hash
//! equal, while the particular mixing constants remain an implementation
//! detail of this module.

use vstd::prelude::*;

verus! {

/// Multiplier of the mixing step.
pub const FX_HASH_CONST: u64 = 0x517cc1b727220a95;

/// One mixing step: rotate the state, fold the word in, multiply.
#[verifier::opaque]
pub open spec fn fx_mix(h: u64, i: u64) -> u64 {
    (((h << 5) | (h >> 59)) ^ i).wrapping_mul(FX_HASH_CONST)
}

/// Little-endian value of a byte string, wrapped to 64 bits.
#[verifier::opaque]
pub open spec fn le_word(s: Seq<u8>) -> u64
    decreases s.len(),
{
    if s.len() == 0 {
        0u64
    } else {
        le_word(s.subrange(1, s.len() as int)).wrapping_mul(256).wrapping_add(s[0] as u64)
    }
}

/// The state after writing a byte string: whole 8-byte words first, then a
/// 4-, 2- and 1-byte tail.
pub open spec fn fx_write(h: u64, s: Seq<u8>) -> u64
    decreases s.len(),
{
    if s.len() >= 8 {
        fx_write(fx_mix(h, le_word(s.subrange(0, 8))), s.skip(8))
    } else if s.len() >= 4 {
        fx_write(fx_mix(h, le_word(s.subrange(0, 4))), s.skip(4))
    } else if s.len() >= 2 {
        fx_write(fx_mix(h, le_word(s.subrange(0, 2))), s.skip(2))
    } else if s.len() == 1 {
        fx_mix(h, s[0] as u64)
    } else {
        h
    }
}

/// Splits off the first `n` bytes at `pos`, if that many remain.
pub fn take_first_chunk(bytes: &Vec<u8>, pos: usize, n: usize) -> (r: Option<Vec<u8>>)
    ensures
        ({
            match r {
                Some(c) => pos + n <= bytes.len() && c@ == bytes@.subrange(
                    pos as int,
                    pos + n,
                ),
                None => pos + n > bytes.len(),
            }
        }),
{
    if pos <= bytes.len() && n <= bytes.len() - pos {
        Some(crate::table::copy_range(bytes, pos, pos + n))
    } else {
        None
    }
}

/// Little-endian value of a whole byte vector, wrapped to 64 bits.
#[verifier::loop_isolation(false)]
fn le_word_of(c: &Vec<u8>) -> (r: u64)
    ensures
        r == le_word(c@),
{
    let mut acc: u64 = 0;
    let mut j: usize = c.len();
    proof {
        reveal(le_word);
        assert(c@.subrange(j as int, c@.len() as int) =~= Seq::<u8>::empty());
    }
    while j > 0
        invariant
            0 <= j <= c.len(),
            acc == le_word(c@.subrange(j as int, c@.len() as int)),
        decreases j,
    {
        j = j - 1;
        acc = acc.wrapping_mul(256).wrapping_add(c[j] as u64);
        proof {
            reveal(le_word);
            let tail = c@.subrange(j as int, c@.len() as int);
            assert(tail.subrange(1, tail.len() as int) =~= c@.subrange(
                j + 1,
                c@.len() as int,
            ));
            assert(tail[0] == c@[j as int]);
        }
    }
    proof {
        assert(c@.subrange(0, c@.len() as int) =~= c@);
    }
    acc
}

/// The hash state, mixed in place as keys are written.
pub struct FxHasher {
    pub hash: u64,
}

impl FxHasher {
    /// Folds one word into the state.
    pub fn add_to_hash(&mut self, i: u64)
        ensures
            final(self).hash == fx_mix(old(self).hash, i),
    {
        proof {
            reveal(fx_mix);
        }
        self.hash = (((self.hash << 5u64) | (self.hash >> 59u64)) ^ i).wrapping_mul(
            FX_HASH_CONST,
        );
    }

    /// The current hash value.
    pub fn finish(&self) -> (r: u64)
        ensures
            r == self.hash,
    {
        self.hash
    }

    /// Folds a byte string into the state, word by word with a folded tail.
    #[verifier::loop_isolation(false)]
    #[verifier::rlimit(60)]
    pub fn write(&mut self, bytes: &Vec<u8>)
        ensures
            final(self).hash == fx_write(old(self).hash, bytes@),
    {
        let ghost h0 = self.hash;
        let mut pos: usize = 0;
        proof {
            assert(bytes@.skip(0) =~= bytes@);
        }
        while bytes.len() - pos >= 8
            invariant
                0 <= pos <= bytes.len(),
                fx_write(h0, bytes@) == fx_write(self.hash, bytes@.skip(pos as int)),
            decreases bytes.len() - pos,
        {
            let w = match take_first_chunk(bytes, pos, 8) {
                Some(c) => le_word_of(&c),
                None => {
                    proof {
                        assert(false);
                    }
                    0
                },
            };
            proof {
                let tail = bytes@.skip(pos as int);
                assert(tail.subrange(0, 8) =~= bytes@.subrange(pos as int, pos + 8));
                assert(tail.skip(8) =~= bytes@.skip(pos + 8));
            }
            self.add_to_hash(w);
            pos = pos + 8;
        }
        if bytes.len() - pos >= 4 {
            let w = match take_first_chunk(bytes, pos, 4) {
                Some(c) => le_word_of(&c),
                None => {
                    proof {
                        assert(false);
                    }
                    0
                },
            };
            proof {
                let tail = bytes@.skip(pos as int);
                assert(tail.subrange(0, 4) =~= bytes@.subrange(pos as int, pos + 4));
                assert(tail.skip(4) =~= bytes@.skip(pos + 4));
            }
            self.add_to_hash(w);
            pos = pos + 4;
            proof {
                assert(fx_write(h0, bytes@) == fx_write(self.hash, bytes@.skip(pos as int)));
            }
        }
        if bytes.len() - pos >= 2 {
            let w = match take_first_chunk(bytes, pos, 2) {
                Some(c) => le_word_of(&c),
                None => {
                    proof {
                        assert(false);
                    }
                    0
                },
            };
            proof {
                let tail = bytes@.skip(pos as int);
                assert(tail.subrange(0, 2) =~= bytes@.subrange(pos as int, pos + 2));
                assert(tail.skip(2) =~= bytes@.skip(pos + 2));
            }
            self.add_to_hash(w);
            pos = pos + 2;
            proof {
                assert(fx_write(h0, bytes@) == fx_write(self.hash, bytes@.skip(pos as int)));
            }
        }
        if bytes.len() - pos >= 1 {
            proof {
                let tail = bytes@.skip(pos as int);
                assert(tail[0] == bytes@[pos as int]);
            }
            self.add_to_hash(bytes[pos] as u64);
            pos = pos + 1;
            proof {
                assert(fx_write(h0, bytes@) == fx_write(self.hash, bytes@.skip(pos as int)));
            }
        }
        proof {
            assert(bytes@.skip(pos as int) =~= Seq::<u8>::empty());
        }
    }
}

impl Default for FxHasher {
    /// The initial state.
    fn default() -> (r: FxHasher)
        ensures
            r.hash == 0,
    {
        FxHasher { hash: 0 }
    }
}

} // verus!
