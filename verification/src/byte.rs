//! The octet: exactly eight signals in most-significant-bit-first order.

use vstd::prelude::*;
use crate::bit::{Bit, bits_eval, all_constant};
use crate::KeccakError;

verus! {

/// Bit `t` of the octet value `v`, most significant first.
pub open spec fn u8_bit(v: u8, t: int) -> bool {
    ((v >> ((7 - t) as u8)) & 1) == 1
}

/// The eight bits of the octet value `v`, most significant first.
pub open spec fn u8_bits(v: u8) -> Seq<bool> {
    Seq::new(8, |t: int| u8_bit(v, t))
}

/// Pairwise exclusive or of two octet values given as bit sequences.
pub open spec fn spec_byte_xor(x: Seq<bool>, y: Seq<bool>) -> Seq<bool> {
    Seq::new(8, |t: int| x[t] != y[t])
}

proof fn lemma_u8_or_bit(x: u8, s: u8, t: u8)
    requires
        s < 8,
        t < 8,
    ensures
        ((x | (1u8 << s)) >> s) & 1 == 1,
        s != t ==> ((x | (1u8 << s)) >> t) & 1 == (x >> t) & 1,
{
    assert(s < 8 ==> ((x | (1u8 << s)) >> s) & 1 == 1) by (bit_vector);
    assert(s < 8 && t < 8 && s != t ==> ((x | (1u8 << s)) >> t) & 1 == (x >> t) & 1)
        by (bit_vector);
}

/// A fixed aggregate of exactly eight signals, most significant bit first.
pub struct Byte {
    bits: Vec<Bit>,
}

impl View for Byte {
    type V = Seq<Bit>;

    closed spec fn view(&self) -> Seq<Bit> {
        self.bits@
    }
}

impl Byte {
    /// The octet invariant: exactly eight signals.
    pub open spec fn wf(self) -> bool {
        self@.len() == 8
    }

    /// An octet of constant signals holding the value `byte`.
    pub fn new(byte: u8) -> (r: Byte)
        ensures
            r.wf(),
            forall|t: int| 0 <= t < 8 ==> r@[t] == Bit::Constant(u8_bit(byte, t)),
            forall|w: Seq<bool>| #[trigger] bits_eval(r@, w) == u8_bits(byte),
            all_constant(r@),
    {
        let mut bits: Vec<Bit> = Vec::new();
        let mut j: usize = 0;
        while j < 8
            invariant
                j <= 8,
                bits@.len() == j as int,
                forall|t: int| 0 <= t < j ==> bits@[t] == Bit::Constant(u8_bit(byte, t)),
            decreases 8 - j,
        {
            let sh: u8 = (7 - j) as u8;
            let b: bool = ((byte >> sh) & 1) == 1;
            bits.push(Bit::constant(b));
            j += 1;
        }
        let r = Byte { bits };
        proof {
            assert forall|w: Seq<bool>| #[trigger] bits_eval(r@, w) == u8_bits(byte) by {
                assert(bits_eval(r@, w) =~= u8_bits(byte));
            }
        }
        r
    }

    /// An octet from exactly eight signals; the caller shows the length.
    pub fn of_bits(bits: Vec<Bit>) -> (r: Byte)
        requires
            bits@.len() == 8,
        ensures
            r.wf(),
            r@ == bits@,
    {
        Byte { bits }
    }

    /// An octet from a sequence of signals, rejected with a length error
    /// when the count is not exactly eight.
    pub fn from_bits(bits: Vec<Bit>) -> (r: Result<Byte, KeccakError>)
        ensures
            bits@.len() == 8 <==> r is Ok,
            r matches Ok(b) ==> b.wf() && b@ == bits@,
            r matches Err(e) ==> e == KeccakError::Length,
    {
        if bits.len() == 8 {
            Ok(Byte { bits })
        } else {
            Err(KeccakError::Length)
        }
    }

    /// The signals of the octet, each an independent copy.
    pub fn bits(&self) -> (r: Vec<Bit>)
        ensures
            r@ == self@,
    {
        let mut r: Vec<Bit> = Vec::new();
        let mut j: usize = 0;
        while j < self.bits.len()
            invariant
                j <= self.bits.len(),
                r@.len() == j as int,
                forall|t: int| 0 <= t < j ==> r@[t] == self@[t],
            decreases self.bits.len() - j,
        {
            r.push(self.bits[j].duplicate());
            j += 1;
        }
        proof {
            assert(r@ =~= self@);
        }
        r
    }

    /// A copy of the signal at position `t`, most significant bit first.
    pub fn bit_at(&self, t: usize) -> (r: Bit)
        requires
            t < self@.len(),
        ensures
            r == self@[t as int],
    {
        self.bits[t].duplicate()
    }

    /// Overwrites the signal at position `t`.
    pub fn set_bit(&mut self, t: usize, b: Bit)
        requires
            t < old(self)@.len(),
        ensures
            final(self)@ == old(self)@.update(t as int, b),
    {
        self.bits[t] = b;
    }

    /// The concrete value of a fully constant octet; an octet holding a
    /// symbolic signal is rejected instead.
    pub fn unwrap_constant(&self) -> (r: Result<u8, KeccakError>)
        requires
            self.wf(),
        ensures
            all_constant(self@) <==> r is Ok,
            r matches Ok(v) ==> forall|w: Seq<bool>|
                #[trigger] bits_eval(self@, w) == u8_bits(v),
            r matches Err(e) ==> e == KeccakError::NonConstant,
    {
        let mut acc: u8 = 0;
        let mut t: usize = 0;
        proof {
            assert(forall|s: u8| s < 8 ==> (0u8 >> s) & 1 == 0) by (bit_vector);
        }
        while t < 8
            invariant
                t <= 8,
                self.wf(),
                forall|tt: int| 0 <= tt < t ==> (#[trigger] self@[tt]) is Constant,
                forall|tt: int| 0 <= tt < t ==>
                    #[trigger] u8_bit(acc, tt) == self@[tt]->Constant_0,
                forall|tt: int| t <= tt < 8 ==> #[trigger] u8_bit(acc, tt) == false,
            decreases 8 - t,
        {
            let b = self.bits[t].duplicate();
            match b {
                Bit::Constant(c) => {
                    if c {
                        let sh: u8 = (7 - t) as u8;
                        proof {
                            let accg = acc;
                            assert forall|tt: int| 0 <= tt < 8 implies
                                #[trigger] u8_bit(accg | (1u8 << sh), tt)
                                    == (if tt == t { true } else { u8_bit(accg, tt) }) by {
                                lemma_u8_or_bit(accg, sh, (7 - tt) as u8);
                            }
                        }
                        acc = acc | (1u8 << sh);
                    }
                },
                _ => {
                    return Err(KeccakError::NonConstant);
                },
            }
            t += 1;
        }
        proof {
            assert forall|w: Seq<bool>| #[trigger] bits_eval(self@, w) == u8_bits(acc) by {
                assert(bits_eval(self@, w) =~= u8_bits(acc));
            }
        }
        Ok(acc)
    }

    /// Pairwise exclusive or with another octet; pure, no mutation.
    pub fn xor(&self, other: &Byte) -> (r: Byte)
        requires
            self.wf(),
            other.wf(),
        ensures
            r.wf(),
            forall|w: Seq<bool>| #[trigger] bits_eval(r@, w)
                == spec_byte_xor(bits_eval(self@, w), bits_eval(other@, w)),
            all_constant(self@) && all_constant(other@) ==> all_constant(r@),
            all_constant(r@) ==> all_constant(self@) && all_constant(other@),
    {
        let mut bits: Vec<Bit> = Vec::new();
        let mut t: usize = 0;
        while t < 8
            invariant
                t <= 8,
                self.wf(),
                other.wf(),
                bits@.len() == t as int,
                forall|w: Seq<bool>, tt: int| 0 <= tt < t ==>
                    #[trigger] bits@[tt].eval(w) == (self@[tt].eval(w) != other@[tt].eval(w)),
                forall|tt: int| 0 <= tt < t ==> ((#[trigger] bits@[tt]) is Constant
                    <==> self@[tt] is Constant && other@[tt] is Constant),
            decreases 8 - t,
        {
            let x = self.bits[t].xor(&other.bits[t]);
            bits.push(x);
            t += 1;
        }
        let ghost gbits = bits@;
        let r = Byte { bits };
        proof {
            assert(r@ == gbits);
            if all_constant(r@) {
                assert forall|tt: int| 0 <= tt < 8 implies
                    (#[trigger] self@[tt]) is Constant by {
                    assert(gbits[tt] is Constant);
                }
                assert forall|tt: int| 0 <= tt < 8 implies
                    (#[trigger] other@[tt]) is Constant by {
                    assert(gbits[tt] is Constant);
                }
                assert(all_constant(self@));
                assert(all_constant(other@));
            }
            if all_constant(self@) && all_constant(other@) {
                assert forall|tt: int| 0 <= tt < 8 implies
                    (#[trigger] gbits[tt]) is Constant by {
                    assert(self@[tt] is Constant && other@[tt] is Constant);
                }
                assert(all_constant(r@));
            }
            assert forall|w: Seq<bool>| #[trigger] bits_eval(r@, w)
                == spec_byte_xor(bits_eval(self@, w), bits_eval(other@, w)) by {
                assert(bits_eval(r@, w)
                    =~= spec_byte_xor(bits_eval(self@, w), bits_eval(other@, w)));
            }
        }
        r
    }
}

} // verus!
