//! General properties of the lane algebra and of the two evaluation modes,
//! stated once over the specification the executable functions are verified
//! against.

use vstd::prelude::*;
use vstd::arithmetic::div_mod::lemma_small_mod;
use crate::bit::{Bit, bits_eval};
use crate::byte::Byte;
use crate::keccak::{bytes_eval, spec_rotl_lane, spec_sha3_256, spec_xor_lane, zero_lane};

verus! {

/// XOR of any lane with itself is the all-false lane.
pub proof fn lemma_xor_lane_self(a: Seq<bool>)
    ensures
        spec_xor_lane(a, a) == zero_lane(),
{
    assert(spec_xor_lane(a, a) =~= zero_lane());
}

/// Rotating a lane left by 64 positions, which is 0 modulo 64, is the
/// identity on the lane.
pub proof fn lemma_rotl_lane_full(a: Seq<bool>)
    requires
        a.len() == 64,
    ensures
        spec_rotl_lane(a, 64) == a,
        spec_rotl_lane(a, 0) == a,
{
    assert forall|j: int| 0 <= j < 64 implies #[trigger] spec_rotl_lane(a, 64)[j] == a[j]
        && #[trigger] spec_rotl_lane(a, 0)[j] == a[j] by {
        lemma_small_mod(j as nat, 64);
        assert((j + 64) % 64 == j % 64) by (nonlinear_arith);
    }
    assert(spec_rotl_lane(a, 64) =~= a);
    assert(spec_rotl_lane(a, 0) =~= a);
}

/// Concrete/symbolic equivalence: when a digest was computed from symbolic
/// input signals and another from concrete ones, and the symbolic input
/// resolves under the assignment `w` to the concrete input's values, the
/// symbolic digest resolves under `w` to the concrete digest. The premises
/// are exactly what `sha3_256` ensures of its result for the two messages.
pub proof fn lemma_concrete_symbolic_equivalence(
    sym_digest: Seq<Bit>,
    conc_digest: Seq<Bit>,
    sym_msg: Seq<Byte>,
    conc_msg: Seq<Byte>,
    w: Seq<bool>,
)
    requires
        forall|u: Seq<bool>| #[trigger] bits_eval(sym_digest, u)
            == spec_sha3_256(bytes_eval(sym_msg, u)),
        forall|u: Seq<bool>| #[trigger] bits_eval(conc_digest, u)
            == spec_sha3_256(bytes_eval(conc_msg, u)),
        bytes_eval(sym_msg, w) == bytes_eval(conc_msg, w),
    ensures
        bits_eval(sym_digest, w) == bits_eval(conc_digest, w),
{
    assert(bits_eval(sym_digest, w) == spec_sha3_256(bytes_eval(sym_msg, w)));
    assert(bits_eval(conc_digest, w) == spec_sha3_256(bytes_eval(conc_msg, w)));
}

} // verus!
