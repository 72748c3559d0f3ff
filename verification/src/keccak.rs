//! The Keccak-f[1600] permutation and the sponge construction, evaluated over
//! signals, together with the boolean-level specification both are proved
//! against.
//!
//! Every executable function carries an `ensures` of the form: for every wire
//! assignment `w`, the values of the produced signals under `w` equal the
//! specification function applied to the values of the input signals under
//! `w`. On fully constant inputs the values do not depend on `w`, which is
//! the concrete evaluation mode; on symbolic inputs the same clause says the
//! built circuit resolves to the reference digest under every assignment.

use vstd::prelude::*;
use vstd::arithmetic::div_mod::{
    lemma_add_mod_noop, lemma_fundamental_div_mod_converse, lemma_mod_bound, lemma_small_mod,
};
use crate::bit::{Bit, bits_eval, all_constant};
use crate::byte::{Byte, u8_bits, spec_byte_xor};
use crate::KeccakError;

verus! {

// ---------------------------------------------------------------------------
// Boolean-level lanes: a lane is 64 booleans, index 0 the most significant
// bit of the 64-bit word.
// ---------------------------------------------------------------------------

/// The all-false lane.
pub open spec fn zero_lane() -> Seq<bool> {
    Seq::new(64, |j: int| false)
}

/// Position-wise exclusive or of two lanes.
pub open spec fn spec_xor_lane(x: Seq<bool>, y: Seq<bool>) -> Seq<bool> {
    Seq::new(64, |j: int| x[j] != y[j])
}

/// Position-wise complement-of-left and right.
pub open spec fn spec_notand_lane(x: Seq<bool>, y: Seq<bool>) -> Seq<bool> {
    Seq::new(64, |j: int| !x[j] && y[j])
}

/// Left rotation of a lane by `by` positions, modulo 64.
pub open spec fn spec_rotl_lane(x: Seq<bool>, by: nat) -> Seq<bool> {
    Seq::new(64, |j: int| x[(j + by) % 64])
}

/// The lane of a 64-bit constant, most significant bit first.
pub open spec fn spec_lane_of_u64(v: u64) -> Seq<bool> {
    Seq::new(64, |j: int| ((v >> ((63 - j) as u64)) & 1) == 1)
}

/// The values of a state of 25 signal lanes under the assignment `w`.
pub open spec fn lanes_eval(ls: Seq<Vec<Bit>>, w: Seq<bool>) -> Seq<Seq<bool>> {
    Seq::new(ls.len(), |k: int| bits_eval(ls[k]@, w))
}

/// The values of a sequence of octets under the assignment `w`.
pub open spec fn bytes_eval(bs: Seq<Byte>, w: Seq<bool>) -> Seq<Seq<bool>> {
    Seq::new(bs.len(), |i: int| bits_eval(bs[i]@, w))
}

/// 25 lanes of 64 signals each.
pub open spec fn lanes_wf(ls: Seq<Vec<Bit>>) -> bool {
    ls.len() == 25 && forall|k: int| 0 <= k < 25 ==> (#[trigger] ls[k])@.len() == 64
}

/// Every signal of every lane is constant.
pub open spec fn lanes_all_constant(ls: Seq<Vec<Bit>>) -> bool {
    forall|k: int| 0 <= k < ls.len() ==> all_constant((#[trigger] ls[k])@)
}

/// A well-formed permutation state: 200 octets of 8 signals.
pub open spec fn st_wf(st: Seq<Byte>) -> bool {
    st.len() == 200 && forall|i: int| 0 <= i < 200 ==> (#[trigger] st[i]).wf()
}

/// Well-formed octets (used for inputs of any length).
pub open spec fn bytes_wf(bs: Seq<Byte>) -> bool {
    forall|i: int| 0 <= i < bs.len() ==> (#[trigger] bs[i]).wf()
}

/// Every signal of every octet is constant.
pub open spec fn bytes_all_constant(bs: Seq<Byte>) -> bool {
    forall|i: int| 0 <= i < bs.len() ==> all_constant((#[trigger] bs[i])@)
}

// ---------------------------------------------------------------------------
// The fixed tables of Keccak-f[1600].
// ---------------------------------------------------------------------------

/// The round constant XOR-ed into lane 0 by Iota in round `i`.
pub open spec fn spec_rndc(i: int) -> u64 {
    if i == 0 { 0x0000000000000001u64 }
    else if i == 1 { 0x0000000000008082u64 }
    else if i == 2 { 0x800000000000808au64 }
    else if i == 3 { 0x8000000080008000u64 }
    else if i == 4 { 0x000000000000808bu64 }
    else if i == 5 { 0x0000000080000001u64 }
    else if i == 6 { 0x8000000080008081u64 }
    else if i == 7 { 0x8000000000008009u64 }
    else if i == 8 { 0x000000000000008au64 }
    else if i == 9 { 0x0000000000000088u64 }
    else if i == 10 { 0x0000000080008009u64 }
    else if i == 11 { 0x000000008000000au64 }
    else if i == 12 { 0x000000008000808bu64 }
    else if i == 13 { 0x800000000000008bu64 }
    else if i == 14 { 0x8000000000008089u64 }
    else if i == 15 { 0x8000000000008003u64 }
    else if i == 16 { 0x8000000000008002u64 }
    else if i == 17 { 0x8000000000000080u64 }
    else if i == 18 { 0x000000000000800au64 }
    else if i == 19 { 0x800000008000000au64 }
    else if i == 20 { 0x8000000080008081u64 }
    else if i == 21 { 0x8000000000008080u64 }
    else if i == 22 { 0x0000000080000001u64 }
    else { 0x8000000080008008u64 }
}

fn rndc_val(i: usize) -> (r: u64)
    requires
        i < 24,
    ensures
        r == spec_rndc(i as int),
{
    if i == 0 { 0x0000000000000001u64 }
    else if i == 1 { 0x0000000000008082u64 }
    else if i == 2 { 0x800000000000808au64 }
    else if i == 3 { 0x8000000080008000u64 }
    else if i == 4 { 0x000000000000808bu64 }
    else if i == 5 { 0x0000000080000001u64 }
    else if i == 6 { 0x8000000080008081u64 }
    else if i == 7 { 0x8000000000008009u64 }
    else if i == 8 { 0x000000000000008au64 }
    else if i == 9 { 0x0000000000000088u64 }
    else if i == 10 { 0x0000000080008009u64 }
    else if i == 11 { 0x000000008000000au64 }
    else if i == 12 { 0x000000008000808bu64 }
    else if i == 13 { 0x800000000000008bu64 }
    else if i == 14 { 0x8000000000008089u64 }
    else if i == 15 { 0x8000000000008003u64 }
    else if i == 16 { 0x8000000000008002u64 }
    else if i == 17 { 0x8000000000000080u64 }
    else if i == 18 { 0x000000000000800au64 }
    else if i == 19 { 0x800000008000000au64 }
    else if i == 20 { 0x8000000080008081u64 }
    else if i == 21 { 0x8000000000008080u64 }
    else if i == 22 { 0x0000000080000001u64 }
    else { 0x8000000080008008u64 }
}

/// For Rho-Pi, read off by destination: the lane whose rotation lands at
/// position `k` (position 0 keeps its lane). Together with [`spec_pi_rot`]
/// this is the reference algorithm's single sequential pass over the lane
/// permutation cycle, written as a map from each destination to its source.
pub open spec fn spec_pi_src(k: int) -> int {
    if k == 1 { 6 } else if k == 2 { 12 } else if k == 3 { 18 }
    else if k == 4 { 24 } else if k == 5 { 3 } else if k == 6 { 9 }
    else if k == 7 { 10 } else if k == 8 { 16 } else if k == 9 { 22 }
    else if k == 10 { 1 } else if k == 11 { 7 } else if k == 12 { 13 }
    else if k == 13 { 19 } else if k == 14 { 20 } else if k == 15 { 4 }
    else if k == 16 { 5 } else if k == 17 { 11 } else if k == 18 { 17 }
    else if k == 19 { 23 } else if k == 20 { 2 } else if k == 21 { 8 }
    else if k == 22 { 14 } else if k == 23 { 15 } else { 21 }
}

/// For Rho-Pi: the left rotation applied to the lane arriving at `k`.
pub open spec fn spec_pi_rot(k: int) -> nat {
    if k == 1 { 44 } else if k == 2 { 43 } else if k == 3 { 21 }
    else if k == 4 { 14 } else if k == 5 { 28 } else if k == 6 { 20 }
    else if k == 7 { 3 } else if k == 8 { 45 } else if k == 9 { 61 }
    else if k == 10 { 1 } else if k == 11 { 6 } else if k == 12 { 25 }
    else if k == 13 { 8 } else if k == 14 { 18 } else if k == 15 { 27 }
    else if k == 16 { 36 } else if k == 17 { 10 } else if k == 18 { 15 }
    else if k == 19 { 56 } else if k == 20 { 62 } else if k == 21 { 55 }
    else if k == 22 { 39 } else if k == 23 { 41 } else { 2 }
}

fn pi_src(k: usize) -> (r: usize)
    requires
        1 <= k < 25,
    ensures
        r == spec_pi_src(k as int),
        r < 25,
{
    if k == 1 { 6 } else if k == 2 { 12 } else if k == 3 { 18 }
    else if k == 4 { 24 } else if k == 5 { 3 } else if k == 6 { 9 }
    else if k == 7 { 10 } else if k == 8 { 16 } else if k == 9 { 22 }
    else if k == 10 { 1 } else if k == 11 { 7 } else if k == 12 { 13 }
    else if k == 13 { 19 } else if k == 14 { 20 } else if k == 15 { 4 }
    else if k == 16 { 5 } else if k == 17 { 11 } else if k == 18 { 17 }
    else if k == 19 { 23 } else if k == 20 { 2 } else if k == 21 { 8 }
    else if k == 22 { 14 } else if k == 23 { 15 } else { 21 }
}

fn pi_rot(k: usize) -> (r: usize)
    requires
        1 <= k < 25,
    ensures
        r == spec_pi_rot(k as int),
{
    if k == 1 { 44 } else if k == 2 { 43 } else if k == 3 { 21 }
    else if k == 4 { 14 } else if k == 5 { 28 } else if k == 6 { 20 }
    else if k == 7 { 3 } else if k == 8 { 45 } else if k == 9 { 61 }
    else if k == 10 { 1 } else if k == 11 { 6 } else if k == 12 { 25 }
    else if k == 13 { 8 } else if k == 14 { 18 } else if k == 15 { 27 }
    else if k == 16 { 36 } else if k == 17 { 10 } else if k == 18 { 15 }
    else if k == 19 { 56 } else if k == 20 { 62 } else if k == 21 { 55 }
    else if k == 22 { 39 } else if k == 23 { 41 } else { 2 }
}

// ---------------------------------------------------------------------------
// The boolean-level round function.
// ---------------------------------------------------------------------------

/// Theta: the parity of column `i`.
pub open spec fn spec_parity(st: Seq<Seq<bool>>, i: int) -> Seq<bool> {
    spec_xor_lane(
        spec_xor_lane(
            spec_xor_lane(spec_xor_lane(st[i], st[i + 5]), st[i + 10]),
            st[i + 15],
        ),
        st[i + 20],
    )
}

/// Theta: the lane XOR-ed into every lane of column `i`.
pub open spec fn spec_theta_d(st: Seq<Seq<bool>>, i: int) -> Seq<bool> {
    spec_xor_lane(
        spec_parity(st, (i + 4) % 5),
        spec_rotl_lane(spec_parity(st, (i + 1) % 5), 1),
    )
}

/// Theta, over the whole state.
pub open spec fn spec_theta(st: Seq<Seq<bool>>) -> Seq<Seq<bool>> {
    Seq::new(25, |k: int| spec_xor_lane(spec_theta_d(st, k % 5), st[k]))
}

/// Rho and Pi: each lane is rotated and relocated; lane 0 stays.
pub open spec fn spec_rho_pi(st: Seq<Seq<bool>>) -> Seq<Seq<bool>> {
    Seq::new(
        25,
        |k: int| if k == 0 { st[0] } else { spec_rotl_lane(st[spec_pi_src(k)], spec_pi_rot(k)) },
    )
}

/// Chi: each lane combined with the two next lanes of its row.
pub open spec fn spec_chi(st: Seq<Seq<bool>>) -> Seq<Seq<bool>> {
    Seq::new(
        25,
        |k: int| spec_xor_lane(
            st[k],
            spec_notand_lane(
                st[5 * (k / 5) + (k % 5 + 1) % 5],
                st[5 * (k / 5) + (k % 5 + 2) % 5],
            ),
        ),
    )
}

/// Iota: the round constant of round `r` XOR-ed into lane 0.
pub open spec fn spec_iota(st: Seq<Seq<bool>>, r: int) -> Seq<Seq<bool>> {
    st.update(0, spec_xor_lane(st[0], spec_lane_of_u64(spec_rndc(r))))
}

/// One round of Keccak-f[1600].
pub open spec fn spec_round(st: Seq<Seq<bool>>, r: int) -> Seq<Seq<bool>> {
    spec_iota(spec_chi(spec_rho_pi(spec_theta(st))), r)
}

/// `rounds` rounds of Keccak-f[1600], starting at round 0.
pub open spec fn spec_keccakf_lanes(st: Seq<Seq<bool>>, rounds: nat) -> Seq<Seq<bool>>
    decreases rounds,
{
    if rounds == 0 {
        st
    } else {
        spec_round(spec_keccakf_lanes(st, (rounds - 1) as nat), rounds - 1)
    }
}

// ---------------------------------------------------------------------------
// Octets against lanes: the one place byte order is resolved. A lane gathers
// eight consecutive octets in reverse octet order (little-endian words),
// keeping each octet's own most-significant-bit-first order.
// ---------------------------------------------------------------------------

/// The 25 lanes of a 200-octet state of boolean values.
pub open spec fn lanes_of_bytes(bs: Seq<Seq<bool>>) -> Seq<Seq<bool>> {
    Seq::new(25, |k: int| Seq::new(64, |j: int| bs[8 * k + 7 - j / 8][j % 8]))
}

/// The 200 octets of a 25-lane state of boolean values.
pub open spec fn bytes_of_lanes(ls: Seq<Seq<bool>>) -> Seq<Seq<bool>> {
    Seq::new(200, |b: int| Seq::new(8, |t: int| ls[b / 8][(7 - b % 8) * 8 + t]))
}

/// Keccak-f[1600] on a 200-octet boolean state.
pub open spec fn spec_keccakf(bs: Seq<Seq<bool>>, rounds: nat) -> Seq<Seq<bool>> {
    bytes_of_lanes(spec_keccakf_lanes(lanes_of_bytes(bs), rounds))
}

// ---------------------------------------------------------------------------
// The boolean-level sponge.
// ---------------------------------------------------------------------------

/// The all-zero 200-octet state.
pub open spec fn spec_zero_state() -> Seq<Seq<bool>> {
    Seq::new(200, |b: int| u8_bits(0))
}

/// XOR the octet value `x` into state position `i`.
pub open spec fn spec_xor_byte_at(st: Seq<Seq<bool>>, i: int, x: Seq<bool>) -> Seq<Seq<bool>> {
    st.update(i, spec_byte_xor(st[i], x))
}

/// Absorbing: octets are XOR-ed in at the running position; a filled
/// rate-sized block triggers the permutation. Yields the state and the
/// position reached inside the current block.
pub open spec fn spec_absorb(
    rb: nat,
    rounds: nat,
    st: Seq<Seq<bool>>,
    pos: nat,
    input: Seq<Seq<bool>>,
) -> (Seq<Seq<bool>>, nat)
    decreases input.len(),
{
    if input.len() == 0 {
        (st, pos)
    } else {
        let st1 = spec_xor_byte_at(st, pos as int, input[0]);
        if pos + 1 == rb {
            spec_absorb(rb, rounds, spec_keccakf(st1, rounds), 0, input.drop_first())
        } else {
            spec_absorb(rb, rounds, st1, pos + 1, input.drop_first())
        }
    }
}

/// Multi-rate padding: the domain suffix at the next free position, an extra
/// permutation when a high-bit suffix lands on the last rate octet, then
/// `0x80` into the last rate octet and one unconditional permutation.
pub open spec fn spec_pad(
    rb: nat,
    rounds: nat,
    st: Seq<Seq<bool>>,
    pos: nat,
    suffix: u8,
) -> Seq<Seq<bool>> {
    let st1 = spec_xor_byte_at(st, pos as int, u8_bits(suffix));
    let st2 = if (suffix & 0x80) != 0 && pos == rb - 1 {
        spec_keccakf(st1, rounds)
    } else {
        st1
    };
    let st3 = spec_xor_byte_at(st2, rb - 1, u8_bits(0x80));
    spec_keccakf(st3, rounds)
}

/// Squeezing: rate-sized prefixes of the state, with a permutation between
/// emissions, until `mdlen` octets are produced.
pub open spec fn spec_squeeze(
    rb: nat,
    rounds: nat,
    st: Seq<Seq<bool>>,
    mdlen: nat,
) -> Seq<Seq<bool>>
    decreases mdlen,
{
    if mdlen == 0 || rb == 0 {
        Seq::empty()
    } else if mdlen <= rb {
        st.take(mdlen as int)
    } else {
        st.take(rb as int) + spec_squeeze(rb, rounds, spec_keccakf(st, rounds), (mdlen - rb) as nat)
    }
}

/// Octets flattened to their bits, octet order and bit order preserved.
pub open spec fn spec_flatten(bs: Seq<Seq<bool>>) -> Seq<bool> {
    Seq::new(bs.len() * 8, |i: int| bs[i / 8][i % 8])
}

/// A sponge configuration is valid when rate and capacity split the 1600-bit
/// state into whole octets, at least one of them in the rate.
pub open spec fn spec_valid_config(rate: nat, capacity: nat) -> bool {
    rate + capacity == 1600 && rate % 8 == 0 && rate >= 8
}

/// The state after absorbing `input` from the all-zero state and padding.
pub open spec fn spec_after_pad(
    rb: nat,
    rounds: nat,
    input: Seq<Seq<bool>>,
    suffix: u8,
) -> Seq<Seq<bool>> {
    let a = spec_absorb(rb, rounds, spec_zero_state(), 0, input);
    spec_pad(rb, rounds, a.0, a.1, suffix)
}

/// The whole sponge: the digest bits for a valid configuration.
pub open spec fn spec_keccak(
    rate: nat,
    input: Seq<Seq<bool>>,
    suffix: u8,
    mdlen: nat,
    rounds: nat,
) -> Seq<bool> {
    let rb = rate / 8;
    spec_flatten(spec_squeeze(rb, rounds, spec_after_pad(rb, rounds, input, suffix), mdlen))
}

/// The FIPS-202 SHA3-256 parameterization of the sponge.
pub open spec fn spec_sha3_256(input: Seq<Seq<bool>>) -> Seq<bool> {
    spec_keccak(1088, input, 0x06, 32, 24)
}

/// Absorbing a whole message, from the fresh all-zero state.
pub open spec fn spec_absorb_all(rb: nat, rounds: nat, input: Seq<Seq<bool>>) -> (
    Seq<Seq<bool>>,
    nat,
) {
    spec_absorb(rb, rounds, spec_zero_state(), 0, input)
}

/// Absorption is positional: absorbing the concatenation of two octet
/// sequences is absorbing the first and then the second from the state and
/// position the first left behind. Splitting a message anywhere changes
/// nothing.
pub proof fn lemma_absorb_append(
    rb: nat,
    rounds: nat,
    st: Seq<Seq<bool>>,
    pos: nat,
    a: Seq<Seq<bool>>,
    b: Seq<Seq<bool>>,
)
    ensures
        spec_absorb(rb, rounds, st, pos, a + b) == spec_absorb(
            rb,
            rounds,
            spec_absorb(rb, rounds, st, pos, a).0,
            spec_absorb(rb, rounds, st, pos, a).1,
            b,
        ),
    decreases a.len(),
{
    if a.len() == 0 {
        assert(a + b =~= b);
    } else {
        let st1 = spec_xor_byte_at(st, pos as int, a[0]);
        assert((a + b).drop_first() =~= a.drop_first() + b);
        assert((a + b)[0] == a[0]);
        if pos + 1 == rb {
            lemma_absorb_append(rb, rounds, spec_keccakf(st1, rounds), 0, a.drop_first(), b);
        } else {
            lemma_absorb_append(rb, rounds, st1, pos + 1, a.drop_first(), b);
        }
    }
}

// ---------------------------------------------------------------------------
// Executable lane algebra. Each operation returns fresh signals and mutates
// nothing.
// ---------------------------------------------------------------------------

/// Position-wise exclusive or of two signal lanes.
pub fn lane_xor(a: &Vec<Bit>, b: &Vec<Bit>) -> (r: Vec<Bit>)
    requires
        a@.len() == 64,
        b@.len() == 64,
    ensures
        r@.len() == 64,
        forall|w: Seq<bool>| #[trigger] bits_eval(r@, w)
            == spec_xor_lane(bits_eval(a@, w), bits_eval(b@, w)),
        all_constant(a@) && all_constant(b@) ==> all_constant(r@),
{
    let mut r: Vec<Bit> = Vec::new();
    let mut j: usize = 0;
    while j < 64
        invariant
            a@.len() == 64,
            b@.len() == 64,
            j <= 64,
            r@.len() == j as int,
            forall|w: Seq<bool>, t: int| 0 <= t < j ==>
                #[trigger] r@[t].eval(w) == (a@[t].eval(w) != b@[t].eval(w)),
            forall|t: int| 0 <= t < j && a@[t] is Constant && b@[t] is Constant
                ==> (#[trigger] r@[t]) is Constant,
        decreases 64 - j,
    {
        let x = a[j].xor(&b[j]);
        r.push(x);
        j += 1;
    }
    proof {
        assert forall|w: Seq<bool>| #[trigger] bits_eval(r@, w)
            == spec_xor_lane(bits_eval(a@, w), bits_eval(b@, w)) by {
            assert(bits_eval(r@, w) =~= spec_xor_lane(bits_eval(a@, w), bits_eval(b@, w)));
        }
    }
    r
}

/// Position-wise complement-of-left and right of two signal lanes.
pub fn lane_notand(a: &Vec<Bit>, b: &Vec<Bit>) -> (r: Vec<Bit>)
    requires
        a@.len() == 64,
        b@.len() == 64,
    ensures
        r@.len() == 64,
        forall|w: Seq<bool>| #[trigger] bits_eval(r@, w)
            == spec_notand_lane(bits_eval(a@, w), bits_eval(b@, w)),
        all_constant(a@) && all_constant(b@) ==> all_constant(r@),
{
    let mut r: Vec<Bit> = Vec::new();
    let mut j: usize = 0;
    while j < 64
        invariant
            a@.len() == 64,
            b@.len() == 64,
            j <= 64,
            r@.len() == j as int,
            forall|w: Seq<bool>, t: int| 0 <= t < j ==>
                #[trigger] r@[t].eval(w) == (!a@[t].eval(w) && b@[t].eval(w)),
            forall|t: int| 0 <= t < j && a@[t] is Constant && b@[t] is Constant
                ==> (#[trigger] r@[t]) is Constant,
        decreases 64 - j,
    {
        let x = a[j].notand(&b[j]);
        r.push(x);
        j += 1;
    }
    proof {
        assert forall|w: Seq<bool>| #[trigger] bits_eval(r@, w)
            == spec_notand_lane(bits_eval(a@, w), bits_eval(b@, w)) by {
            assert(bits_eval(r@, w) =~= spec_notand_lane(bits_eval(a@, w), bits_eval(b@, w)));
        }
    }
    r
}

/// Left rotation of a signal lane by `by` positions, modulo 64.
pub fn lane_rotl(a: &Vec<Bit>, by: usize) -> (r: Vec<Bit>)
    requires
        a@.len() == 64,
    ensures
        r@.len() == 64,
        forall|w: Seq<bool>| #[trigger] bits_eval(r@, w)
            == spec_rotl_lane(bits_eval(a@, w), by as nat),
        all_constant(a@) ==> all_constant(r@),
{
    let base: usize = by % 64;
    let mut r: Vec<Bit> = Vec::new();
    let mut j: usize = 0;
    while j < 64
        invariant
            a@.len() == 64,
            base == by % 64,
            base < 64,
            j <= 64,
            r@.len() == j as int,
            forall|t: int| 0 <= t < j ==> #[trigger] r@[t] == a@[(t + by as int) % 64],
        decreases 64 - j,
    {
        let idx: usize = (base + j) % 64;
        proof {
            lemma_small_mod(j as nat, 64);
            lemma_add_mod_noop(by as int, j as int, 64);
            lemma_mod_bound(by as int + j as int, 64);
            assert(idx as int == (j as int + by as int) % 64);
        }
        let x = a[idx].duplicate();
        r.push(x);
        j += 1;
    }
    proof {
        assert forall|w: Seq<bool>| #[trigger] bits_eval(r@, w)
            == spec_rotl_lane(bits_eval(a@, w), by as nat) by {
            assert forall|t: int| 0 <= t < 64 implies
                bits_eval(r@, w)[t] == spec_rotl_lane(bits_eval(a@, w), by as nat)[t] by {
                lemma_mod_bound(t + by as int, 64);
            }
            assert(bits_eval(r@, w) =~= spec_rotl_lane(bits_eval(a@, w), by as nat));
        }
    }
    r
}

/// An independent copy of a signal lane.
pub fn lane_dup(a: &Vec<Bit>) -> (r: Vec<Bit>)
    requires
        a@.len() == 64,
    ensures
        r@ == a@,
{
    let mut r: Vec<Bit> = Vec::new();
    let mut j: usize = 0;
    while j < 64
        invariant
            a@.len() == 64,
            j <= 64,
            r@.len() == j as int,
            forall|t: int| 0 <= t < j ==> #[trigger] r@[t] == a@[t],
        decreases 64 - j,
    {
        let x = a[j].duplicate();
        r.push(x);
        j += 1;
    }
    proof {
        assert(r@ =~= a@);
    }
    r
}

/// The constant signal lane of a 64-bit word, for injecting round constants.
pub fn lane_of_u64(v: u64) -> (r: Vec<Bit>)
    ensures
        r@.len() == 64,
        forall|w: Seq<bool>| #[trigger] bits_eval(r@, w) == spec_lane_of_u64(v),
        all_constant(r@),
{
    let mut r: Vec<Bit> = Vec::new();
    let mut j: usize = 0;
    while j < 64
        invariant
            j <= 64,
            r@.len() == j as int,
            forall|t: int| 0 <= t < j ==>
                #[trigger] r@[t] == Bit::Constant(((v >> ((63 - t) as u64)) & 1) == 1),
        decreases 64 - j,
    {
        let sh: u64 = (63 - j) as u64;
        r.push(Bit::constant(((v >> sh) & 1) == 1));
        j += 1;
    }
    proof {
        assert forall|w: Seq<bool>| #[trigger] bits_eval(r@, w) == spec_lane_of_u64(v) by {
            assert(bits_eval(r@, w) =~= spec_lane_of_u64(v));
        }
    }
    r
}

// ---------------------------------------------------------------------------
// The executable round function. Each step reads the previous state and
// builds the 25 new lanes from fresh signals, so every input a position needs
// is taken before anything is overwritten.
// ---------------------------------------------------------------------------

fn theta_step(lanes: &Vec<Vec<Bit>>) -> (r: Vec<Vec<Bit>>)
    requires
        lanes_wf(lanes@),
    ensures
        lanes_wf(r@),
        forall|w: Seq<bool>| #[trigger] lanes_eval(r@, w) == spec_theta(lanes_eval(lanes@, w)),
        lanes_all_constant(lanes@) ==> lanes_all_constant(r@),
{
    let mut bc: Vec<Vec<Bit>> = Vec::new();
    let mut i: usize = 0;
    while i < 5
        invariant
            lanes_wf(lanes@),
            i <= 5,
            bc@.len() == i as int,
            forall|k: int| 0 <= k < i ==> (#[trigger] bc@[k])@.len() == 64,
            forall|w: Seq<bool>, k: int| 0 <= k < i ==>
                #[trigger] bits_eval(bc@[k]@, w) == spec_parity(lanes_eval(lanes@, w), k),
            lanes_all_constant(lanes@) ==>
                forall|k: int| 0 <= k < i ==> all_constant((#[trigger] bc@[k])@),
        decreases 5 - i,
    {
        let t1 = lane_xor(&lanes[i], &lanes[i + 5]);
        let t2 = lane_xor(&t1, &lanes[i + 10]);
        let t3 = lane_xor(&t2, &lanes[i + 15]);
        let p = lane_xor(&t3, &lanes[i + 20]);
        proof {
            assert forall|w: Seq<bool>| #[trigger] bits_eval(p@, w)
                == spec_parity(lanes_eval(lanes@, w), i as int) by {
                let s = lanes_eval(lanes@, w);
                assert(bits_eval(t1@, w)
                    == spec_xor_lane(bits_eval(lanes@[i as int]@, w), bits_eval(lanes@[i as int + 5]@, w)));
                assert(bits_eval(t2@, w)
                    == spec_xor_lane(bits_eval(t1@, w), bits_eval(lanes@[i as int + 10]@, w)));
                assert(bits_eval(t3@, w)
                    == spec_xor_lane(bits_eval(t2@, w), bits_eval(lanes@[i as int + 15]@, w)));
                assert(bits_eval(p@, w)
                    == spec_xor_lane(bits_eval(t3@, w), bits_eval(lanes@[i as int + 20]@, w)));
            }
        }
        bc.push(p);
        i += 1;
    }
    let mut r: Vec<Vec<Bit>> = Vec::new();
    let mut k: usize = 0;
    while k < 25
        invariant
            lanes_wf(lanes@),
            bc@.len() == 5,
            forall|kk: int| 0 <= kk < 5 ==> (#[trigger] bc@[kk])@.len() == 64,
            forall|w: Seq<bool>, kk: int| 0 <= kk < 5 ==>
                #[trigger] bits_eval(bc@[kk]@, w) == spec_parity(lanes_eval(lanes@, w), kk),
            lanes_all_constant(lanes@) ==>
                forall|kk: int| 0 <= kk < 5 ==> all_constant((#[trigger] bc@[kk])@),
            k <= 25,
            r@.len() == k as int,
            forall|kk: int| 0 <= kk < k ==> (#[trigger] r@[kk])@.len() == 64,
            forall|w: Seq<bool>, kk: int| 0 <= kk < k ==>
                #[trigger] bits_eval(r@[kk]@, w) == spec_theta(lanes_eval(lanes@, w))[kk],
            lanes_all_constant(lanes@) ==>
                forall|kk: int| 0 <= kk < k ==> all_constant((#[trigger] r@[kk])@),
        decreases 25 - k,
    {
        let i: usize = k % 5;
        let rot = lane_rotl(&bc[(i + 1) % 5], 1);
        let d = lane_xor(&bc[(i + 4) % 5], &rot);
        let nl = lane_xor(&d, &lanes[k]);
        proof {
            assert forall|w: Seq<bool>| #[trigger] bits_eval(nl@, w)
                == spec_theta(lanes_eval(lanes@, w))[k as int] by {
                let s = lanes_eval(lanes@, w);
                let ii = k as int % 5;
                assert(bits_eval(rot@, w)
                    == spec_rotl_lane(bits_eval(bc@[(ii + 1) % 5]@, w), 1));
                assert(bits_eval(d@, w)
                    == spec_xor_lane(bits_eval(bc@[(ii + 4) % 5]@, w), bits_eval(rot@, w)));
                assert(bits_eval(nl@, w)
                    == spec_xor_lane(bits_eval(d@, w), bits_eval(lanes@[k as int]@, w)));
                assert(bits_eval(d@, w) == spec_theta_d(s, ii));
                assert(spec_theta(s)[k as int] == spec_xor_lane(spec_theta_d(s, ii), s[k as int]));
            }
        }
        r.push(nl);
        k += 1;
    }
    proof {
        assert forall|w: Seq<bool>| #[trigger] lanes_eval(r@, w)
            == spec_theta(lanes_eval(lanes@, w)) by {
            assert(lanes_eval(r@, w) =~= spec_theta(lanes_eval(lanes@, w)));
        }
    }
    r
}

fn rho_pi_step(lanes: &Vec<Vec<Bit>>) -> (r: Vec<Vec<Bit>>)
    requires
        lanes_wf(lanes@),
    ensures
        lanes_wf(r@),
        forall|w: Seq<bool>| #[trigger] lanes_eval(r@, w) == spec_rho_pi(lanes_eval(lanes@, w)),
        lanes_all_constant(lanes@) ==> lanes_all_constant(r@),
{
    let mut r: Vec<Vec<Bit>> = Vec::new();
    let first = lane_dup(&lanes[0]);
    r.push(first);
    let mut k: usize = 1;
    while k < 25
        invariant
            lanes_wf(lanes@),
            1 <= k <= 25,
            r@.len() == k as int,
            forall|kk: int| 0 <= kk < k ==> (#[trigger] r@[kk])@.len() == 64,
            forall|w: Seq<bool>, kk: int| 0 <= kk < k ==>
                #[trigger] bits_eval(r@[kk]@, w) == spec_rho_pi(lanes_eval(lanes@, w))[kk],
            lanes_all_constant(lanes@) ==>
                forall|kk: int| 0 <= kk < k ==> all_constant((#[trigger] r@[kk])@),
        decreases 25 - k,
    {
        let s = pi_src(k);
        let m = pi_rot(k);
        let nl = lane_rotl(&lanes[s], m);
        proof {
            assert forall|w: Seq<bool>| #[trigger] bits_eval(nl@, w)
                == spec_rho_pi(lanes_eval(lanes@, w))[k as int] by {
                let sv = lanes_eval(lanes@, w);
                assert(bits_eval(nl@, w)
                    == spec_rotl_lane(bits_eval(lanes@[s as int]@, w), m as nat));
                assert(sv[s as int] == bits_eval(lanes@[s as int]@, w));
                assert(spec_rho_pi(sv)[k as int]
                    == spec_rotl_lane(sv[spec_pi_src(k as int)], spec_pi_rot(k as int)));
            }
        }
        r.push(nl);
        k += 1;
    }
    proof {
        assert forall|w: Seq<bool>| #[trigger] lanes_eval(r@, w)
            == spec_rho_pi(lanes_eval(lanes@, w)) by {
            assert(lanes_eval(r@, w) =~= spec_rho_pi(lanes_eval(lanes@, w)));
        }
    }
    r
}

fn chi_step(lanes: &Vec<Vec<Bit>>) -> (r: Vec<Vec<Bit>>)
    requires
        lanes_wf(lanes@),
    ensures
        lanes_wf(r@),
        forall|w: Seq<bool>| #[trigger] lanes_eval(r@, w) == spec_chi(lanes_eval(lanes@, w)),
        lanes_all_constant(lanes@) ==> lanes_all_constant(r@),
{
    let mut r: Vec<Vec<Bit>> = Vec::new();
    let mut k: usize = 0;
    while k < 25
        invariant
            lanes_wf(lanes@),
            k <= 25,
            r@.len() == k as int,
            forall|kk: int| 0 <= kk < k ==> (#[trigger] r@[kk])@.len() == 64,
            forall|w: Seq<bool>, kk: int| 0 <= kk < k ==>
                #[trigger] bits_eval(r@[kk]@, w) == spec_chi(lanes_eval(lanes@, w))[kk],
            lanes_all_constant(lanes@) ==>
                forall|kk: int| 0 <= kk < k ==> all_constant((#[trigger] r@[kk])@),
        decreases 25 - k,
    {
        proof {
            assert(k as int / 5 <= 4) by (nonlinear_arith)
                requires 0 <= k < 25;
        }
        let row: usize = (k / 5) * 5;
        let i: usize = k % 5;
        let nd = lane_notand(&lanes[row + (i + 1) % 5], &lanes[row + (i + 2) % 5]);
        let nl = lane_xor(&lanes[k], &nd);
        proof {
            assert forall|w: Seq<bool>| #[trigger] bits_eval(nl@, w)
                == spec_chi(lanes_eval(lanes@, w))[k as int] by {
                let s = lanes_eval(lanes@, w);
                let rowi = 5 * (k as int / 5);
                let ii = k as int % 5;
                assert(bits_eval(nd@, w) == spec_notand_lane(
                    bits_eval(lanes@[rowi + (ii + 1) % 5]@, w),
                    bits_eval(lanes@[rowi + (ii + 2) % 5]@, w),
                ));
                assert(bits_eval(nl@, w)
                    == spec_xor_lane(bits_eval(lanes@[k as int]@, w), bits_eval(nd@, w)));
                assert(spec_chi(s)[k as int] == spec_xor_lane(
                    s[k as int],
                    spec_notand_lane(s[rowi + (ii + 1) % 5], s[rowi + (ii + 2) % 5]),
                ));
            }
        }
        r.push(nl);
        k += 1;
    }
    proof {
        assert forall|w: Seq<bool>| #[trigger] lanes_eval(r@, w)
            == spec_chi(lanes_eval(lanes@, w)) by {
            assert(lanes_eval(r@, w) =~= spec_chi(lanes_eval(lanes@, w)));
        }
    }
    r
}

fn iota_step(lanes: &mut Vec<Vec<Bit>>, round: usize)
    requires
        lanes_wf(old(lanes)@),
        round < 24,
    ensures
        lanes_wf(final(lanes)@),
        forall|w: Seq<bool>| #[trigger] lanes_eval(final(lanes)@, w)
            == spec_iota(lanes_eval(old(lanes)@, w), round as int),
        lanes_all_constant(old(lanes)@) ==> lanes_all_constant(final(lanes)@),
{
    let rc = lane_of_u64(rndc_val(round));
    let nl = lane_xor(&lanes[0], &rc);
    lanes[0] = nl;
    proof {
        assert forall|w: Seq<bool>| #[trigger] lanes_eval(lanes@, w)
            == spec_iota(lanes_eval(old(lanes)@, w), round as int) by {
            let s = lanes_eval(old(lanes)@, w);
            assert(bits_eval(nl@, w)
                == spec_xor_lane(bits_eval(old(lanes)@[0]@, w), bits_eval(rc@, w)));
            assert(lanes_eval(lanes@, w) =~= spec_iota(s, round as int));
        }
    }
}

// ---------------------------------------------------------------------------
// The permutation driver on the 200-octet state.
// ---------------------------------------------------------------------------

fn lanes_from_state(st: &Vec<Byte>) -> (r: Vec<Vec<Bit>>)
    requires
        st_wf(st@),
    ensures
        lanes_wf(r@),
        forall|w: Seq<bool>| #[trigger] lanes_eval(r@, w) == lanes_of_bytes(bytes_eval(st@, w)),
        bytes_all_constant(st@) ==> lanes_all_constant(r@),
{
    let mut r: Vec<Vec<Bit>> = Vec::new();
    let mut k: usize = 0;
    while k < 25
        invariant
            st_wf(st@),
            k <= 25,
            r@.len() == k as int,
            forall|kk: int| 0 <= kk < k ==> (#[trigger] r@[kk])@.len() == 64,
            forall|w: Seq<bool>, kk: int| 0 <= kk < k ==>
                #[trigger] bits_eval(r@[kk]@, w) == lanes_of_bytes(bytes_eval(st@, w))[kk],
            bytes_all_constant(st@) ==>
                forall|kk: int| 0 <= kk < k ==> all_constant((#[trigger] r@[kk])@),
        decreases 25 - k,
    {
        let mut lane: Vec<Bit> = Vec::new();
        let mut j: usize = 0;
        while j < 64
            invariant
                st_wf(st@),
                k < 25,
                j <= 64,
                lane@.len() == j as int,
                forall|t: int| 0 <= t < j ==>
                    #[trigger] lane@[t] == st@[8 * (k as int) + 7 - t / 8]@[t % 8],
            decreases 64 - j,
        {
            proof {
                assert(j as int / 8 <= 7) by (nonlinear_arith)
                    requires 0 <= j < 64;
                lemma_mod_bound(j as int, 8);
            }
            let bidx: usize = 8 * k + 7 - j / 8;
            let x = st[bidx].bit_at(j % 8);
            lane.push(x);
            j += 1;
        }
        proof {
            assert forall|w: Seq<bool>| #[trigger] bits_eval(lane@, w)
                == lanes_of_bytes(bytes_eval(st@, w))[k as int] by {
                let bs = bytes_eval(st@, w);
                assert forall|t: int| 0 <= t < 64 implies
                    bits_eval(lane@, w)[t] == lanes_of_bytes(bs)[k as int][t] by {
                    assert(0 <= t / 8 <= 7) by (nonlinear_arith)
                        requires 0 <= t < 64;
                    lemma_mod_bound(t, 8);
                    let bidx = 8 * (k as int) + 7 - t / 8;
                    assert(bs[bidx] == bits_eval(st@[bidx]@, w));
                    assert(bs[bidx][t % 8] == st@[bidx]@[t % 8].eval(w));
                }
                assert(bits_eval(lane@, w) =~= lanes_of_bytes(bytes_eval(st@, w))[k as int]);
            }
            if bytes_all_constant(st@) {
                assert forall|t: int| 0 <= t < 64 implies (#[trigger] lane@[t]) is Constant by {
                    assert(0 <= t / 8 <= 7) by (nonlinear_arith)
                        requires 0 <= t < 64;
                    lemma_mod_bound(t, 8);
                    assert(all_constant(st@[8 * (k as int) + 7 - t / 8]@));
                }
            }
        }
        r.push(lane);
        k += 1;
    }
    proof {
        assert forall|w: Seq<bool>| #[trigger] lanes_eval(r@, w)
            == lanes_of_bytes(bytes_eval(st@, w)) by {
            assert(lanes_eval(r@, w) =~= lanes_of_bytes(bytes_eval(st@, w)));
        }
    }
    r
}

fn state_from_lanes(lanes: &Vec<Vec<Bit>>) -> (r: Vec<Byte>)
    requires
        lanes_wf(lanes@),
    ensures
        st_wf(r@),
        forall|w: Seq<bool>| #[trigger] bytes_eval(r@, w) == bytes_of_lanes(lanes_eval(lanes@, w)),
        lanes_all_constant(lanes@) ==> bytes_all_constant(r@),
{
    let mut r: Vec<Byte> = Vec::new();
    let mut b: usize = 0;
    while b < 200
        invariant
            lanes_wf(lanes@),
            b <= 200,
            r@.len() == b as int,
            forall|bb: int| 0 <= bb < b ==> (#[trigger] r@[bb]).wf(),
            forall|w: Seq<bool>, bb: int| 0 <= bb < b ==>
                #[trigger] bits_eval(r@[bb]@, w) == bytes_of_lanes(lanes_eval(lanes@, w))[bb],
            lanes_all_constant(lanes@) ==>
                forall|bb: int| 0 <= bb < b ==> all_constant((#[trigger] r@[bb])@),
        decreases 200 - b,
    {
        proof {
            assert(b as int / 8 <= 24) by (nonlinear_arith)
                requires 0 <= b < 200;
            lemma_mod_bound(b as int, 8);
        }
        let k: usize = b / 8;
        let off: usize = (7 - b % 8) * 8;
        let mut bits: Vec<Bit> = Vec::new();
        let mut t: usize = 0;
        while t < 8
            invariant
                lanes_wf(lanes@),
                k < 25,
                k == b as int / 8,
                off == (7 - b as int % 8) * 8,
                off <= 56,
                t <= 8,
                bits@.len() == t as int,
                forall|tt: int| 0 <= tt < t ==>
                    #[trigger] bits@[tt] == lanes@[k as int]@[off + tt],
            decreases 8 - t,
        {
            let lk = &lanes[k];
            let x = lk[off + t].duplicate();
            bits.push(x);
            t += 1;
        }
        let byte = Byte::of_bits(bits);
        proof {
            assert forall|w: Seq<bool>| #[trigger] bits_eval(byte@, w)
                == bytes_of_lanes(lanes_eval(lanes@, w))[b as int] by {
                let ls = lanes_eval(lanes@, w);
                assert forall|tt: int| 0 <= tt < 8 implies
                    bits_eval(byte@, w)[tt] == bytes_of_lanes(ls)[b as int][tt] by {
                    assert(ls[k as int] == bits_eval(lanes@[k as int]@, w));
                    assert(ls[k as int][off + tt] == lanes@[k as int]@[off + tt].eval(w));
                }
                assert(bits_eval(byte@, w) =~= bytes_of_lanes(lanes_eval(lanes@, w))[b as int]);
            }
            if lanes_all_constant(lanes@) {
                assert forall|tt: int| 0 <= tt < 8 implies (#[trigger] byte@[tt]) is Constant by {
                    assert(all_constant(lanes@[k as int]@));
                }
            }
        }
        r.push(byte);
        b += 1;
    }
    proof {
        assert forall|w: Seq<bool>| #[trigger] bytes_eval(r@, w)
            == bytes_of_lanes(lanes_eval(lanes@, w)) by {
            assert(bytes_eval(r@, w) =~= bytes_of_lanes(lanes_eval(lanes@, w)));
        }
    }
    r
}

/// The Keccak-f[1600] permutation: `rounds` rounds applied to the 200-octet
/// state in place. The round-constant table has 24 entries, so no more than
/// 24 rounds can be asked for.
pub fn keccakf(st: &mut Vec<Byte>, rounds: usize)
    requires
        st_wf(old(st)@),
        rounds <= 24,
    ensures
        st_wf(final(st)@),
        forall|w: Seq<bool>| #[trigger] bytes_eval(final(st)@, w)
            == spec_keccakf(bytes_eval(old(st)@, w), rounds as nat),
        bytes_all_constant(old(st)@) ==> bytes_all_constant(final(st)@),
{
    let ghost st0 = st@;
    let mut lanes = lanes_from_state(st);
    let mut round: usize = 0;
    while round < rounds
        invariant
            rounds <= 24,
            round <= rounds,
            lanes_wf(lanes@),
            forall|w: Seq<bool>| #[trigger] lanes_eval(lanes@, w)
                == spec_keccakf_lanes(lanes_of_bytes(bytes_eval(st0, w)), round as nat),
            bytes_all_constant(st0) ==> lanes_all_constant(lanes@),
        decreases rounds - round,
    {
        let ghost lprev = lanes@;
        let t1 = theta_step(&lanes);
        let t2 = rho_pi_step(&t1);
        let t3 = chi_step(&t2);
        lanes = t3;
        let ghost lchi = lanes@;
        iota_step(&mut lanes, round);
        proof {
            assert forall|w: Seq<bool>| #[trigger] lanes_eval(lanes@, w)
                == spec_keccakf_lanes(lanes_of_bytes(bytes_eval(st0, w)), (round + 1) as nat) by {
                let base = lanes_of_bytes(bytes_eval(st0, w));
                let prev = spec_keccakf_lanes(base, round as nat);
                assert(lanes_eval(lprev, w) == prev);
                assert(lanes_eval(t1@, w) == spec_theta(prev));
                assert(lanes_eval(t2@, w) == spec_rho_pi(spec_theta(prev)));
                assert(lanes_eval(lchi, w) == spec_chi(spec_rho_pi(spec_theta(prev))));
                assert(lanes_eval(lanes@, w)
                    == spec_iota(spec_chi(spec_rho_pi(spec_theta(prev))), round as int));
                assert(spec_keccakf_lanes(base, (round + 1) as nat)
                    == spec_round(prev, round as int));
            }
        }
        round += 1;
    }
    let new_st = state_from_lanes(&lanes);
    *st = new_st;
    proof {
        assert forall|w: Seq<bool>| #[trigger] bytes_eval(st@, w)
            == spec_keccakf(bytes_eval(st0, w), rounds as nat) by {
            assert(bytes_eval(st@, w)
                == bytes_of_lanes(lanes_eval(lanes@, w)));
        }
    }
}

// ---------------------------------------------------------------------------
// The sponge construction.
// ---------------------------------------------------------------------------

fn xor_byte_at(st: &mut Vec<Byte>, i: usize, b: &Byte)
    requires
        st_wf(old(st)@),
        i < 200,
        b.wf(),
    ensures
        st_wf(final(st)@),
        forall|w: Seq<bool>| #[trigger] bytes_eval(final(st)@, w)
            == spec_xor_byte_at(bytes_eval(old(st)@, w), i as int, bits_eval(b@, w)),
        bytes_all_constant(old(st)@) && all_constant(b@)
            ==> bytes_all_constant(final(st)@),
{
    let t = st[i].xor(b);
    st[i] = t;
    proof {
        assert forall|w: Seq<bool>| #[trigger] bytes_eval(st@, w)
            == spec_xor_byte_at(bytes_eval(old(st)@, w), i as int, bits_eval(b@, w)) by {
            assert(bytes_eval(st@, w)
                =~= spec_xor_byte_at(bytes_eval(old(st)@, w), i as int, bits_eval(b@, w)));
        }
        if bytes_all_constant(old(st)@) && all_constant(b@) {
            assert forall|bb: int| 0 <= bb < 200 implies all_constant((#[trigger] st@[bb])@) by {
                assert(all_constant(old(st)@[bb]@));
            }
        }
    }
}

/// The sponge: absorbs `input` in rate-sized blocks, pads, and squeezes a
/// digest of `mdlen` octets, returned as its `8 * mdlen` signals. An invalid
/// rate/capacity split is rejected before any state is built; the round
/// count is bounded by the 24-entry round-constant table.
#[verifier::rlimit(80)]
pub fn keccak(
    rate: usize,
    capacity: usize,
    input: &[Byte],
    delimited_suffix: u8,
    mdlen: usize,
    num_rounds: usize,
) -> (r: Result<Vec<Bit>, KeccakError>)
    requires
        bytes_wf(input@),
        num_rounds <= 24,
    ensures
        r is Err <==> !spec_valid_config(rate as nat, capacity as nat),
        r matches Err(e) ==> e == KeccakError::Configuration,
        r matches Ok(out) ==> out@.len() == 8 * mdlen,
        r matches Ok(out) ==> forall|w: Seq<bool>| #[trigger] bits_eval(out@, w) == spec_keccak(
            rate as nat,
            bytes_eval(input@, w),
            delimited_suffix,
            mdlen as nat,
            num_rounds as nat,
        ),
        r matches Ok(out) ==> (bytes_all_constant(input@) ==> all_constant(out@)),
{
    if rate > 1600 || capacity > 1600 || rate + capacity != 1600 || rate % 8 != 0 || rate < 8 {
        return Err(KeccakError::Configuration);
    }
    let rate_in_bytes: usize = rate / 8;
    let ghost rbn = rate_in_bytes as nat;
    let ghost rdn = num_rounds as nat;

    // The fresh all-zero state.
    let mut st: Vec<Byte> = Vec::new();
    let mut i: usize = 0;
    while i < 200
        invariant
            i <= 200,
            st@.len() == i as int,
            forall|bb: int| 0 <= bb < i ==> (#[trigger] st@[bb]).wf(),
            forall|bb: int| 0 <= bb < i ==> all_constant((#[trigger] st@[bb])@),
            forall|w: Seq<bool>, bb: int| 0 <= bb < i ==>
                #[trigger] bits_eval(st@[bb]@, w) == u8_bits(0),
        decreases 200 - i,
    {
        st.push(Byte::new(0));
        i += 1;
    }
    proof {
        assert forall|w: Seq<bool>| #[trigger] bytes_eval(st@, w) == spec_zero_state() by {
            assert(bytes_eval(st@, w) =~= spec_zero_state());
        }
    }

    // Absorb, one octet at a time; a filled block triggers the permutation.
    let mut pos: usize = 0;
    let mut idx: usize = 0;
    while idx < input.len()
        invariant
            bytes_wf(input@),
            num_rounds <= 24,
            rbn == rate_in_bytes as nat,
            rdn == num_rounds as nat,
            1 <= rate_in_bytes <= 200,
            st_wf(st@),
            pos < rate_in_bytes,
            idx <= input.len(),
            forall|w: Seq<bool>| #[trigger] bytes_eval(st@, w)
                == spec_absorb_all(rbn, rdn, bytes_eval(input@, w).take(idx as int)).0,
            forall|w: Seq<bool>| pos as nat
                == (#[trigger] spec_absorb_all(rbn, rdn, bytes_eval(input@, w).take(idx as int))).1,
            bytes_all_constant(input@) ==> bytes_all_constant(st@),
        decreases input.len() - idx,
    {
        let ghost idx0 = idx as int;
        let ghost pre_st = st@;
        let ghost pre_pos = pos as nat;
        xor_byte_at(&mut st, pos, &input[idx]);
        let ghost xored = st@;
        pos += 1;
        if pos == rate_in_bytes {
            keccakf(&mut st, num_rounds);
            pos = 0;
        }
        idx += 1;
        proof {
            assert forall|w: Seq<bool>|
                #![trigger bytes_eval(st@, w)]
                #![trigger spec_absorb_all(rbn, rdn, bytes_eval(input@, w).take(idx as int))]
                bytes_eval(st@, w)
                == spec_absorb_all(rbn, rdn, bytes_eval(input@, w).take(idx as int)).0
                && pos as nat
                == spec_absorb_all(rbn, rdn, bytes_eval(input@, w).take(idx as int)).1 by {
                let ev = bytes_eval(input@, w);
                let prev = ev.take(idx0);
                let a = spec_absorb_all(rbn, rdn, prev);
                assert(bytes_eval(pre_st, w) == a.0 && pre_pos == a.1);
                let one = seq![ev[idx0]];
                assert(ev.take(idx as int) =~= prev + one);
                lemma_absorb_append(rbn, rdn, spec_zero_state(), 0, prev, one);
                assert(spec_absorb_all(rbn, rdn, ev.take(idx as int))
                    == spec_absorb(rbn, rdn, a.0, a.1, one));
                assert(ev[idx0] == bits_eval(input@[idx0]@, w));
                let st1 = spec_xor_byte_at(a.0, pre_pos as int, ev[idx0]);
                assert(bytes_eval(xored, w) == st1);
                assert(one[0] == ev[idx0]);
                assert(one.drop_first() =~= Seq::<Seq<bool>>::empty());
                if pre_pos + 1 == rbn {
                    assert(spec_absorb(
                        rbn,
                        rdn,
                        spec_keccakf(st1, rdn),
                        0,
                        Seq::<Seq<bool>>::empty(),
                    ) == (spec_keccakf(st1, rdn), 0nat));
                    assert(spec_absorb(rbn, rdn, a.0, a.1, one)
                        == (spec_keccakf(st1, rdn), 0nat));
                    assert(bytes_eval(st@, w) == spec_keccakf(bytes_eval(xored, w), rdn));
                } else {
                    assert(spec_absorb(rbn, rdn, st1, pre_pos + 1, Seq::<Seq<bool>>::empty())
                        == (st1, pre_pos + 1));
                    assert(spec_absorb(rbn, rdn, a.0, a.1, one) == (st1, pre_pos + 1));
                    assert(bytes_eval(st@, w) == st1);
                }
            }
        }
    }
    let ghost absorbed = st@;
    let ghost fpos = pos as nat;
    proof {
        assert forall|w: Seq<bool>| #[trigger] bytes_eval(absorbed, w)
            == spec_absorb_all(rbn, rdn, bytes_eval(input@, w)).0
            && fpos == spec_absorb_all(rbn, rdn, bytes_eval(input@, w)).1 by {
            let ev = bytes_eval(input@, w);
            let a = spec_absorb_all(rbn, rdn, ev.take(idx as int));
            assert(bytes_eval(st@, w) == a.0 && pos as nat == a.1);
            assert(ev.take(idx as int) =~= ev);
        }
    }

    // Pad: domain suffix, the rare extra permutation, 0x80, one permutation.
    let sfx = Byte::new(delimited_suffix);
    xor_byte_at(&mut st, pos, &sfx);
    let ghost st_a = st@;
    if (delimited_suffix & 0x80) != 0 && pos == rate_in_bytes - 1 {
        keccakf(&mut st, num_rounds);
    }
    let ghost st_b = st@;
    let tail = Byte::new(0x80);
    xor_byte_at(&mut st, rate_in_bytes - 1, &tail);
    let ghost st_c = st@;
    keccakf(&mut st, num_rounds);
    proof {
        assert forall|w: Seq<bool>| #[trigger] bytes_eval(st@, w)
            == spec_after_pad(rbn, rdn, bytes_eval(input@, w), delimited_suffix) by {
            let ev = bytes_eval(input@, w);
            assert(bytes_eval(absorbed, w)
                == spec_absorb_all(rbn, rdn, bytes_eval(input@, w)).0);
            assert(fpos == spec_absorb_all(rbn, rdn, bytes_eval(input@, w)).1);
            let a = spec_absorb_all(rbn, rdn, ev);
            let s1 = spec_xor_byte_at(a.0, fpos as int, u8_bits(delimited_suffix));
            assert(bytes_eval(st_a, w) == s1);
            let s2 = if (delimited_suffix & 0x80) != 0 && fpos == rbn - 1 {
                spec_keccakf(s1, rdn)
            } else {
                s1
            };
            assert(bytes_eval(st_b, w) == s2);
            let s3 = spec_xor_byte_at(s2, rbn as int - 1, u8_bits(0x80));
            assert(bytes_eval(st_c, w) == s3);
            assert(bytes_eval(st@, w) == spec_keccakf(s3, rdn));
        }
    }

    // Squeeze rate-sized prefixes until `mdlen` octets are out.
    let mut out: Vec<Byte> = Vec::new();
    let mut remaining: usize = mdlen;
    while remaining > 0
        invariant
            bytes_wf(input@),
            num_rounds <= 24,
            rbn == rate_in_bytes as nat,
            rdn == num_rounds as nat,
            1 <= rate_in_bytes <= 200,
            st_wf(st@),
            out@.len() + remaining == mdlen,
            forall|bb: int| 0 <= bb < out@.len() ==> (#[trigger] out@[bb]).wf(),
            forall|w: Seq<bool>| #[trigger] spec_squeeze(
                rbn,
                rdn,
                spec_after_pad(rbn, rdn, bytes_eval(input@, w), delimited_suffix),
                mdlen as nat,
            ) == bytes_eval(out@, w) + spec_squeeze(rbn, rdn, bytes_eval(st@, w), remaining as nat),
            bytes_all_constant(input@) ==> bytes_all_constant(st@) && bytes_all_constant(out@),
        decreases remaining,
    {
        let n: usize = if remaining < rate_in_bytes {
            remaining
        } else {
            rate_in_bytes
        };
        let ghost pre_out = out@;
        let ghost pre_st = st@;
        let ghost pre_rem = remaining as nat;
        let mut i: usize = 0;
        while i < n
            invariant
                st_wf(st@),
                st@ == pre_st,
                n <= 200,
                i <= n,
                out@.len() == pre_out.len() + i as int,
                forall|bb: int| 0 <= bb < pre_out.len() ==> #[trigger] out@[bb] == pre_out[bb],
                forall|bb: int| pre_out.len() <= bb < out@.len() ==>
                    (#[trigger] out@[bb])@ == st@[bb - pre_out.len()]@,
                forall|bb: int| 0 <= bb < out@.len() ==> (#[trigger] out@[bb]).wf(),
            decreases n - i,
        {
            let bb = Byte::of_bits(st[i].bits());
            out.push(bb);
            i += 1;
        }
        proof {
            if bytes_all_constant(pre_out) && bytes_all_constant(pre_st) {
                assert forall|bb: int| 0 <= bb < out@.len() implies
                    all_constant((#[trigger] out@[bb])@) by {
                    if bb < pre_out.len() {
                        assert(all_constant(pre_out[bb]@));
                    } else {
                        assert(all_constant(pre_st[bb - pre_out.len()]@));
                    }
                }
            }
        }
        remaining -= n;
        if remaining > 0 {
            keccakf(&mut st, num_rounds);
        }
        proof {
            assert forall|w: Seq<bool>| #[trigger] spec_squeeze(
                rbn,
                rdn,
                spec_after_pad(rbn, rdn, bytes_eval(input@, w), delimited_suffix),
                mdlen as nat,
            ) == bytes_eval(out@, w)
                + spec_squeeze(rbn, rdn, bytes_eval(st@, w), remaining as nat) by {
                let p = spec_after_pad(rbn, rdn, bytes_eval(input@, w), delimited_suffix);
                let e = bytes_eval(pre_st, w);
                assert(bytes_eval(out@, w) =~= bytes_eval(pre_out, w) + e.take(n as int));
                if pre_rem <= rbn {
                    assert(spec_squeeze(rbn, rdn, e, pre_rem) == e.take(pre_rem as int));
                    assert(bytes_eval(out@, w) + spec_squeeze(rbn, rdn, bytes_eval(st@, w), 0)
                        =~= bytes_eval(pre_out, w) + e.take(pre_rem as int));
                } else {
                    assert(spec_squeeze(rbn, rdn, e, pre_rem)
                        == e.take(rbn as int) + spec_squeeze(
                            rbn,
                            rdn,
                            spec_keccakf(e, rdn),
                            (pre_rem - rbn) as nat,
                        ));
                    assert(bytes_eval(st@, w) == spec_keccakf(e, rdn));
                    assert(bytes_eval(out@, w)
                        + spec_squeeze(rbn, rdn, bytes_eval(st@, w), remaining as nat)
                        =~= bytes_eval(pre_out, w) + spec_squeeze(rbn, rdn, e, pre_rem));
                }
            }
        }
    }

    // Flatten the emitted octets into their signals, octet order preserved.
    let mut res: Vec<Bit> = Vec::new();
    let mut i: usize = 0;
    while i < out.len()
        invariant
            out@.len() == mdlen,
            forall|bb: int| 0 <= bb < out@.len() ==> (#[trigger] out@[bb]).wf(),
            i <= mdlen,
            res@.len() == 8 * i as int,
            forall|p: int| 0 <= p < res@.len() ==> #[trigger] res@[p] == out@[p / 8]@[p % 8],
        decreases out.len() - i,
    {
        let mut t: usize = 0;
        while t < 8
            invariant
                out@.len() == mdlen,
                forall|bb: int| 0 <= bb < out@.len() ==> (#[trigger] out@[bb]).wf(),
                i < mdlen,
                t <= 8,
                res@.len() == 8 * i as int + t as int,
                forall|p: int| 0 <= p < res@.len() ==> #[trigger] res@[p] == out@[p / 8]@[p % 8],
            decreases 8 - t,
        {
            let x = out[i].bit_at(t);
            res.push(x);
            proof {
                lemma_fundamental_div_mod_converse(8 * i as int + t as int, 8, i as int, t as int);
            }
            t += 1;
        }
        i += 1;
    }
    proof {
        assert forall|w: Seq<bool>| #[trigger] bits_eval(res@, w)
            == spec_flatten(bytes_eval(out@, w)) by {
            let b = bytes_eval(out@, w);
            assert forall|p: int| 0 <= p < 8 * mdlen implies
                bits_eval(res@, w)[p] == spec_flatten(b)[p] by {
                assert(0 <= p / 8 < mdlen && 0 <= p % 8 < 8) by (nonlinear_arith)
                    requires 0 <= p < 8 * mdlen;
                assert(b[p / 8] == bits_eval(out@[p / 8]@, w));
            }
            assert(bits_eval(res@, w) =~= spec_flatten(bytes_eval(out@, w)));
        }
        assert forall|w: Seq<bool>| #[trigger] bits_eval(res@, w) == spec_keccak(
            rate as nat,
            bytes_eval(input@, w),
            delimited_suffix,
            mdlen as nat,
            num_rounds as nat,
        ) by {
            let p = spec_after_pad(rbn, rdn, bytes_eval(input@, w), delimited_suffix);
            assert(spec_squeeze(rbn, rdn, p, mdlen as nat)
                =~= bytes_eval(out@, w) + spec_squeeze(rbn, rdn, bytes_eval(st@, w), 0));
            assert(bytes_eval(out@, w) + spec_squeeze(rbn, rdn, bytes_eval(st@, w), 0)
                =~= bytes_eval(out@, w));
        }
        if bytes_all_constant(input@) {
            assert forall|p: int| 0 <= p < res@.len() implies (#[trigger] res@[p]) is Constant by {
                assert(0 <= p / 8 < mdlen && 0 <= p % 8 < 8) by (nonlinear_arith)
                    requires 0 <= p < 8 * mdlen;
                assert(all_constant(out@[p / 8]@));
            }
        }
    }
    Ok(res)
}

/// SHA3-256: the sponge fixed to rate 1088, capacity 512, domain suffix
/// `0x06`, a 32-octet digest, and 24 rounds, as FIPS-202 defines it.
pub fn sha3_256(message: &[Byte]) -> (r: Vec<Bit>)
    requires
        bytes_wf(message@),
    ensures
        r@.len() == 256,
        forall|w: Seq<bool>| #[trigger] bits_eval(r@, w) == spec_sha3_256(bytes_eval(message@, w)),
        bytes_all_constant(message@) ==> all_constant(r@),
{
    let res = keccak(1088, 512, message, 0x06, 32, 24);
    match res {
        Ok(v) => v,
        Err(_) => {
            proof {
                assert(spec_valid_config(1088nat, 512nat));
                assert(false);
            }
            Vec::new()
        },
    }
}

} // verus!
