use keccak_circuit::KeccakError;
use keccak_circuit::bit::Bit;
use keccak_circuit::byte::Byte;
use keccak_circuit::keccak::{keccak, keccakf, lane_of_u64, lane_rotl, lane_xor, sha3_256};

fn constant_lane_value(lane: &[Bit]) -> u64 {
    let empty: Vec<bool> = Vec::new();
    let mut acc: u64 = 0;
    for bit in lane {
        acc = (acc << 1) | (if bit.evaluate(&empty) { 1 } else { 0 });
    }
    acc
}

#[test]
fn byte_round_trips_through_constants() {
    for v in [0x00u8, 0x01, 0x06, 0x80, 0xa5, 0xff] {
        assert_eq!(Byte::new(v).unwrap_constant().unwrap(), v);
    }
}

#[test]
fn byte_xor_is_bitwise() {
    let a = Byte::new(0x0f);
    let b = Byte::new(0xff);
    assert_eq!(a.xor(&b).unwrap_constant().unwrap(), 0xf0);
    let c = Byte::new(0x3c);
    assert_eq!(c.xor(&c).unwrap_constant().unwrap(), 0x00);
}

#[test]
fn byte_from_bits_rejects_wrong_length() {
    let three: Vec<Bit> = (0..3).map(|_| Bit::constant(true)).collect();
    assert!(matches!(Byte::from_bits(three), Err(KeccakError::Length)));
    let nine: Vec<Bit> = (0..9).map(|_| Bit::constant(false)).collect();
    assert!(matches!(Byte::from_bits(nine), Err(KeccakError::Length)));
}

#[test]
fn unwrap_constant_rejects_symbolic_octet() {
    let mut bits: Vec<Bit> = (0..7).map(|_| Bit::constant(false)).collect();
    bits.push(Bit::wire(0));
    let byte = Byte::from_bits(bits).unwrap();
    assert!(matches!(byte.unwrap_constant(), Err(KeccakError::NonConstant)));
}

#[test]
fn byte_exposes_signals_for_read_and_write() {
    let mut byte = Byte::new(0x00);
    assert_eq!(byte.bits().len(), 8);
    byte.set_bit(7, Bit::constant(true));
    assert_eq!(byte.unwrap_constant().unwrap(), 0x01);
    let empty: Vec<bool> = Vec::new();
    assert!(byte.bit_at(7).evaluate(&empty));
}

#[test]
fn xor_of_lane_with_itself_is_zero_lane() {
    let a = lane_of_u64(0x0123456789abcdef);
    let z = lane_xor(&a, &a);
    assert_eq!(z.len(), 64);
    assert_eq!(constant_lane_value(&z), 0);
}

#[test]
fn rotl_by_64_is_identity() {
    let a = lane_of_u64(0xfedcba9876543210);
    assert_eq!(constant_lane_value(&lane_rotl(&a, 64)), 0xfedcba9876543210);
    assert_eq!(constant_lane_value(&lane_rotl(&a, 0)), 0xfedcba9876543210);
    assert_eq!(
        constant_lane_value(&lane_rotl(&a, 8)),
        0xfedcba9876543210u64.rotate_left(8)
    );
}

#[test]
fn output_length_is_eight_signals_per_requested_octet() {
    for len in [0usize, 1, 5, 135, 136, 137] {
        let message: Vec<Byte> = (0..len).map(|_| Byte::new(0x42)).collect();
        assert_eq!(sha3_256(&message).len(), 256);
    }
    let message = vec![Byte::new(0x42)];
    let short = keccak(1088, 512, &message, 0x06, 10, 24).unwrap();
    assert_eq!(short.len(), 80);
    let long = keccak(1088, 512, &message, 0x06, 150, 24).unwrap();
    assert_eq!(long.len(), 1200);
}

#[test]
fn invalid_configuration_is_rejected() {
    let message = vec![Byte::new(0x42)];
    assert!(matches!(
        keccak(1089, 511, &message, 0x06, 32, 24),
        Err(KeccakError::Configuration)
    ));
    assert!(matches!(
        keccak(1092, 508, &message, 0x06, 32, 24),
        Err(KeccakError::Configuration)
    ));
    assert!(matches!(
        keccak(1088, 500, &message, 0x06, 32, 24),
        Err(KeccakError::Configuration)
    ));
    assert!(keccak(1088, 512, &message, 0x06, 32, 24).is_ok());
}

#[test]
fn split_message_absorbs_like_whole_message() {
    // 200 octets cross the 136-octet rate boundary, so the two halves land in
    // different blocks of the absorb phase.
    let first: Vec<u8> = (0..100u32).map(|i| (i % 251) as u8).collect();
    let second: Vec<u8> = (100..200u32).map(|i| (i * 7 % 253) as u8).collect();
    let mut split: Vec<Byte> = first.iter().map(|v| Byte::new(*v)).collect();
    split.extend(second.iter().map(|v| Byte::new(*v)));
    let whole: Vec<Byte> = first
        .iter()
        .chain(second.iter())
        .map(|v| Byte::new(*v))
        .collect();
    let empty: Vec<bool> = Vec::new();
    let d1 = sha3_256(&split);
    let d2 = sha3_256(&whole);
    assert_eq!(d1.len(), d2.len());
    for (x, y) in d1.iter().zip(d2.iter()) {
        assert_eq!(x.evaluate(&empty), y.evaluate(&empty));
    }
}

#[test]
fn symbolic_digest_resolves_to_concrete_digest() {
    // One symbolic octet of eight wires, against the constant octet 0xa5,
    // through a reduced-round sponge; the circuit built from the symbolic
    // run must resolve, under the assignment of 0xa5's bits, to the digest
    // of the concrete run.
    let symbolic = vec![Byte::from_bits((0..8).map(Bit::wire).collect()).unwrap()];
    let concrete = vec![Byte::new(0xa5)];
    let sym_digest = keccak(1088, 512, &symbolic, 0x06, 4, 1).unwrap();
    let conc_digest = keccak(1088, 512, &concrete, 0x06, 4, 1).unwrap();
    assert_eq!(sym_digest.len(), 32);
    let w: Vec<bool> = vec![true, false, true, false, false, true, false, true];
    for (s, c) in sym_digest.iter().zip(conc_digest.iter()) {
        assert_eq!(s.evaluate(&w), c.evaluate(&w));
    }
}

#[test]
fn wire_outside_assignment_reads_false() {
    let w: Vec<bool> = vec![true];
    assert!(Bit::wire(0).evaluate(&w));
    assert!(!Bit::wire(1).evaluate(&w));
    let xored = Bit::wire(0).xor(&Bit::constant(true));
    assert!(!xored.evaluate(&w));
    let folded = Bit::constant(true).notand(&Bit::constant(true));
    assert!(!folded.evaluate(&w));
}

#[test]
fn permutation_with_zero_rounds_is_identity() {
    let mut st: Vec<Byte> = (0..200u32).map(|i| Byte::new((i % 256) as u8)).collect();
    keccakf(&mut st, 0);
    for (i, b) in st.iter().enumerate() {
        assert_eq!(b.unwrap_constant().unwrap(), (i % 256) as u8);
    }
}

#[test]
fn permutation_matches_reference_value() {
    let mut st: Vec<Byte> = (0..200u32).map(|i| Byte::new((i % 256) as u8)).collect();
    keccakf(&mut st, 24);
    let leading: Vec<u8> = st[..16].iter().map(|b| b.unwrap_constant().unwrap()).collect();
    assert_eq!(
        leading,
        vec![
            0xfa, 0x7c, 0xd5, 0xda, 0xf5, 0x91, 0x28, 0x12, 0x21, 0x29, 0x76, 0xdc, 0xa7, 0xe5,
            0xf8, 0xb8
        ]
    );
}
