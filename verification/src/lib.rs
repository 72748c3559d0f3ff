//! SHA3-256 (Keccak) evaluated over single-bit signals that are either
//! compile-time constants or symbolic circuit wires, so that the same sponge
//! code yields an ordinary digest on known bytes and a gate-for-gate circuit
//! on unknown ones.

use vstd::prelude::*;

pub mod bit;
pub mod byte;
pub mod keccak;
pub mod laws;

verus! {

/// The caller errors the library reports instead of producing a wrong digest.
#[derive(Clone, Copy, Debug, PartialEq, Eq, Structural)]
pub enum KeccakError {
    /// Sponge parameters do not describe a 1600-bit state in whole octets.
    Configuration,
    /// An octet was built from a signal sequence whose length is not 8.
    Length,
    /// A concrete value was requested from an octet holding a symbolic signal.
    NonConstant,
}

} // verus!
