//! The single-bit signal: a boolean that is either a compile-time constant or
//! a symbolic value built from input wires and logic gates.
//!
//! Gate operations constant-fold when both operands are constants and
//! otherwise build a new symbolic node, so the same permutation code runs in
//! both evaluation modes. The meaning of a signal is its boolean value under
//! an assignment of the wires, given by [`Bit::eval`].

use vstd::prelude::*;

verus! {

/// A boolean-valued signal.
pub enum Bit {
    /// A value known when the computation is built.
    Constant(bool),
    /// An input wire, unknown until an assignment is supplied.
    Wire(usize),
    /// The exclusive or of two signals.
    Xor(Box<Bit>, Box<Bit>),
    /// The complement of the first signal, conjoined with the second.
    NotAnd(Box<Bit>, Box<Bit>),
}

impl Bit {
    /// The boolean value of the signal under the wire assignment `w`.
    /// A wire outside the assignment reads as false.
    pub open spec fn eval(self, w: Seq<bool>) -> bool
        decreases self,
    {
        match self {
            Bit::Constant(c) => c,
            Bit::Wire(i) => i < w.len() && w[i as int],
            Bit::Xor(a, b) => a.eval(w) != b.eval(w),
            Bit::NotAnd(a, b) => !a.eval(w) && b.eval(w),
        }
    }

    /// Whether the signal is a compile-time constant.
    pub open spec fn is_constant(self) -> bool {
        self is Constant
    }

    /// A constant signal.
    pub fn constant(b: bool) -> (r: Bit)
        ensures
            r == Bit::Constant(b),
    {
        Bit::Constant(b)
    }

    /// The symbolic signal of input wire `i`.
    pub fn wire(i: usize) -> (r: Bit)
        ensures
            r == Bit::Wire(i),
    {
        Bit::Wire(i)
    }

    /// An independent copy with the same value under every assignment.
    pub fn duplicate(&self) -> (r: Bit)
        ensures
            r == *self,
        decreases *self,
    {
        match self {
            Bit::Constant(c) => Bit::Constant(*c),
            Bit::Wire(i) => Bit::Wire(*i),
            Bit::Xor(a, b) => Bit::Xor(Box::new(a.duplicate()), Box::new(b.duplicate())),
            Bit::NotAnd(a, b) => Bit::NotAnd(Box::new(a.duplicate()), Box::new(b.duplicate())),
        }
    }

    /// Exclusive or, folded when both operands are constants.
    pub fn xor(&self, other: &Bit) -> (r: Bit)
        ensures
            forall|w: Seq<bool>| #[trigger] r.eval(w) == (self.eval(w) != other.eval(w)),
            r.is_constant() <==> self.is_constant() && other.is_constant(),
    {
        match (self, other) {
            (Bit::Constant(a), Bit::Constant(b)) => Bit::Constant(*a != *b),
            _ => Bit::Xor(Box::new(self.duplicate()), Box::new(other.duplicate())),
        }
    }

    /// The complement of `self` conjoined with `other`, folded when both
    /// operands are constants.
    pub fn notand(&self, other: &Bit) -> (r: Bit)
        ensures
            forall|w: Seq<bool>| #[trigger] r.eval(w) == (!self.eval(w) && other.eval(w)),
            r.is_constant() <==> self.is_constant() && other.is_constant(),
    {
        match (self, other) {
            (Bit::Constant(a), Bit::Constant(b)) => Bit::Constant(!*a && *b),
            _ => Bit::NotAnd(Box::new(self.duplicate()), Box::new(other.duplicate())),
        }
    }

    /// Resolves the signal under a concrete assignment of the wires.
    pub fn evaluate(&self, w: &Vec<bool>) -> (r: bool)
        ensures
            r == self.eval(w@),
        decreases *self,
    {
        match self {
            Bit::Constant(c) => *c,
            Bit::Wire(i) => *i < w.len() && w[*i],
            Bit::Xor(a, b) => {
                let x = a.evaluate(w);
                let y = b.evaluate(w);
                x != y
            },
            Bit::NotAnd(a, b) => {
                let x = a.evaluate(w);
                let y = b.evaluate(w);
                !x && y
            },
        }
    }
}

/// The values of a sequence of signals under the wire assignment `w`.
pub open spec fn bits_eval(s: Seq<Bit>, w: Seq<bool>) -> Seq<bool> {
    Seq::new(s.len(), |i: int| s[i].eval(w))
}

/// Whether every signal in the sequence is a compile-time constant.
pub open spec fn all_constant(s: Seq<Bit>) -> bool {
    forall|i: int| 0 <= i < s.len() ==> (#[trigger] s[i]) is Constant
}

} // verus!
