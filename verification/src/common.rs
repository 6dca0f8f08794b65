//! Types shared by the protocol variants: the protocol error, the result
//! of one verifier round, and the verifier's source of challenges.
use vstd::prelude::*;
use crate::field::Fp;

verus! {

/// An error of the Sum-Check protocol.
#[derive(Clone, Copy, PartialEq, Eq, Structural, Debug)]
pub enum Error {
    /// The prover's round message does not sum to what the verifier
    /// expected; carries the expected value and the actual sum.
    ProverClaimMismatch(Fp, Fp),
    /// The verifier reached the final round without oracle access to the
    /// polynomial.
    NoPolySet,
}

/// What one verifier round produces: the challenge sent back to the
/// prover, or, in the last round, the verdict.
#[derive(Clone, Copy, PartialEq, Eq, Structural, Debug)]
pub enum VerifierRoundResult {
    JthRound(Fp),
    FinalRound(bool),
}

/// The verifier's source of challenges. Implementations may be backed by
/// any source of randomness; deterministic sources serve in tests.
pub trait RngF {
    /// Draws the next challenge.
    fn draw(&mut self) -> (r: Fp)
        ensures
            r.wf(),
    ;
}

/// A deterministic challenge source: embeds and replays a fixed list of
/// integers, then yields zero once the list is exhausted.
pub struct FixedRng {
    values: Vec<u64>,
    next: usize,
}

impl FixedRng {
    pub fn new(values: Vec<u64>) -> (r: Self) {
        FixedRng { values, next: 0 }
    }
}

impl RngF for FixedRng {
    fn draw(&mut self) -> Fp {
        if self.next < self.values.len() {
            let v = self.values[self.next];
            self.next = self.next + 1;
            Fp::new(v)
        } else {
            Fp::zero()
        }
    }
}

} // verus!
