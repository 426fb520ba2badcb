//! Tools for estimating how vulnerable a section-routed, node-aged overlay
//! network is to disruption or compromise by an adversary.
//!
//! The crate offers three estimators: a closed-form combinatorial
//! calculation ([`tools::DirectCalcTool`]), a structural simulation that
//! builds a section tree and then calculates ([`tools::SimStructureTool`]),
//! and a full event-driven simulation with node ageing, relocation and a
//! pluggable attacker ([`tools::FullSimTool`]).
//!
//! Probabilities are kept as exact rationals throughout; callers that want
//! floating-point output convert at the edge.

use vstd::prelude::*;

pub use prob::binomial;

pub mod args;
pub mod attack;
pub mod metadata;
pub mod net;
pub mod node;
pub mod prob;
pub mod quorum;
pub mod tools;

verus! {

/// Type of a node name: a uniformly random 64-bit integer. XOR of two names
/// defines both their distance and their section membership.
pub type NN = u64;

/// Calculate the probability of choosing at least `q` "red" nodes, where
/// there are `n` total nodes, `r` of them red, and we choose `k`: the
/// hypergeometric tail, as an exact rational.
#[allow(non_snake_case)]
pub fn probQRChosen(n: NN, r: NN, k: NN, q: NN) -> (res: Option<prob::Ratio>)
    requires
        n >= r,
        n >= k,
        k >= q,
        n - r >= k - q,
    ensures
        match res {
            Some(p) => {
                &&& p.num == prob::hyper_sum_from(r as nat, (n - r) as nat, k as nat, q as nat)
                &&& p.den == prob::spec_binomial(n as nat, k as nat)
                &&& p.wf()
            },
            None => prob::spec_binomial(n as nat, k as nat) > u128::MAX,
        },
{
    prob::prob_compromise(n, r, k, q)
}

/// What can go wrong while growing or shrinking a network.
#[derive(Clone, Copy, PartialEq, Eq, Structural, Debug)]
pub enum Error {
    /// A freshly drawn random name is already taken in its section.
    NameCollision,
    /// The configured add-restriction rejected the node.
    AddRestriction,
    /// No acceptable name was found within the retry bound.
    FindNameExhausted,
    /// No section with the given prefix, or no node with the given name.
    NotFound,
}

} // verus!
