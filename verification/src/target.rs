//! In-circuit counterparts of the proof records: the same shapes with wire
//! targets in place of field elements.  Gate wiring itself lives in the
//! circuit builder, not here; these are the plain data carriers.

use vstd::prelude::*;
use crate::structure::{salt_size, spec_salt_size};

verus! {

/// A wire in a circuit: either a concrete gate wire or a virtual target.
#[derive(Clone, Copy, Debug, PartialEq, Eq, Structural)]
pub enum Target {
    Wire { row: usize, column: usize },
    VirtualTarget { index: usize },
}

/// A hash digest made of targets.
#[derive(Clone, Copy, Debug, PartialEq, Eq)]
pub struct HashOutTarget {
    pub elements: [Target; 4],
}

/// A Merkle cap made of target digests.
#[derive(Clone, Debug, PartialEq, Eq)]
pub struct MerkleCapTarget(pub Vec<HashOutTarget>);

/// A Merkle proof made of target digests.
#[derive(Clone, Debug, PartialEq, Eq)]
pub struct MerkleProofTarget {
    pub siblings: Vec<HashOutTarget>,
}

/// An extension-field element made of targets.
#[derive(Clone, Copy, Debug, PartialEq, Eq)]
pub struct ExtensionTarget(pub [Target; 2]);

/// A polynomial over the extension field, in coefficient form, made of
/// targets.
#[derive(Clone, Debug, PartialEq, Eq)]
pub struct PolynomialCoeffsExtTarget(pub Vec<ExtensionTarget>);

/// The in-circuit form of a FRI query step.
#[derive(Clone, Debug)]
pub struct FriQueryStepTarget {
    pub evals: Vec<ExtensionTarget>,
    pub merkle_proof: MerkleProofTarget,
}

/// The in-circuit form of the initial-tree openings.
#[derive(Clone, Debug)]
pub struct FriInitialTreeProofTarget {
    pub evals_proofs: Vec<(Vec<Target>, MerkleProofTarget)>,
}

impl View for FriInitialTreeProofTarget {
    type V = Seq<(Seq<Target>, Seq<HashOutTarget>)>;

    open spec fn view(&self) -> Seq<(Seq<Target>, Seq<HashOutTarget>)> {
        Seq::new(
            self.evals_proofs@.len(),
            |i: int| (self.evals_proofs@[i].0@, self.evals_proofs@[i].1.siblings@),
        )
    }
}

impl FriInitialTreeProofTarget {
    /// The evaluation targets for one oracle with the salting tail cut off.
    pub fn unsalted_evals(&self, oracle_index: usize, salted: bool) -> (r: Vec<Target>)
        requires
            oracle_index < self@.len(),
            spec_salt_size(salted) <= self@[oracle_index as int].0.len(),
        ensures
            r@ == self@[oracle_index as int].0.subrange(
                0,
                self@[oracle_index as int].0.len() - spec_salt_size(salted),
            ),
    {
        let evals = &self.evals_proofs[oracle_index].0;
        let keep = evals.len() - salt_size(salted);
        let mut r: Vec<Target> = Vec::new();
        let mut i: usize = 0;
        while i < keep
            invariant
                i <= keep,
                keep <= evals@.len(),
                r@.len() == i,
                forall|j: int| 0 <= j < i ==> r@[j] == evals@[j],
            decreases keep - i,
        {
            r.push(evals[i]);
            i += 1;
        }
        proof {
            assert(r@ =~= self@[oracle_index as int].0.subrange(
                0,
                self@[oracle_index as int].0.len() - spec_salt_size(salted),
            ));
        }
        r
    }

    /// One unsalted evaluation target, by oracle and polynomial position.
    pub fn unsalted_eval(&self, oracle_index: usize, poly_index: usize, salted: bool) -> (r:
        Target)
        requires
            oracle_index < self@.len(),
            spec_salt_size(salted) <= self@[oracle_index as int].0.len(),
            poly_index < self@[oracle_index as int].0.len() - spec_salt_size(salted),
        ensures
            r == self@[oracle_index as int].0[poly_index as int],
    {
        self.evals_proofs[oracle_index].0[poly_index]
    }
}

/// The in-circuit form of a FRI query round.
#[derive(Clone, Debug)]
pub struct FriQueryRoundTarget {
    pub initial_trees_proof: FriInitialTreeProofTarget,
    pub steps: Vec<FriQueryStepTarget>,
}

/// The in-circuit form of a whole FRI proof.
#[derive(Clone, Debug)]
pub struct FriProofTarget {
    pub commit_phase_merkle_caps: Vec<MerkleCapTarget>,
    pub query_round_proofs: Vec<FriQueryRoundTarget>,
    pub final_poly: PolynomialCoeffsExtTarget,
    pub pow_witness: Target,
}

/// The in-circuit form of the FRI challenges.
#[derive(Clone, Debug)]
pub struct FriChallengesTarget {
    pub fri_alpha: ExtensionTarget,
    pub fri_betas: Vec<ExtensionTarget>,
    pub fri_pow_response: Target,
    pub fri_query_indices: Vec<Target>,
}

} // verus!
