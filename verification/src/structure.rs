//! In-memory representation of FRI proofs: hash digests, Merkle caps and
//! paths, per-query records, whole proofs, and their compressed form, along
//! with the FRI parameter block.
//!
//! Each record also carries a mathematical view (sequences and maps over the
//! raw 64-bit representatives) that the compression contracts speak of.

use vstd::prelude::*;
use std::collections::HashMap;
use crate::field::GoldilocksField;
use crate::extension::QuadraticExtension;

verus! {

/// Number of trailing salt elements in a committed leaf when hiding is on.
pub const SALT_SIZE: usize = 4;

/// How many leaf values are salting randomness rather than evaluations.
pub open spec fn spec_salt_size(salted: bool) -> int {
    if salted {
        SALT_SIZE as int
    } else {
        0
    }
}

/// Number of trailing salt elements for the given hiding choice.
pub fn salt_size(salted: bool) -> (r: usize)
    ensures
        r as int == spec_salt_size(salted),
{
    if salted {
        SALT_SIZE
    } else {
        0
    }
}

/// A hash digest: four field elements.
#[derive(Clone, Copy, Debug, PartialEq, Eq)]
pub struct HashOut {
    pub elements: [GoldilocksField; 4],
}

/// The sibling digests that authenticate one leaf against a Merkle cap.
#[derive(Clone, Debug, PartialEq, Eq)]
pub struct MerkleProof {
    pub siblings: Vec<HashOut>,
}

impl View for MerkleProof {
    type V = Seq<HashOut>;

    open spec fn view(&self) -> Seq<HashOut> {
        self.siblings@
    }
}

/// The top `cap_height` layer of a Merkle tree, published in place of a
/// single root.
#[derive(Clone, Debug, PartialEq, Eq)]
pub struct MerkleCap(pub Vec<HashOut>);

impl View for MerkleCap {
    type V = Seq<HashOut>;

    open spec fn view(&self) -> Seq<HashOut> {
        self.0@
    }
}

/// A polynomial over the extension field, in coefficient form.
#[derive(Clone, Debug, PartialEq, Eq)]
pub struct PolynomialCoeffs {
    pub coeffs: Vec<QuadraticExtension>,
}

impl View for PolynomialCoeffs {
    type V = Seq<QuadraticExtension>;

    open spec fn view(&self) -> Seq<QuadraticExtension> {
        self.coeffs@
    }
}

/// Evaluations and Merkle proof produced by the prover in a FRI query step.
#[derive(Clone, Debug, PartialEq, Eq)]
pub struct FriQueryStep {
    pub evals: Vec<QuadraticExtension>,
    pub merkle_proof: MerkleProof,
}

/// Mathematical view of a query step.
#[verifier::ext_equal]
pub ghost struct FriQueryStepV {
    pub evals: Seq<QuadraticExtension>,
    pub siblings: Seq<HashOut>,
}

impl View for FriQueryStep {
    type V = FriQueryStepV;

    open spec fn view(&self) -> FriQueryStepV {
        FriQueryStepV { evals: self.evals@, siblings: self.merkle_proof@ }
    }
}

/// Evaluations and Merkle proofs of the original committed polynomial
/// batches, one entry per oracle.
#[derive(Clone, Debug, PartialEq, Eq)]
pub struct FriInitialTreeProof {
    pub evals_proofs: Vec<(Vec<GoldilocksField>, MerkleProof)>,
}

impl View for FriInitialTreeProof {
    type V = Seq<(Seq<GoldilocksField>, Seq<HashOut>)>;

    open spec fn view(&self) -> Seq<(Seq<GoldilocksField>, Seq<HashOut>)> {
        Seq::new(
            self.evals_proofs@.len(),
            |i: int| (self.evals_proofs@[i].0@, self.evals_proofs@[i].1@),
        )
    }
}

impl FriInitialTreeProof {
    /// The evaluations for one oracle with the salting tail cut off.
    pub fn unsalted_evals(&self, oracle_index: usize, salted: bool) -> (r: Vec<GoldilocksField>)
        requires
            oracle_index < self@.len(),
            spec_salt_size(salted) <= self@[oracle_index as int].0.len(),
        ensures
            r@ == self@[oracle_index as int].0.subrange(
                0,
                self@[oracle_index as int].0.len() - spec_salt_size(salted),
            ),
    {
        let evals = &self.evals_proofs[oracle_index].0;
        let keep = evals.len() - salt_size(salted);
        let mut r: Vec<GoldilocksField> = Vec::new();
        let mut i: usize = 0;
        while i < keep
            invariant
                i <= keep,
                keep <= evals@.len(),
                r@.len() == i,
                forall|j: int| 0 <= j < i ==> r@[j] == evals@[j],
            decreases keep - i,
        {
            r.push(evals[i]);
            i += 1;
        }
        proof {
            assert(r@ =~= self@[oracle_index as int].0.subrange(
                0,
                self@[oracle_index as int].0.len() - spec_salt_size(salted),
            ));
        }
        r
    }

    /// One unsalted evaluation, by oracle and polynomial position.
    pub fn unsalted_eval(&self, oracle_index: usize, poly_index: usize, salted: bool) -> (r:
        GoldilocksField)
        requires
            oracle_index < self@.len(),
            spec_salt_size(salted) <= self@[oracle_index as int].0.len(),
            poly_index < self@[oracle_index as int].0.len() - spec_salt_size(salted),
        ensures
            r == self@[oracle_index as int].0[poly_index as int],
    {
        self.evals_proofs[oracle_index].0[poly_index]
    }
}

/// Proof for one FRI query round: the initial-tree openings followed by one
/// step per reduction.
#[derive(Clone, Debug, PartialEq, Eq)]
pub struct FriQueryRound {
    pub initial_trees_proof: FriInitialTreeProof,
    pub steps: Vec<FriQueryStep>,
}

/// Mathematical view of a query round.
#[verifier::ext_equal]
pub ghost struct FriQueryRoundV {
    pub initial: Seq<(Seq<GoldilocksField>, Seq<HashOut>)>,
    pub steps: Seq<FriQueryStepV>,
}

impl View for FriQueryRound {
    type V = FriQueryRoundV;

    open spec fn view(&self) -> FriQueryRoundV {
        FriQueryRoundV {
            initial: self.initial_trees_proof@,
            steps: Seq::new(self.steps@.len(), |i: int| self.steps@[i]@),
        }
    }
}

/// A whole FRI proof: commit-phase caps, the query rounds in order, the
/// final low-degree polynomial, and the proof-of-work witness.
#[derive(Clone, Debug, PartialEq, Eq)]
pub struct FriProof {
    pub commit_phase_merkle_caps: Vec<MerkleCap>,
    pub query_round_proofs: Vec<FriQueryRound>,
    pub final_poly: PolynomialCoeffs,
    pub pow_witness: GoldilocksField,
}

/// Mathematical view of a whole proof.
#[verifier::ext_equal]
pub ghost struct FriProofV {
    pub caps: Seq<Seq<HashOut>>,
    pub rounds: Seq<FriQueryRoundV>,
    pub final_poly: Seq<QuadraticExtension>,
    pub pow_witness: GoldilocksField,
}

impl View for FriProof {
    type V = FriProofV;

    open spec fn view(&self) -> FriProofV {
        FriProofV {
            caps: Seq::new(
                self.commit_phase_merkle_caps@.len(),
                |i: int| self.commit_phase_merkle_caps@[i]@,
            ),
            rounds: Seq::new(
                self.query_round_proofs@.len(),
                |i: int| self.query_round_proofs@[i]@,
            ),
            final_poly: self.final_poly@,
            pow_witness: self.pow_witness,
        }
    }
}

/// The query rounds of a compressed proof: the ordered indices, each unique
/// initial index's openings stored once, and per reduction depth each
/// post-shift index's step stored once with its inferable evaluation
/// removed.
#[derive(Clone, Debug, PartialEq)]
pub struct CompressedFriQueryRounds {
    pub indices: Vec<usize>,
    pub initial_trees_proofs: HashMap<usize, FriInitialTreeProof>,
    pub steps: Vec<HashMap<usize, FriQueryStep>>,
}

/// Mathematical view of compressed query rounds.
#[verifier::ext_equal]
pub ghost struct CompressedFriQueryRoundsV {
    pub indices: Seq<usize>,
    pub initial_trees_proofs: Map<usize, Seq<(Seq<GoldilocksField>, Seq<HashOut>)>>,
    pub steps: Seq<Map<usize, FriQueryStepV>>,
}

impl View for CompressedFriQueryRounds {
    type V = CompressedFriQueryRoundsV;

    open spec fn view(&self) -> CompressedFriQueryRoundsV {
        CompressedFriQueryRoundsV {
            indices: self.indices@,
            initial_trees_proofs: self.initial_trees_proofs@.map_values(
                |p: FriInitialTreeProof| p@,
            ),
            steps: Seq::new(
                self.steps@.len(),
                |i: int| self.steps@[i]@.map_values(|s: FriQueryStep| s@),
            ),
        }
    }
}

/// A compressed FRI proof: same caps, final polynomial and witness, with
/// the query rounds replaced by their deduplicated form.
#[derive(Clone, Debug, PartialEq)]
pub struct CompressedFriProof {
    pub commit_phase_merkle_caps: Vec<MerkleCap>,
    pub query_round_proofs: CompressedFriQueryRounds,
    pub final_poly: PolynomialCoeffs,
    pub pow_witness: GoldilocksField,
}

/// Mathematical view of a compressed proof.
#[verifier::ext_equal]
pub ghost struct CompressedFriProofV {
    pub caps: Seq<Seq<HashOut>>,
    pub query_rounds: CompressedFriQueryRoundsV,
    pub final_poly: Seq<QuadraticExtension>,
    pub pow_witness: GoldilocksField,
}

impl View for CompressedFriProof {
    type V = CompressedFriProofV;

    open spec fn view(&self) -> CompressedFriProofV {
        CompressedFriProofV {
            caps: Seq::new(
                self.commit_phase_merkle_caps@.len(),
                |i: int| self.commit_phase_merkle_caps@[i]@,
            ),
            query_rounds: self.query_round_proofs@,
            final_poly: self.final_poly@,
            pow_witness: self.pow_witness,
        }
    }
}

/// The verifier challenges that drive a FRI check; decompression only reads
/// the ordered query indices.
#[derive(Clone, Debug)]
pub struct FriChallenges {
    pub fri_alpha: QuadraticExtension,
    pub fri_betas: Vec<QuadraticExtension>,
    pub fri_pow_response: GoldilocksField,
    pub fri_query_indices: Vec<usize>,
}

/// The evaluations the verifier rederives itself, one per first sighting of
/// a reduced index, in query order.
#[derive(Clone, Debug)]
pub struct FriInferredElements(pub Vec<QuadraticExtension>);

/// Static FRI configuration.
#[derive(Clone, Copy, Debug, PartialEq, Eq, Structural)]
pub struct FriConfig {
    pub rate_bits: usize,
    pub cap_height: usize,
    pub num_query_rounds: usize,
}

/// Parameters of one FRI instance.
#[derive(Clone, Debug)]
pub struct FriParams {
    pub config: FriConfig,
    pub hiding: bool,
    pub degree_bits: usize,
    pub reduction_arity_bits: Vec<usize>,
}

/// Sum of the first `n` arities.
pub open spec fn sum_arities(abs: Seq<usize>, n: int) -> int
    decreases n,
{
    if n <= 0 {
        0
    } else {
        sum_arities(abs, n - 1) + abs[n - 1]
    }
}

impl FriParams {
    /// Total number of index bits consumed by all reductions.
    pub fn total_arities(&self) -> (r: usize)
        requires
            sum_arities(self.reduction_arity_bits@, self.reduction_arity_bits@.len() as int)
                <= usize::MAX,
        ensures
            r as int == sum_arities(
                self.reduction_arity_bits@,
                self.reduction_arity_bits@.len() as int,
            ),
    {
        let mut r: usize = 0;
        let mut i: usize = 0;
        let n = self.reduction_arity_bits.len();
        while i < n
            invariant
                i <= n,
                n == self.reduction_arity_bits@.len(),
                r as int == sum_arities(self.reduction_arity_bits@, i as int),
                sum_arities(self.reduction_arity_bits@, n as int) <= usize::MAX,
            decreases n - i,
        {
            proof {
                lemma_sum_arities_monotonic(self.reduction_arity_bits@, i + 1, n as int);
            }
            r = r + self.reduction_arity_bits[i];
            i += 1;
        }
        r
    }

    /// Length of the final polynomial: 2 to the bits left after all
    /// reductions.
    pub fn final_poly_len(&self) -> (r: usize)
        requires
            sum_arities(self.reduction_arity_bits@, self.reduction_arity_bits@.len() as int)
                <= self.degree_bits,
            vstd::arithmetic::power2::pow2(
                (self.degree_bits - sum_arities(
                    self.reduction_arity_bits@,
                    self.reduction_arity_bits@.len() as int,
                )) as nat,
            ) <= usize::MAX,
        ensures
            r as int == vstd::arithmetic::power2::pow2(
                (self.degree_bits - sum_arities(
                    self.reduction_arity_bits@,
                    self.reduction_arity_bits@.len() as int,
                )) as nat,
            ),
    {
        let total = self.total_arities();
        pow2_usize(self.degree_bits - total)
    }

    /// Merkle tree heights per reduction depth: the initial height is
    /// `degree_bits + rate_bits`, and each reduction shaves off its arity.
    pub fn reduction_heights(&self) -> (r: Vec<usize>)
        requires
            self.degree_bits + self.config.rate_bits <= usize::MAX,
            sum_arities(self.reduction_arity_bits@, self.reduction_arity_bits@.len() as int)
                <= self.degree_bits + self.config.rate_bits,
        ensures
            r@.len() == self.reduction_arity_bits@.len(),
            forall|i: int| 0 <= i < r@.len() ==> r@[i] as int
                == self.degree_bits + self.config.rate_bits
                    - sum_arities(self.reduction_arity_bits@, i + 1),
    {
        let mut r: Vec<usize> = Vec::new();
        let mut h: usize = self.degree_bits + self.config.rate_bits;
        let mut i: usize = 0;
        let n = self.reduction_arity_bits.len();
        while i < n
            invariant
                i <= n,
                n == self.reduction_arity_bits@.len(),
                h as int == self.degree_bits + self.config.rate_bits
                    - sum_arities(self.reduction_arity_bits@, i as int),
                sum_arities(self.reduction_arity_bits@, n as int)
                    <= self.degree_bits + self.config.rate_bits,
                r@.len() == i,
                forall|j: int| 0 <= j < i ==> r@[j] as int
                    == self.degree_bits + self.config.rate_bits
                        - sum_arities(self.reduction_arity_bits@, j + 1),
            decreases n - i,
        {
            proof {
                lemma_sum_arities_monotonic(self.reduction_arity_bits@, i + 1, n as int);
            }
            h = h - self.reduction_arity_bits[i];
            r.push(h);
            i += 1;
        }
        r
    }
}

/// Prefix sums of arities are monotonic.
proof fn lemma_sum_arities_monotonic(abs: Seq<usize>, a: int, b: int)
    requires
        a <= b,
    ensures
        sum_arities(abs, a) <= sum_arities(abs, b),
    decreases b - a,
{
    if a < b {
        lemma_sum_arities_monotonic(abs, a, b - 1);
    }
}

/// 2 to the given power, as a machine integer.
pub fn pow2_usize(e: usize) -> (r: usize)
    requires
        vstd::arithmetic::power2::pow2(e as nat) <= usize::MAX,
    ensures
        r as int == vstd::arithmetic::power2::pow2(e as nat),
{
    let mut r: usize = 1;
    let mut i: usize = 0;
    proof {
        vstd::arithmetic::power2::lemma_pow2_pos(e as nat);
        reveal(vstd::arithmetic::power2::pow2);
        reveal(vstd::arithmetic::power::pow);
    }
    while i < e
        invariant
            i <= e,
            r as int == vstd::arithmetic::power2::pow2(i as nat),
            vstd::arithmetic::power2::pow2(e as nat) <= usize::MAX,
        decreases e - i,
    {
        proof {
            vstd::arithmetic::power2::lemma_pow2_unfold((i + 1) as nat);
            if i + 1 < e {
                vstd::arithmetic::power2::lemma_pow2_strictly_increases(
                    (i + 1) as nat, e as nat);
            }
        }
        r = r * 2;
        i += 1;
    }
    r
}

/// Copy a vector of copyable values element by element.
pub fn clone_vec_copy<T: Copy>(v: &Vec<T>) -> (r: Vec<T>)
    ensures
        r@ == v@,
{
    let mut r: Vec<T> = Vec::new();
    let mut i: usize = 0;
    while i < v.len()
        invariant
            i <= v@.len(),
            r@.len() == i,
            forall|j: int| 0 <= j < i ==> r@[j] == v@[j],
        decreases v@.len() - i,
    {
        r.push(v[i]);
        i += 1;
    }
    proof {
        assert(r@ =~= v@);
    }
    r
}

/// Copy a Merkle proof.
pub fn clone_merkle_proof(p: &MerkleProof) -> (r: MerkleProof)
    ensures
        r@ == p@,
{
    MerkleProof { siblings: clone_vec_copy(&p.siblings) }
}

/// Copy an initial-tree proof.
pub fn clone_initial_tree_proof(p: &FriInitialTreeProof) -> (r: FriInitialTreeProof)
    ensures
        r@ == p@,
{
    let mut evals_proofs: Vec<(Vec<GoldilocksField>, MerkleProof)> = Vec::new();
    let mut i: usize = 0;
    while i < p.evals_proofs.len()
        invariant
            i <= p.evals_proofs@.len(),
            evals_proofs@.len() == i,
            forall|j: int| 0 <= j < i ==> (#[trigger] evals_proofs@[j]).0@
                == p.evals_proofs@[j].0@ && evals_proofs@[j].1@ == p.evals_proofs@[j].1@,
        decreases p.evals_proofs@.len() - i,
    {
        let pair = &p.evals_proofs[i];
        evals_proofs.push((clone_vec_copy(&pair.0), clone_merkle_proof(&pair.1)));
        i += 1;
    }
    let r = FriInitialTreeProof { evals_proofs };
    proof {
        assert(r@ =~= p@);
    }
    r
}

} // verus!
