//! Compression and decompression of FRI proofs.
//!
//! Compression walks the query rounds in order, drops the one evaluation per
//! reduction step that the verifier can rederive, and stores each distinct
//! (depth, reduced index) record exactly once, first writer wins.
//! Decompression walks the same order, reinserts the inferred evaluations,
//! and rebuilds the rounds.  Per-tree Merkle path deduplication belongs to
//! the Merkle layer and is outside this crate; the sibling lists ride along
//! unchanged.

use vstd::prelude::*;
use std::collections::HashMap;
use vstd::arithmetic::power2::pow2;
use crate::field::GoldilocksField;
use crate::extension::QuadraticExtension;
use crate::structure::{
    FriProof, FriProofV, FriQueryRound, FriQueryRoundV, FriQueryStep, FriQueryStepV,
    FriInitialTreeProof, FriParams, FriChallenges, FriInferredElements, HashOut,
    CompressedFriProof, CompressedFriProofV, CompressedFriQueryRounds,
    CompressedFriQueryRoundsV, clone_vec_copy, clone_merkle_proof,
    clone_initial_tree_proof, pow2_usize,
};

verus! {

broadcast use vstd::std_specs::hash::group_hash_axioms;

/// Decompression failed: the compressed record is not one that compression
/// of a well-formed proof could have produced.
#[derive(Clone, Copy, Debug, PartialEq, Eq)]
pub struct MalformedCompressedProof;

/// A query index after the first `lvl` reductions have each shifted it
/// right by their arity.
pub open spec fn shifted(index: int, abs: Seq<usize>, lvl: int) -> int
    decreases lvl,
{
    if lvl <= 0 {
        index
    } else {
        shifted(index, abs, lvl - 1) / (pow2(abs[lvl - 1] as nat) as int)
    }
}

/// The position of a query inside the coset collapsed at depth `j`.
pub open spec fn coset_pos(index: int, abs: Seq<usize>, j: int) -> int {
    shifted(index, abs, j) % (pow2(abs[j] as nat) as int)
}

/// All query indices shifted down to level `lvl`, as map keys.
pub open spec fn key_seq(indices: Seq<usize>, abs: Seq<usize>, lvl: int) -> Seq<usize> {
    Seq::new(indices.len(), |k: int| shifted(indices[k] as int, abs, lvl) as usize)
}

/// Position of the first occurrence of `key` in `keys` at or after `from`;
/// the length if there is none.
pub open spec fn first_in(keys: Seq<usize>, key: usize, from: int) -> int
    decreases keys.len() - from,
{
    if from < 0 || from >= keys.len() {
        keys.len() as int
    } else if keys[from] == key {
        from
    } else {
        first_in(keys, key, from + 1)
    }
}

/// The first query that reaches the same level-`lvl` key as query `k`.
pub open spec fn first_of(indices: Seq<usize>, abs: Seq<usize>, lvl: int, k: int) -> int {
    first_in(key_seq(indices, abs, lvl), key_seq(indices, abs, lvl)[k], 0)
}

/// Whether query `k` is the first to reach its level-`lvl` key.
pub open spec fn fresh(indices: Seq<usize>, abs: Seq<usize>, lvl: int, k: int) -> bool {
    first_of(indices, abs, lvl, k) == k
}

/// The map that stores, for each key, the value of the first query that
/// produced it: first writer wins.
pub open spec fn fww_map<V>(keys: Seq<usize>, vals: Seq<V>, n: int) -> Map<usize, V>
    decreases n,
{
    if n <= 0 {
        Map::empty()
    } else {
        let m = fww_map(keys, vals, n - 1);
        if m.dom().contains(keys[n - 1]) {
            m
        } else {
            m.insert(keys[n - 1], vals[n - 1])
        }
    }
}

/// Shifting keeps an index nonnegative and never enlarges it.
pub proof fn lemma_shifted_bounds(index: int, abs: Seq<usize>, lvl: int)
    requires
        index >= 0,
    ensures
        0 <= shifted(index, abs, lvl) <= index,
    decreases lvl,
{
    if lvl > 0 {
        lemma_shifted_bounds(index, abs, lvl - 1);
        vstd::arithmetic::power2::lemma_pow2_pos(abs[lvl - 1] as nat);
        vstd::arithmetic::div_mod::lemma_div_pos_is_pos(
            shifted(index, abs, lvl - 1), pow2(abs[lvl - 1] as nat) as int);
        vstd::arithmetic::div_mod::lemma_div_nonincreasing(
            shifted(index, abs, lvl - 1), pow2(abs[lvl - 1] as nat) as int);
    }
}

/// What `first_in` returns: a position in range carrying the key, with no
/// earlier occurrence from `from` on.
pub proof fn lemma_first_in_props(keys: Seq<usize>, key: usize, from: int)
    requires
        0 <= from <= keys.len(),
    ensures
        from <= first_in(keys, key, from) <= keys.len(),
        first_in(keys, key, from) < keys.len() ==> keys[first_in(keys, key, from)] == key,
        forall|i: int| from <= i < first_in(keys, key, from) ==> keys[i] != key,
    decreases keys.len() - from,
{
    if from < keys.len() && keys[from] != key {
        lemma_first_in_props(keys, key, from + 1);
    }
}

/// `first_of` lands at or before `k`, carries the same key, and nothing
/// before it does.
pub proof fn lemma_first_of_props(indices: Seq<usize>, abs: Seq<usize>, lvl: int, k: int)
    requires
        0 <= k < indices.len(),
    ensures
        0 <= first_of(indices, abs, lvl, k) <= k,
        key_seq(indices, abs, lvl)[first_of(indices, abs, lvl, k)]
            == key_seq(indices, abs, lvl)[k],
        forall|i: int| 0 <= i < first_of(indices, abs, lvl, k)
            ==> key_seq(indices, abs, lvl)[i] != key_seq(indices, abs, lvl)[k],
        first_of(indices, abs, lvl, first_of(indices, abs, lvl, k))
            == first_of(indices, abs, lvl, k),
{
    let keys = key_seq(indices, abs, lvl);
    lemma_first_in_props(keys, keys[k], 0);
    let f = first_in(keys, keys[k], 0);
    assert(f <= k) by {
        if f > k {
            assert(keys[k] != keys[k]);
        }
    }
}

/// What a first-writer-wins map holds: exactly the keys of the first `n`
/// queries, each bound to the value of the key's first producer.
pub proof fn lemma_fww_map_props<V>(keys: Seq<usize>, vals: Seq<V>, n: int)
    requires
        0 <= n <= keys.len(),
        keys.len() == vals.len(),
    ensures
        forall|key: usize| #[trigger] fww_map(keys, vals, n).dom().contains(key)
            <==> exists|k: int| 0 <= k < n && keys[k] == key,
        forall|k: int| 0 <= k < n ==> #[trigger] fww_map(keys, vals, n)[keys[k]]
            == vals[first_in(keys, keys[k], 0)],
    decreases n,
{
    if n > 0 {
        lemma_fww_map_props(keys, vals, n - 1);
        let m = fww_map(keys, vals, n - 1);
        let key = keys[n - 1];
        lemma_first_in_props(keys, key, 0);
        if m.dom().contains(key) {
            assert forall|kk: usize| #[trigger] fww_map(keys, vals, n).dom().contains(kk)
                implies exists|k: int| 0 <= k < n && keys[k] == kk by {}
            assert forall|kk: usize| (exists|k: int| 0 <= k < n && keys[k] == kk)
                implies #[trigger] fww_map(keys, vals, n).dom().contains(kk) by {
                let k = choose|k: int| 0 <= k < n && keys[k] == kk;
                if k == n - 1 {
                    assert(m.dom().contains(key));
                }
            }
        } else {
            assert(forall|k: int| 0 <= k < n - 1 ==> keys[k] != key);
            assert(first_in(keys, key, 0) == n - 1) by {
                let f = first_in(keys, key, 0);
                lemma_first_in_props(keys, key, 0);
                if f < n - 1 {
                    assert(keys[f] == key);
                }
            }
            assert forall|k: int| 0 <= k < n implies #[trigger] fww_map(keys, vals, n)[keys[k]]
                == vals[first_in(keys, keys[k], 0)] by {
                if k < n - 1 {
                    assert(m.dom().contains(keys[k]));
                    assert(keys[k] != key);
                }
            }
        }
    }
}

/// Structural well-formedness of a proof against its query indices and
/// reduction arities: one round per index, one step per reduction, a full
/// coset of evaluations per step, a common oracle count, and arities that
/// the machine can shift by.
pub open spec fn fri_proof_wf(p: FriProofV, indices: Seq<usize>, abs: Seq<usize>) -> bool {
    &&& indices.len() == p.rounds.len()
    &&& indices.len() >= 1
    &&& forall|k: int| 0 <= k < p.rounds.len()
        ==> (#[trigger] p.rounds[k].steps).len() == abs.len()
    &&& forall|k: int| 0 <= k < p.rounds.len()
        ==> (#[trigger] p.rounds[k].initial).len() == p.rounds[0].initial.len()
    &&& forall|k: int, j: int| 0 <= k < p.rounds.len() && 0 <= j < abs.len()
        ==> (#[trigger] p.rounds[k].steps[j].evals).len() == pow2(abs[j] as nat)
    &&& forall|j: int| 0 <= j < abs.len()
        ==> pow2((#[trigger] abs[j]) as nat) <= usize::MAX
}

/// Coherence of duplicate queries: rounds that share a query index carry
/// the same initial openings, and rounds whose indices coincide once
/// shifted to some depth carry the same step there.  A deterministic
/// prover always produces coherent proofs.
pub open spec fn fri_proof_coherent(p: FriProofV, indices: Seq<usize>, abs: Seq<usize>) -> bool {
    &&& forall|k1: int, k2: int| 0 <= k1 < indices.len() && 0 <= k2 < indices.len()
        && indices[k1] == indices[k2]
        ==> #[trigger] p.rounds[k1].initial == #[trigger] p.rounds[k2].initial
    &&& forall|k1: int, k2: int, j: int| 0 <= k1 < indices.len() && 0 <= k2 < indices.len()
        && 0 <= j < abs.len()
        && key_seq(indices, abs, j + 1)[k1] == key_seq(indices, abs, j + 1)[k2]
        ==> #[trigger] p.rounds[k1].steps[j] == #[trigger] p.rounds[k2].steps[j]
}

/// A step with its inferable evaluation removed.
pub open spec fn compressed_step_v(s: FriQueryStepV, pos: int) -> FriQueryStepV {
    FriQueryStepV { evals: s.evals.remove(pos), siblings: s.siblings }
}

/// The initial openings of every round, in query order.
pub open spec fn initial_vals(p: FriProofV) -> Seq<Seq<(Seq<GoldilocksField>, Seq<HashOut>)>> {
    Seq::new(p.rounds.len(), |k: int| p.rounds[k].initial)
}

/// The depth-`j` steps of every round with their inferable evaluation
/// removed, in query order.
pub open spec fn step_vals(p: FriProofV, indices: Seq<usize>, abs: Seq<usize>, j: int) -> Seq<
    FriQueryStepV,
> {
    Seq::new(
        indices.len(),
        |k: int| compressed_step_v(p.rounds[k].steps[j], coset_pos(indices[k] as int, abs, j)),
    )
}

/// What compression produces: the indices as given, first-writer-wins maps
/// for the initial openings and for each depth's trimmed steps, and the
/// caps, final polynomial and witness passed through.
pub open spec fn spec_compressed(p: FriProofV, indices: Seq<usize>, abs: Seq<usize>)
    -> CompressedFriProofV {
    CompressedFriProofV {
        caps: p.caps,
        query_rounds: CompressedFriQueryRoundsV {
            indices: indices,
            initial_trees_proofs: fww_map(
                key_seq(indices, abs, 0),
                initial_vals(p),
                indices.len() as int,
            ),
            steps: Seq::new(
                abs.len(),
                |j: int| fww_map(
                    key_seq(indices, abs, j + 1),
                    step_vals(p, indices, abs, j),
                    indices.len() as int,
                ),
            ),
        },
        final_poly: p.final_poly,
        pow_witness: p.pow_witness,
    }
}

impl FriProof {
    /// Compress the proof: drop the inferable evaluation of every step and
    /// store each distinct record once, keyed by its (reduced) index.
    pub fn compress(self, indices: &Vec<usize>, params: &FriParams) -> (r: CompressedFriProof)
        requires
            fri_proof_wf(self@, indices@, params.reduction_arity_bits@),
        ensures
            r@ == spec_compressed(self@, indices@, params.reduction_arity_bits@),
    {
        let ghost pv = self@;
        let ghost abs = params.reduction_arity_bits@;
        let ghost to_view = |p: FriInitialTreeProof| p@;
        let ghost step_view = |s: FriQueryStep| s@;
        let FriProof { commit_phase_merkle_caps, query_round_proofs, final_poly, pow_witness } =
            self;
        let n = indices.len();
        let num_reductions = params.reduction_arity_bits.len();

        let mut initial_trees_proofs: HashMap<usize, FriInitialTreeProof> = HashMap::new();
        proof {
            lemma_map_values_empty(to_view);
        }
        let mut k: usize = 0;
        while k < n
            invariant
                k <= n,
                n == indices@.len(),
                abs == params.reduction_arity_bits@,
                query_round_proofs@.len() == n,
                pv.rounds == Seq::new(query_round_proofs@.len(), |i: int| query_round_proofs@[i]@),
                initial_trees_proofs@.map_values(to_view)
                    == fww_map(key_seq(indices@, abs, 0), initial_vals(pv), k as int),
                to_view == (|p: FriInitialTreeProof| p@),
            decreases n - k,
        {
            let index = indices[k];
            proof {
                assert(key_seq(indices@, abs, 0)[k as int] == index);
            }
            if !initial_trees_proofs.contains_key(&index) {
                let entry = clone_initial_tree_proof(&query_round_proofs[k].initial_trees_proof);
                proof {
                    assert(entry@ == initial_vals(pv)[k as int]);
                    lemma_map_values_insert(initial_trees_proofs@, to_view, index, entry);
                }
                initial_trees_proofs.insert(index, entry);
            }
            k += 1;
        }

        let mut steps: Vec<HashMap<usize, FriQueryStep>> = Vec::new();
        let mut cur: Vec<usize> = clone_vec_copy(indices);
        proof {
            assert(cur@ =~= key_seq(indices@, abs, 0));
        }
        let mut j: usize = 0;
        while j < num_reductions
            invariant
                j <= num_reductions,
                n == indices@.len(),
                num_reductions == abs.len(),
                abs == params.reduction_arity_bits@,
                query_round_proofs@.len() == n,
                pv.rounds == Seq::new(query_round_proofs@.len(), |i: int| query_round_proofs@[i]@),
                fri_proof_wf(pv, indices@, abs),
                cur@ == key_seq(indices@, abs, j as int),
                steps@.len() == j,
                forall|jj: int| 0 <= jj < j ==> (#[trigger] steps@[jj])@.map_values(step_view)
                    == fww_map(
                        key_seq(indices@, abs, jj + 1),
                        step_vals(pv, indices@, abs, jj),
                        n as int,
                    ),
                step_view == (|s: FriQueryStep| s@),
            decreases num_reductions - j,
        {
            let pow = pow2_usize(params.reduction_arity_bits[j]);
            let mut m: HashMap<usize, FriQueryStep> = HashMap::new();
            let mut next: Vec<usize> = Vec::new();
            proof {
                lemma_map_values_empty(step_view);
            }
            let mut k2: usize = 0;
            while k2 < n
                invariant
                    k2 <= n,
                    n == indices@.len(),
                    0 <= j < abs.len(),
                    num_reductions == abs.len(),
                    abs == params.reduction_arity_bits@,
                    query_round_proofs@.len() == n,
                    pv.rounds == Seq::new(
                        query_round_proofs@.len(),
                        |i: int| query_round_proofs@[i]@,
                    ),
                    fri_proof_wf(pv, indices@, abs),
                    cur@ == key_seq(indices@, abs, j as int),
                    pow as int == pow2(abs[j as int] as nat),
                    next@.len() == k2,
                    forall|i: int| 0 <= i < k2 ==> next@[i]
                        == key_seq(indices@, abs, j + 1)[i],
                    m@.map_values(step_view) == fww_map(
                        key_seq(indices@, abs, j + 1),
                        step_vals(pv, indices@, abs, j as int),
                        k2 as int,
                    ),
                    step_view == (|s: FriQueryStep| s@),
                decreases n - k2,
            {
                proof {
                    lemma_shifted_bounds(indices@[k2 as int] as int, abs, j as int);
                    vstd::arithmetic::power2::lemma_pow2_pos(abs[j as int] as nat);
                }
                let pos = cur[k2] % pow;
                let key = cur[k2] / pow;
                proof {
                    assert(key == key_seq(indices@, abs, j + 1)[k2 as int]);
                    assert(pos == coset_pos(indices@[k2 as int] as int, abs, j as int));
                }
                next.push(key);
                if !m.contains_key(&key) {
                    proof {
                        assert(pv.rounds[k2 as int] == query_round_proofs@[k2 as int]@);
                        assert(query_round_proofs@[k2 as int].steps@.len()
                            == pv.rounds[k2 as int].steps.len());
                    }
                    let step = &query_round_proofs[k2].steps[j];
                    proof {
                        assert(step@ == pv.rounds[k2 as int].steps[j as int]);
                        assert(step@.evals.len() == pow2(abs[j as int] as nat));
                    }
                    let mut evals = clone_vec_copy(&step.evals);
                    evals.remove(pos);
                    let entry = FriQueryStep {
                        evals,
                        merkle_proof: clone_merkle_proof(&step.merkle_proof),
                    };
                    proof {
                        assert(entry@ =~= step_vals(pv, indices@, abs, j as int)[k2 as int]);
                        lemma_map_values_insert(m@, step_view, key, entry);
                    }
                    m.insert(key, entry);
                }
                k2 += 1;
            }
            steps.push(m);
            cur = next;
            proof {
                assert(cur@ =~= key_seq(indices@, abs, j + 1));
            }
            j += 1;
        }

        let r = CompressedFriProof {
            commit_phase_merkle_caps,
            query_round_proofs: CompressedFriQueryRounds {
                indices: clone_vec_copy(indices),
                initial_trees_proofs,
                steps,
            },
            final_poly,
            pow_witness,
        };
        proof {
            assert(r@.caps =~= pv.caps);
            assert(r@.query_rounds.steps
                =~= spec_compressed(pv, indices@, abs).query_rounds.steps);
            assert(r@ =~= spec_compressed(pv, indices@, abs));
        }
        r
    }
}

/// How many inferred elements are consumed strictly before the pair
/// (query `k`, depth `j`), walking queries outermost and depths innermost:
/// one per fresh pair.
pub open spec fn stream_pos(indices: Seq<usize>, abs: Seq<usize>, k: int, j: int) -> int
    decreases k, j,
{
    if k <= 0 && j <= 0 {
        0
    } else if j <= 0 {
        stream_pos(indices, abs, k - 1, abs.len() as int)
    } else {
        stream_pos(indices, abs, k, j - 1)
            + if fresh(indices, abs, j, k) { 1int } else { 0int }
    }
}

/// Within one query, consuming more depths never consumes fewer elements.
proof fn lemma_stream_pos_row(indices: Seq<usize>, abs: Seq<usize>, k: int, j1: int, j2: int)
    requires
        0 <= j1 <= j2,
    ensures
        stream_pos(indices, abs, k, j1) <= stream_pos(indices, abs, k, j2),
    decreases j2 - j1,
{
    if j1 < j2 {
        lemma_stream_pos_row(indices, abs, k, j1, j2 - 1);
    }
}

/// No pair consumes past the total number of inferred elements.
proof fn lemma_stream_pos_le_end(indices: Seq<usize>, abs: Seq<usize>, k: int, j: int)
    requires
        0 <= k < indices.len(),
        0 <= j <= abs.len(),
    ensures
        stream_pos(indices, abs, k, j)
            <= stream_pos(indices, abs, indices.len() as int, 0),
    decreases indices.len() - k,
{
    lemma_stream_pos_row(indices, abs, k, j, abs.len() as int);
    assert(stream_pos(indices, abs, k + 1, 0) == stream_pos(indices, abs, k, abs.len() as int));
    if k + 1 < indices.len() {
        lemma_stream_pos_le_end(indices, abs, k + 1, 0);
    }
}

/// The evaluations decompression reconstructs for (query `k`, depth `j`):
/// the stored record of the key's first producer with that producer's
/// inferred element put back at that producer's coset position.
pub open spec fn recon_evals(
    c: CompressedFriQueryRoundsV,
    indices: Seq<usize>,
    v: Seq<QuadraticExtension>,
    abs: Seq<usize>,
    k: int,
    j: int,
) -> Seq<QuadraticExtension> {
    let keys = key_seq(indices, abs, j + 1);
    let f = first_in(keys, keys[k], 0);
    c.steps[j][keys[k]].evals.insert(
        coset_pos(indices[f] as int, abs, j),
        v[stream_pos(indices, abs, f, j)],
    )
}

/// The reconstructed evaluations of every query at depth `j`.
pub open spec fn recon_vals(
    c: CompressedFriQueryRoundsV,
    indices: Seq<usize>,
    v: Seq<QuadraticExtension>,
    abs: Seq<usize>,
    j: int,
) -> Seq<Seq<QuadraticExtension>> {
    Seq::new(indices.len(), |k: int| recon_evals(c, indices, v, abs, k, j))
}

/// The round decompression rebuilds for query `k`.
pub open spec fn decomp_round(
    c: CompressedFriProofV,
    indices: Seq<usize>,
    v: Seq<QuadraticExtension>,
    abs: Seq<usize>,
    k: int,
) -> FriQueryRoundV {
    FriQueryRoundV {
        initial: c.query_rounds.initial_trees_proofs[indices[k]],
        steps: Seq::new(
            abs.len(),
            |j: int| FriQueryStepV {
                evals: recon_evals(c.query_rounds, indices, v, abs, k, j),
                siblings: c.query_rounds.steps[j][key_seq(indices, abs, j + 1)[k]].siblings,
            },
        ),
    }
}

/// What decompression produces when it succeeds.
pub open spec fn spec_decompressed(
    c: CompressedFriProofV,
    indices: Seq<usize>,
    v: Seq<QuadraticExtension>,
    abs: Seq<usize>,
) -> FriProofV {
    FriProofV {
        caps: c.caps,
        rounds: Seq::new(indices.len(), |k: int| decomp_round(c, indices, v, abs, k)),
        final_poly: c.final_poly,
        pow_witness: c.pow_witness,
    }
}

/// When decompression succeeds: one step map per reduction, every looked-up
/// key present, a consistent oracle count, a full-minus-one coset stored
/// for every fresh pair, and enough inferred elements.
pub open spec fn decompress_ok(
    c: CompressedFriProofV,
    indices: Seq<usize>,
    v: Seq<QuadraticExtension>,
    abs: Seq<usize>,
) -> bool {
    let n = indices.len() as int;
    &&& c.query_rounds.steps.len() == abs.len()
    &&& forall|k: int| 0 <= k < n
        ==> c.query_rounds.initial_trees_proofs.dom().contains(#[trigger] indices[k])
    &&& forall|k: int| 0 <= k < n
        ==> (#[trigger] c.query_rounds.initial_trees_proofs[indices[k]]).len()
            == c.query_rounds.initial_trees_proofs[indices[0]].len()
    &&& forall|k: int, j: int| 0 <= k < n && 0 <= j < abs.len()
        ==> c.query_rounds.steps[j].dom().contains(
            #[trigger] key_seq(indices, abs, j + 1)[k])
    &&& forall|k: int, j: int| 0 <= k < n && 0 <= j < abs.len()
        && fresh(indices, abs, j + 1, k)
        ==> (#[trigger] c.query_rounds.steps[j][key_seq(indices, abs, j + 1)[k]]).evals.len()
            == pow2(abs[j] as nat) - 1
    &&& v.len() >= stream_pos(indices, abs, n, 0)
}

/// Machine limit on the arities: each coset size fits a `usize`.
pub open spec fn arities_ok(abs: Seq<usize>) -> bool {
    forall|j: int| 0 <= j < abs.len() ==> pow2((#[trigger] abs[j]) as nat) <= usize::MAX
}

impl CompressedFriProof {
    /// Decompress the proof: walk the indices in order, look every record
    /// up by its reduced key, put the inferred evaluation back at its coset
    /// position on each key's first sighting, and rebuild the rounds.
    /// Fails, and only fails, on input that compression of a well-formed
    /// proof cannot have produced: a missing record, a mismatched oracle
    /// count, a wrongly sized coset, or a depleted inferred-element stream.
    pub fn decompress(
        self,
        challenges: &FriChallenges,
        fri_inferred_elements: FriInferredElements,
        params: &FriParams,
    ) -> (r: Result<FriProof, MalformedCompressedProof>)
        requires
            arities_ok(params.reduction_arity_bits@),
        ensures
            r is Ok <==> decompress_ok(
                self@,
                challenges.fri_query_indices@,
                fri_inferred_elements.0@,
                params.reduction_arity_bits@,
            ),
            r matches Ok(q) ==> q@ == spec_decompressed(
                self@,
                challenges.fri_query_indices@,
                fri_inferred_elements.0@,
                params.reduction_arity_bits@,
            ),
    {
        let ghost cv = self@;
        let ghost cqv = self@.query_rounds;
        let ghost abs = params.reduction_arity_bits@;
        let ghost iv = challenges.fri_query_indices@;
        let ghost vv = fri_inferred_elements.0@;
        let ghost vec_view = |e: Vec<QuadraticExtension>| e@;
        let ghost step_view = |s: FriQueryStep| s@;
        let ghost init_view = |p: FriInitialTreeProof| p@;
        let CompressedFriProof {
            commit_phase_merkle_caps,
            query_round_proofs,
            final_poly,
            pow_witness,
        } = self;
        let n = challenges.fri_query_indices.len();
        let num_reductions = params.reduction_arity_bits.len();
        if query_round_proofs.steps.len() != num_reductions {
            return Err(MalformedCompressedProof);
        }

        let mut caches: Vec<HashMap<usize, Vec<QuadraticExtension>>> = Vec::new();
        let mut jj: usize = 0;
        while jj < num_reductions
            invariant
                jj <= num_reductions,
                caches@.len() == jj,
                forall|i: int| 0 <= i < jj ==> (#[trigger] caches@[i])@ =~= Map::<
                    usize,
                    Vec<QuadraticExtension>,
                >::empty(),
            decreases num_reductions - jj,
        {
            caches.push(HashMap::new());
            jj += 1;
        }

        let mut rounds_out: Vec<FriQueryRound> = Vec::new();
        let mut oracle_count: usize = 0;
        let mut pos: usize = 0;
        let mut k: usize = 0;
        proof {
            lemma_map_values_empty(vec_view);
        }
        while k < n
            invariant
                k <= n,
                n == iv.len(),
                iv == challenges.fri_query_indices@,
                vv == fri_inferred_elements.0@,
                abs == params.reduction_arity_bits@,
                arities_ok(abs),
                num_reductions == abs.len(),
                cv == self@,
                cqv == cv.query_rounds,
                cqv.indices == query_round_proofs.indices@,
                cqv.initial_trees_proofs == query_round_proofs.initial_trees_proofs@.map_values(
                    init_view),
                query_round_proofs.steps@.len() == num_reductions,
                cqv.steps == Seq::new(
                    query_round_proofs.steps@.len(),
                    |i: int| query_round_proofs.steps@[i]@.map_values(step_view),
                ),
                caches@.len() == num_reductions,
                forall|i: int| 0 <= i < num_reductions ==> (#[trigger] caches@[i])@.map_values(
                    vec_view) == fww_map(key_seq(iv, abs, i + 1), recon_vals(cqv, iv, vv, abs, i),
                    k as int),
                pos == stream_pos(iv, abs, k as int, 0),
                pos <= vv.len(),
                rounds_out@.len() == k,
                forall|i: int| 0 <= i < k ==> (#[trigger] rounds_out@[i])@ =~= decomp_round(
                    cv, iv, vv, abs, i),
                k > 0 ==> cqv.initial_trees_proofs.dom().contains(iv[0])
                    && oracle_count == cqv.initial_trees_proofs[iv[0]].len(),
                forall|i: int| 0 <= i < k
                    ==> cqv.initial_trees_proofs.dom().contains(#[trigger] iv[i]),
                forall|i: int| 0 <= i < k
                    ==> (#[trigger] cqv.initial_trees_proofs[iv[i]]).len()
                        == cqv.initial_trees_proofs[iv[0]].len(),
                forall|i: int, j: int| 0 <= i < k && 0 <= j < num_reductions
                    ==> cqv.steps[j].dom().contains(#[trigger] key_seq(iv, abs, j + 1)[i]),
                forall|i: int, j: int| 0 <= i < k && 0 <= j < num_reductions
                    && fresh(iv, abs, j + 1, i)
                    ==> cqv.steps[j][#[trigger] key_seq(iv, abs, j + 1)[i]].evals.len()
                        == pow2(abs[j] as nat) - 1,
                vec_view == (|e: Vec<QuadraticExtension>| e@),
                step_view == (|s: FriQueryStep| s@),
                init_view == (|p: FriInitialTreeProof| p@),
            decreases n - k,
        {
            let index = challenges.fri_query_indices[k];
            let initial = match query_round_proofs.initial_trees_proofs.get(&index) {
                Some(p) => clone_initial_tree_proof(p),
                None => {
                    proof {
                        assert(!cqv.initial_trees_proofs.dom().contains(iv[k as int]));
                    }
                    return Err(MalformedCompressedProof);
                },
            };
            if k == 0 {
                oracle_count = initial.evals_proofs.len();
            } else if initial.evals_proofs.len() != oracle_count {
                proof {
                    assert(cqv.initial_trees_proofs[iv[k as int]].len()
                        != cqv.initial_trees_proofs[iv[0]].len());
                }
                return Err(MalformedCompressedProof);
            }
            let mut steps_out: Vec<FriQueryStep> = Vec::new();
            let mut idx = index;
            let mut j: usize = 0;
            while j < num_reductions
                invariant
                    j <= num_reductions,
                    0 <= k < n,
                    n == iv.len(),
                    iv == challenges.fri_query_indices@,
                    vv == fri_inferred_elements.0@,
                    abs == params.reduction_arity_bits@,
                    arities_ok(abs),
                    num_reductions == abs.len(),
                    cv == self@,
                    cqv == cv.query_rounds,
                    index == iv[k as int],
                    idx as int == shifted(iv[k as int] as int, abs, j as int),
                    cqv.initial_trees_proofs == query_round_proofs.initial_trees_proofs@
                        .map_values(init_view),
                    query_round_proofs.steps@.len() == num_reductions,
                    cqv.steps == Seq::new(
                        query_round_proofs.steps@.len(),
                        |i: int| query_round_proofs.steps@[i]@.map_values(step_view),
                    ),
                    caches@.len() == num_reductions,
                    forall|i: int| 0 <= i < j ==> (#[trigger] caches@[i])@.map_values(vec_view)
                        == fww_map(key_seq(iv, abs, i + 1), recon_vals(cqv, iv, vv, abs, i),
                        k + 1),
                    forall|i: int| j <= i < num_reductions ==> (#[trigger] caches@[i])@
                        .map_values(vec_view) == fww_map(key_seq(iv, abs, i + 1),
                        recon_vals(cqv, iv, vv, abs, i), k as int),
                    pos == stream_pos(iv, abs, k as int, j as int),
                    pos <= vv.len(),
                    steps_out@.len() == j,
                    forall|i: int| 0 <= i < j ==> (#[trigger] steps_out@[i])@ =~= (FriQueryStepV {
                        evals: recon_evals(cqv, iv, vv, abs, k as int, i),
                        siblings: cqv.steps[i][key_seq(iv, abs, i + 1)[k as int]].siblings,
                    }),
                    forall|i: int| 0 <= i < j
                        ==> (#[trigger] cqv.steps[i]).dom().contains(
                            key_seq(iv, abs, i + 1)[k as int]),
                    forall|i: int| 0 <= i < j && fresh(iv, abs, i + 1, k as int)
                        ==> (#[trigger] cqv.steps[i][key_seq(iv, abs, i + 1)[k as int]])
                            .evals.len() == pow2(abs[i] as nat) - 1,
                    vec_view == (|e: Vec<QuadraticExtension>| e@),
                    step_view == (|s: FriQueryStep| s@),
                    init_view == (|p: FriInitialTreeProof| p@),
                decreases num_reductions - j,
            {
                proof {
                    lemma_shifted_bounds(iv[k as int] as int, abs, j as int);
                    vstd::arithmetic::power2::lemma_pow2_pos(abs[j as int] as nat);
                }
                let pow = pow2_usize(params.reduction_arity_bits[j]);
                let cw = idx % pow;
                idx = idx / pow;
                let ghost key_g = key_seq(iv, abs, j + 1)[k as int];
                proof {
                    assert(idx == key_g);
                    assert(cw as int == coset_pos(iv[k as int] as int, abs, j as int));
                    lemma_first_of_props(iv, abs, j + 1, k as int);
                    lemma_fww_map_props(
                        key_seq(iv, abs, j + 1),
                        recon_vals(cqv, iv, vv, abs, j as int),
                        k as int,
                    );
                }
                let step = match query_round_proofs.steps[j].get(&idx) {
                    Some(s) => s,
                    None => {
                        proof {
                            assert(!cqv.steps[j as int].dom().contains(key_g));
                        }
                        return Err(MalformedCompressedProof);
                    },
                };
                proof {
                    assert(cqv.steps[j as int].dom().contains(key_g));
                    assert(cqv.steps[j as int][key_g] == step@);
                }
                let cached = caches[j].contains_key(&idx);
                let evals: Vec<QuadraticExtension>;
                if cached {
                    proof {
                        let keys = key_seq(iv, abs, j + 1);
                        let rv = recon_vals(cqv, iv, vv, abs, j as int);
                        let fww = fww_map(keys, rv, k as int);
                        assert(fww.dom().contains(key_g));
                        let kk = choose|kk: int| 0 <= kk < k && #[trigger] keys[kk] == key_g;
                        assert(fww[keys[kk]] == rv[first_in(keys, keys[kk], 0)]);
                        assert(!fresh(iv, abs, j + 1, k as int)) by {
                            assert(first_of(iv, abs, j + 1, k as int) <= kk);
                        }
                    }
                    let got = caches[j].get(&idx);
                    let e = clone_vec_copy(got.unwrap());
                    proof {
                        let keys = key_seq(iv, abs, j + 1);
                        let rv = recon_vals(cqv, iv, vv, abs, j as int);
                        let fww = fww_map(keys, rv, k as int);
                        let f = first_in(keys, key_g, 0);
                        lemma_first_in_props(keys, key_g, 0);
                        assert(caches@[j as int]@.map_values(vec_view)[key_g]
                            == vec_view(caches@[j as int]@[key_g]));
                        assert(e@ == fww[key_g]);
                        let kk = choose|kk: int| 0 <= kk < k && #[trigger] keys[kk] == key_g;
                        assert(fww[keys[kk]] == rv[first_in(keys, keys[kk], 0)]);
                        assert(e@ == rv[f]);
                        assert(recon_evals(cqv, iv, vv, abs, f, j as int)
                            =~= recon_evals(cqv, iv, vv, abs, k as int, j as int)) by {
                            assert(keys[f] == keys[k as int]);
                            assert(first_in(keys, keys[f], 0) == f);
                        }
                    }
                    evals = e;
                } else {
                    proof {
                        assert(fresh(iv, abs, j + 1, k as int)) by {
                            let f = first_of(iv, abs, j + 1, k as int);
                            if f < k {
                                assert(fww_map(
                                    key_seq(iv, abs, j + 1),
                                    recon_vals(cqv, iv, vv, abs, j as int),
                                    k as int,
                                ).dom().contains(key_g));
                            }
                        }
                    }
                    let mut e = clone_vec_copy(&step.evals);
                    if e.len() != pow - 1 {
                        proof {
                            assert(cqv.steps[j as int][key_g].evals.len()
                                != pow2(abs[j as int] as nat) - 1);
                        }
                        return Err(MalformedCompressedProof);
                    }
                    if pos >= fri_inferred_elements.0.len() {
                        proof {
                            assert(stream_pos(iv, abs, k as int, j + 1)
                                == stream_pos(iv, abs, k as int, j as int) + 1);
                            lemma_stream_pos_le_end(iv, abs, k as int, j + 1);
                            assert(vv.len() < stream_pos(iv, abs, n as int, 0));
                        }
                        return Err(MalformedCompressedProof);
                    }
                    e.insert(cw, fri_inferred_elements.0[pos]);
                    pos = pos + 1;
                    proof {
                        assert(e@ =~= recon_evals(cqv, iv, vv, abs, k as int, j as int));
                    }
                    let cache_entry = clone_vec_copy(&e);
                    let mut cache_j = caches.remove(j);
                    proof {
                        lemma_map_values_insert(cache_j@, vec_view, idx, cache_entry);
                    }
                    cache_j.insert(idx, cache_entry);
                    caches.insert(j, cache_j);
                    evals = e;
                }
                steps_out.push(FriQueryStep {
                    evals,
                    merkle_proof: clone_merkle_proof(&step.merkle_proof),
                });
                proof {
                    assert(caches@[j as int]@.map_values(vec_view) =~= fww_map(
                        key_seq(iv, abs, j + 1),
                        recon_vals(cqv, iv, vv, abs, j as int),
                        k + 1,
                    ));
                }
                j += 1;
            }
            rounds_out.push(FriQueryRound { initial_trees_proof: initial, steps: steps_out });
            proof {
                assert(stream_pos(iv, abs, k + 1, 0)
                    == stream_pos(iv, abs, k as int, num_reductions as int));
                assert(rounds_out@[k as int]@ =~= decomp_round(cv, iv, vv, abs, k as int));
            }
            k += 1;
        }
        let result = FriProof {
            commit_phase_merkle_caps,
            query_round_proofs: rounds_out,
            final_poly,
            pow_witness,
        };
        proof {
            assert(decompress_ok(cv, iv, vv, abs));
            assert(result@ =~= spec_decompressed(cv, iv, vv, abs));
        }
        Ok(result)
    }
}

/// The inferred elements consumed strictly before the pair (query `k`,
/// depth `j`): for every fresh pair, the evaluation that compression
/// removed from its step.
pub open spec fn infer_upto(
    p: FriProofV,
    indices: Seq<usize>,
    abs: Seq<usize>,
    k: int,
    j: int,
) -> Seq<QuadraticExtension>
    decreases k, j,
{
    if k <= 0 && j <= 0 {
        Seq::empty()
    } else if j <= 0 {
        infer_upto(p, indices, abs, k - 1, abs.len() as int)
    } else {
        infer_upto(p, indices, abs, k, j - 1) + if fresh(indices, abs, j, k) {
            seq![p.rounds[k].steps[j - 1].evals[coset_pos(indices[k] as int, abs, j - 1)]]
        } else {
            Seq::empty()
        }
    }
}

/// All inferred elements of a proof, in consumption order.
pub open spec fn infer_seq(p: FriProofV, indices: Seq<usize>, abs: Seq<usize>) -> Seq<
    QuadraticExtension,
> {
    infer_upto(p, indices, abs, indices.len() as int, 0)
}

/// The inferred prefix before a pair is exactly as long as the elements
/// consumed before it.
proof fn lemma_infer_len(p: FriProofV, indices: Seq<usize>, abs: Seq<usize>, k: int, j: int)
    ensures
        infer_upto(p, indices, abs, k, j).len() == stream_pos(indices, abs, k, j),
    decreases k, j,
{
    if k <= 0 && j <= 0 {
    } else if j <= 0 {
        lemma_infer_len(p, indices, abs, k - 1, abs.len() as int);
    } else {
        lemma_infer_len(p, indices, abs, k, j - 1);
    }
}

/// Every inferred prefix is a prefix of the whole inferred sequence.
proof fn lemma_infer_prefix(p: FriProofV, indices: Seq<usize>, abs: Seq<usize>, k: int, j: int)
    requires
        0 <= k <= indices.len(),
        0 <= j <= abs.len(),
        k == indices.len() ==> j == 0,
    ensures
        infer_upto(p, indices, abs, k, j)
            == infer_seq(p, indices, abs).take(stream_pos(indices, abs, k, j)),
    decreases indices.len() - k, abs.len() - j,
{
    lemma_infer_len(p, indices, abs, k, j);
    if k == indices.len() && j == 0 {
        assert(infer_seq(p, indices, abs).take(stream_pos(indices, abs, k, j))
            =~= infer_seq(p, indices, abs));
    } else if j == abs.len() {
        assert(infer_upto(p, indices, abs, k + 1, 0) == infer_upto(p, indices, abs, k, j));
        assert(stream_pos(indices, abs, k + 1, 0) == stream_pos(indices, abs, k, j));
        lemma_infer_prefix(p, indices, abs, k + 1, 0);
    } else {
        lemma_infer_prefix(p, indices, abs, k, j + 1);
        lemma_infer_len(p, indices, abs, k, j + 1);
        assert(infer_upto(p, indices, abs, k, j)
            =~= infer_upto(p, indices, abs, k, j + 1).take(stream_pos(indices, abs, k, j)));
        assert(infer_seq(p, indices, abs).take(stream_pos(indices, abs, k, j + 1)).take(
            stream_pos(indices, abs, k, j))
            =~= infer_seq(p, indices, abs).take(stream_pos(indices, abs, k, j))) by {
            lemma_stream_pos_le_end(indices, abs, k, j + 1);
            lemma_infer_len(p, indices, abs, indices.len() as int, 0);
        }
    }
}

/// At a fresh pair, the inferred sequence holds exactly the evaluation
/// that compression removed there.
proof fn lemma_infer_at(p: FriProofV, indices: Seq<usize>, abs: Seq<usize>, k: int, j: int)
    requires
        0 <= k < indices.len(),
        0 <= j < abs.len(),
        fresh(indices, abs, j + 1, k),
    ensures
        0 <= stream_pos(indices, abs, k, j) < infer_seq(p, indices, abs).len(),
        infer_seq(p, indices, abs)[stream_pos(indices, abs, k, j)]
            == p.rounds[k].steps[j].evals[coset_pos(indices[k] as int, abs, j)],
{
    lemma_infer_prefix(p, indices, abs, k, j);
    lemma_infer_prefix(p, indices, abs, k, j + 1);
    lemma_infer_len(p, indices, abs, k, j);
    lemma_infer_len(p, indices, abs, k, j + 1);
    lemma_infer_len(p, indices, abs, indices.len() as int, 0);
    lemma_stream_pos_le_end(indices, abs, k, j + 1);
    assert(stream_pos(indices, abs, k, 0) >= 0) by {
        lemma_infer_len(p, indices, abs, k, 0);
    }
    lemma_stream_pos_row(indices, abs, k, 0, j);
    let sp = stream_pos(indices, abs, k, j);
    let full = infer_seq(p, indices, abs);
    assert(full.take(sp + 1) == full.take(sp)
        + seq![p.rounds[k].steps[j].evals[coset_pos(indices[k] as int, abs, j)]]);
    assert(full[sp] == full.take(sp + 1)[sp]);
}

impl FriProof {
    /// The elements a verifier rederives during FRI checking, in the order
    /// decompression consumes them: for each first sighting of a reduced
    /// index, the evaluation at the query's position in that coset.
    pub fn inferred_elements(&self, indices: &Vec<usize>, params: &FriParams) -> (r:
        FriInferredElements)
        requires
            fri_proof_wf(self@, indices@, params.reduction_arity_bits@),
        ensures
            r.0@ == infer_seq(self@, indices@, params.reduction_arity_bits@),
    {
        let ghost pv = self@;
        let ghost abs = params.reduction_arity_bits@;
        let ghost iv = indices@;
        let n = indices.len();
        let num_reductions = params.reduction_arity_bits.len();
        let mut seen: Vec<HashMap<usize, bool>> = Vec::new();
        let mut jj: usize = 0;
        while jj < num_reductions
            invariant
                jj <= num_reductions,
                seen@.len() == jj,
                forall|i: int| 0 <= i < jj ==> (#[trigger] seen@[i])@ =~= Map::<
                    usize,
                    bool,
                >::empty(),
            decreases num_reductions - jj,
        {
            seen.push(HashMap::new());
            jj += 1;
        }
        let mut out: Vec<QuadraticExtension> = Vec::new();
        let mut k: usize = 0;
        while k < n
            invariant
                k <= n,
                n == iv.len(),
                iv == indices@,
                abs == params.reduction_arity_bits@,
                num_reductions == abs.len(),
                pv == self@,
                fri_proof_wf(pv, iv, abs),
                seen@.len() == num_reductions,
                forall|i: int, key: usize| 0 <= i < num_reductions
                    ==> ((#[trigger] seen@[i]@.dom().contains(key))
                        <==> exists|kk: int| 0 <= kk < k
                            && #[trigger] key_seq(iv, abs, i + 1)[kk] == key),
                out@ == infer_upto(pv, iv, abs, k as int, 0),
            decreases n - k,
        {
            let mut idx = indices[k];
            let mut j: usize = 0;
            while j < num_reductions
                invariant
                    j <= num_reductions,
                    0 <= k < n,
                    n == iv.len(),
                    iv == indices@,
                    abs == params.reduction_arity_bits@,
                    num_reductions == abs.len(),
                    pv == self@,
                    fri_proof_wf(pv, iv, abs),
                    idx as int == shifted(iv[k as int] as int, abs, j as int),
                    seen@.len() == num_reductions,
                    forall|i: int, key: usize| 0 <= i < j
                        ==> ((#[trigger] seen@[i]@.dom().contains(key))
                            <==> exists|kk: int| 0 <= kk < k + 1
                                && #[trigger] key_seq(iv, abs, i + 1)[kk] == key),
                    forall|i: int, key: usize| j <= i < num_reductions
                        ==> ((#[trigger] seen@[i]@.dom().contains(key))
                            <==> exists|kk: int| 0 <= kk < k
                                && #[trigger] key_seq(iv, abs, i + 1)[kk] == key),
                    out@ == infer_upto(pv, iv, abs, k as int, j as int),
                decreases num_reductions - j,
            {
                proof {
                    lemma_shifted_bounds(iv[k as int] as int, abs, j as int);
                    vstd::arithmetic::power2::lemma_pow2_pos(abs[j as int] as nat);
                }
                let pow = pow2_usize(params.reduction_arity_bits[j]);
                let cw = idx % pow;
                idx = idx / pow;
                let ghost key_g = key_seq(iv, abs, j + 1)[k as int];
                proof {
                    assert(idx == key_g);
                    lemma_first_of_props(iv, abs, j + 1, k as int);
                }
                if !seen[j].contains_key(&idx) {
                    proof {
                        assert(fresh(iv, abs, j + 1, k as int)) by {
                            let f = first_of(iv, abs, j + 1, k as int);
                            if f < k {
                                assert(key_seq(iv, abs, j + 1)[f] == key_g);
                            }
                        }
                        assert(pv.rounds.len() == self.query_round_proofs@.len());
                        assert(pv.rounds[k as int] == self.query_round_proofs@[k as int]@);
                        assert(self.query_round_proofs@[k as int].steps@.len()
                            == pv.rounds[k as int].steps.len());
                        vstd::arithmetic::div_mod::lemma_mod_bound(
                            shifted(iv[k as int] as int, abs, j as int),
                            pow2(abs[j as int] as nat) as int,
                        );
                    }
                    let step = &self.query_round_proofs[k].steps[j];
                    proof {
                        assert(step@ == pv.rounds[k as int].steps[j as int]);
                        assert(step@.evals.len() == pow2(abs[j as int] as nat));
                    }
                    out.push(step.evals[cw]);
                    let mut seen_j = seen.remove(j);
                    seen_j.insert(idx, true);
                    seen.insert(j, seen_j);
                } else {
                    proof {
                        assert(!fresh(iv, abs, j + 1, k as int)) by {
                            let kk = choose|kk: int| 0 <= kk < k
                                && #[trigger] key_seq(iv, abs, j + 1)[kk] == key_g;
                            assert(first_of(iv, abs, j + 1, k as int) <= kk);
                        }
                    }
                }
                proof {
                    assert(out@ =~= infer_upto(pv, iv, abs, k as int, j + 1));
                    assert forall|i: int, key: usize| 0 <= i < j + 1 implies
                        ((#[trigger] seen@[i]@.dom().contains(key))
                            <==> exists|kk: int| 0 <= kk < k + 1
                                && #[trigger] key_seq(iv, abs, i + 1)[kk] == key) by {
                        if i < j {
                        } else {
                            if seen@[i]@.dom().contains(key) {
                                if key == key_g {
                                    assert(key_seq(iv, abs, i + 1)[k as int] == key);
                                }
                            }
                            if exists|kk: int| 0 <= kk < k + 1
                                && #[trigger] key_seq(iv, abs, i + 1)[kk] == key {
                                let kk = choose|kk: int| 0 <= kk < k + 1
                                    && #[trigger] key_seq(iv, abs, i + 1)[kk] == key;
                            }
                        }
                    }
                }
                j += 1;
            }
            proof {
                assert(infer_upto(pv, iv, abs, k + 1, 0)
                    == infer_upto(pv, iv, abs, k as int, num_reductions as int));
            }
            k += 1;
        }
        FriInferredElements(out)
    }
}

/// Decompressing a compressed well-formed, coherent proof with its own
/// inferred elements succeeds and gives back exactly the original proof.
pub proof fn lemma_compress_decompress_round_trip(
    p: FriProofV,
    indices: Seq<usize>,
    abs: Seq<usize>,
    v: Seq<QuadraticExtension>,
)
    requires
        fri_proof_wf(p, indices, abs),
        fri_proof_coherent(p, indices, abs),
        v == infer_seq(p, indices, abs),
    ensures
        decompress_ok(spec_compressed(p, indices, abs), indices, v, abs),
        spec_decompressed(spec_compressed(p, indices, abs), indices, v, abs) == p,
{
    let c = spec_compressed(p, indices, abs);
    let cq = c.query_rounds;
    let n = indices.len() as int;
    lemma_infer_len(p, indices, abs, n, 0);

    assert forall|k: int| 0 <= k < n implies
        cq.initial_trees_proofs.dom().contains(#[trigger] indices[k])
        && cq.initial_trees_proofs[indices[k]] == p.rounds[k].initial by {
        let keys = key_seq(indices, abs, 0);
        lemma_fww_map_props(keys, initial_vals(p), n);
        assert(keys[k] == indices[k]);
        let f = first_in(keys, keys[k], 0);
        lemma_first_in_props(keys, keys[k], 0);
        assert(f <= k) by {
            if f > k {
                assert(keys[k] != keys[k]);
            }
        }
        assert(cq.initial_trees_proofs[keys[k]] == initial_vals(p)[f]);
        assert(keys[f] == indices[f]);
        assert(indices[f] == indices[k]);
        assert(p.rounds[f].initial == p.rounds[k].initial);
    }

    assert forall|k: int, j: int| 0 <= k < n && 0 <= j < abs.len() implies
        cq.steps[j].dom().contains(#[trigger] key_seq(indices, abs, j + 1)[k])
        && (FriQueryStepV {
            evals: recon_evals(cq, indices, v, abs, k, j),
            siblings: cq.steps[j][key_seq(indices, abs, j + 1)[k]].siblings,
        }) == p.rounds[k].steps[j]
        && (fresh(indices, abs, j + 1, k)
            ==> cq.steps[j][key_seq(indices, abs, j + 1)[k]].evals.len()
                == pow2(abs[j] as nat) - 1) by {
        let keys = key_seq(indices, abs, j + 1);
        lemma_fww_map_props(keys, step_vals(p, indices, abs, j), n);
        assert(cq.steps[j] == fww_map(keys, step_vals(p, indices, abs, j), n));
        let f = first_in(keys, keys[k], 0);
        lemma_first_in_props(keys, keys[k], 0);
        assert(f <= k) by {
            if f > k {
                assert(keys[k] != keys[k]);
            }
        }
        assert(cq.steps[j][keys[k]] == step_vals(p, indices, abs, j)[f]);
        assert(fresh(indices, abs, j + 1, f)) by {
            assert(first_in(keys, keys[f], 0) == f);
        }
        lemma_infer_at(p, indices, abs, f, j);
        let e = p.rounds[f].steps[j].evals;
        let cp = coset_pos(indices[f] as int, abs, j);
        vstd::arithmetic::power2::lemma_pow2_pos(abs[j] as nat);
        lemma_shifted_bounds(indices[f] as int, abs, j);
        vstd::arithmetic::div_mod::lemma_mod_bound(
            shifted(indices[f] as int, abs, j), pow2(abs[j] as nat) as int);
        assert(0 <= cp < e.len());
        assert(e.remove(cp).insert(cp, e[cp]) =~= e);
        assert(recon_evals(cq, indices, v, abs, k, j) == e);
        assert(p.rounds[f].steps[j] == p.rounds[k].steps[j]);
        assert((FriQueryStepV {
            evals: recon_evals(cq, indices, v, abs, k, j),
            siblings: cq.steps[j][keys[k]].siblings,
        }) =~= p.rounds[k].steps[j]);
        if fresh(indices, abs, j + 1, k) {
            assert(f == k);
        }
    }

    assert(decompress_ok(c, indices, v, abs));
    assert forall|k: int| 0 <= k < n implies
        #[trigger] spec_decompressed(c, indices, v, abs).rounds[k] == p.rounds[k] by {
        assert(decomp_round(c, indices, v, abs, k).steps =~= p.rounds[k].steps);
        assert(decomp_round(c, indices, v, abs, k) =~= p.rounds[k]);
    }
    assert(spec_decompressed(c, indices, v, abs) =~= p);
}

/// Compressing what decompression rebuilt gives back the identical
/// compressed artifact: compression is idempotent across a round trip.
pub proof fn lemma_recompression_identical(
    p: FriProofV,
    indices: Seq<usize>,
    abs: Seq<usize>,
    v: Seq<QuadraticExtension>,
)
    requires
        fri_proof_wf(p, indices, abs),
        fri_proof_coherent(p, indices, abs),
        v == infer_seq(p, indices, abs),
    ensures
        spec_compressed(
            spec_decompressed(spec_compressed(p, indices, abs), indices, v, abs),
            indices,
            abs,
        ) == spec_compressed(p, indices, abs),
{
    lemma_compress_decompress_round_trip(p, indices, abs, v);
}

/// Every step record a compressed proof retains holds exactly one
/// evaluation less than its full coset.
pub proof fn lemma_compressed_step_lengths(
    p: FriProofV,
    indices: Seq<usize>,
    abs: Seq<usize>,
    j: int,
    key: usize,
)
    requires
        fri_proof_wf(p, indices, abs),
        0 <= j < abs.len(),
        spec_compressed(p, indices, abs).query_rounds.steps[j].dom().contains(key),
    ensures
        spec_compressed(p, indices, abs).query_rounds.steps[j][key].evals.len()
            == pow2(abs[j] as nat) - 1,
{
    let n = indices.len() as int;
    let keys = key_seq(indices, abs, j + 1);
    lemma_fww_map_props(keys, step_vals(p, indices, abs, j), n);
    let k = choose|k: int| 0 <= k < n && #[trigger] keys[k] == key;
    let f = first_in(keys, keys[k], 0);
    lemma_first_in_props(keys, keys[k], 0);
    assert(f <= k) by {
        if f > k {
            assert(keys[k] != keys[k]);
        }
    }
    vstd::arithmetic::power2::lemma_pow2_pos(abs[j] as nat);
}

/// Mapping the values of a map after an insert is the insert of the mapped
/// value.
pub proof fn lemma_map_values_insert<A, B>(m: Map<usize, A>, f: spec_fn(A) -> B, key: usize, v: A)
    ensures
        m.insert(key, v).map_values(f) == m.map_values(f).insert(key, f(v)),
{
    assert(m.insert(key, v).map_values(f) =~= m.map_values(f).insert(key, f(v)));
}

/// Mapping the values of the empty map gives the empty map.
pub proof fn lemma_map_values_empty<A, B>(f: spec_fn(A) -> B)
    ensures
        Map::<usize, A>::empty().map_values(f) == Map::<usize, B>::empty(),
{
    assert(Map::<usize, A>::empty().map_values(f) =~= Map::<usize, B>::empty());
}

} // verus!
