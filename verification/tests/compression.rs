use fri_goldilocks::field::GoldilocksField;
use fri_goldilocks::extension::QuadraticExtension;
use fri_goldilocks::structure::{
    FriChallenges, FriConfig, FriInferredElements, FriInitialTreeProof, FriParams, FriProof,
    FriQueryRound, FriQueryStep, HashOut, MerkleCap, MerkleProof, PolynomialCoeffs,
};

fn f(x: u64) -> GoldilocksField {
    GoldilocksField(x)
}

fn ext(a: u64, b: u64) -> QuadraticExtension {
    QuadraticExtension(f(a), f(b))
}

fn digest(seed: u64) -> HashOut {
    HashOut { elements: [f(seed), f(seed + 1), f(seed + 2), f(seed + 3)] }
}

fn merkle_proof(seed: u64, len: usize) -> MerkleProof {
    MerkleProof { siblings: (0..len).map(|i| digest(seed + 10 * i as u64)).collect() }
}

fn step(seed: u64, coset: usize) -> FriQueryStep {
    FriQueryStep {
        evals: (0..coset).map(|i| ext(seed + i as u64, seed + 100 + i as u64)).collect(),
        merkle_proof: merkle_proof(seed + 1000, 2),
    }
}

fn initial(seed: u64) -> FriInitialTreeProof {
    FriInitialTreeProof {
        evals_proofs: vec![
            (vec![f(seed), f(seed + 1)], merkle_proof(seed + 2000, 3)),
            (vec![f(seed + 5), f(seed + 6), f(seed + 7)], merkle_proof(seed + 3000, 3)),
        ],
    }
}

fn round(seed: u64, arity_bits: &[usize]) -> FriQueryRound {
    FriQueryRound {
        initial_trees_proof: initial(seed),
        steps: arity_bits
            .iter()
            .enumerate()
            .map(|(i, &bits)| step(seed + 50 * i as u64, 1 << bits))
            .collect(),
    }
}

fn sample_proof(rounds: Vec<FriQueryRound>) -> FriProof {
    FriProof {
        commit_phase_merkle_caps: vec![MerkleCap(vec![digest(1), digest(5)])],
        query_round_proofs: rounds,
        final_poly: PolynomialCoeffs { coeffs: vec![ext(900, 901), ext(902, 903)] },
        pow_witness: f(4242),
    }
}

fn params(arity_bits: Vec<usize>, num_query_rounds: usize) -> FriParams {
    FriParams {
        config: FriConfig { rate_bits: 1, cap_height: 0, num_query_rounds },
        hiding: false,
        degree_bits: 7,
        reduction_arity_bits: arity_bits,
    }
}

fn challenges(indices: Vec<usize>) -> FriChallenges {
    FriChallenges {
        fri_alpha: ext(7, 8),
        fri_betas: vec![ext(9, 10)],
        fri_pow_response: f(11),
        fri_query_indices: indices,
    }
}

#[test]
fn single_query_compression_shapes() {
    // One query at 0b1011 with one arity-2 reduction: the step loses the
    // evaluation at position 0b11 and is stored under key 0b10.
    let p = sample_proof(vec![round(10, &[2])]);
    let indices = vec![0b1011usize];
    let prm = params(vec![2], 1);
    let original_step = p.query_round_proofs[0].steps[0].clone();
    let c = p.compress(&indices, &prm);

    assert_eq!(c.query_round_proofs.indices, vec![0b1011]);
    assert_eq!(c.query_round_proofs.initial_trees_proofs.len(), 1);
    assert!(c.query_round_proofs.initial_trees_proofs.contains_key(&0b1011));
    assert_eq!(c.query_round_proofs.steps.len(), 1);
    assert_eq!(c.query_round_proofs.steps[0].len(), 1);
    let stored = &c.query_round_proofs.steps[0][&0b10];
    assert_eq!(stored.evals.len(), (1 << 2) - 1);
    let mut expected = original_step.evals.clone();
    expected.remove(0b11);
    assert_eq!(stored.evals, expected);
}

#[test]
fn single_query_round_trip() {
    let p = sample_proof(vec![round(10, &[2])]);
    let indices = vec![0b1011usize];
    let prm = params(vec![2], 1);
    let inferred = p.inferred_elements(&indices, &prm);
    assert_eq!(inferred.0.len(), 1);
    assert_eq!(inferred.0[0], p.query_round_proofs[0].steps[0].evals[0b11]);

    let c = p.clone().compress(&indices, &prm);
    let q = c.decompress(&challenges(indices), inferred, &prm).unwrap();
    assert_eq!(q, p);
}

#[test]
fn duplicate_indices_compress_once_and_decompress_twice() {
    // Two queries at the same index share one stored record everywhere.
    let p = sample_proof(vec![round(10, &[2]), round(10, &[2])]);
    let indices = vec![7usize, 7];
    let prm = params(vec![2], 2);
    let inferred = p.inferred_elements(&indices, &prm);
    assert_eq!(inferred.0.len(), 1);

    let c = p.clone().compress(&indices, &prm);
    assert_eq!(c.query_round_proofs.initial_trees_proofs.len(), 1);
    assert_eq!(c.query_round_proofs.steps[0].len(), 1);
    assert!(c.query_round_proofs.steps[0].contains_key(&(7 >> 2)));

    let q = c.decompress(&challenges(indices), inferred, &prm).unwrap();
    assert_eq!(q, p);
    assert_eq!(q.query_round_proofs[0], q.query_round_proofs[1]);
}

#[test]
fn queries_sharing_a_reduced_key_share_the_stored_step() {
    // 0b1011 and 0b1001 differ but both reduce to key 0b10; a coherent
    // prover gives them the same step, stored once and reused.
    let shared = step(70, 4);
    let mut r1 = round(10, &[2]);
    let mut r2 = round(20, &[2]);
    r1.steps = vec![shared.clone()];
    r2.steps = vec![shared.clone()];
    let p = sample_proof(vec![r1, r2]);
    let indices = vec![0b1011usize, 0b1001];
    let prm = params(vec![2], 2);
    let inferred = p.inferred_elements(&indices, &prm);
    // Only the first sighting consumes an inferred element.
    assert_eq!(inferred.0.len(), 1);
    assert_eq!(inferred.0[0], shared.evals[0b11]);

    let c = p.clone().compress(&indices, &prm);
    assert_eq!(c.query_round_proofs.initial_trees_proofs.len(), 2);
    assert_eq!(c.query_round_proofs.steps[0].len(), 1);

    let q = c.decompress(&challenges(indices), inferred, &prm).unwrap();
    assert_eq!(q, p);
}

#[test]
fn depth_two_reduction_keys_and_round_trip() {
    // Index 0b1100101 under arities [3, 2]: keys 0b1100 then 0b11.
    let p = sample_proof(vec![round(10, &[3, 2])]);
    let indices = vec![0b1100101usize];
    let prm = params(vec![3, 2], 1);
    let inferred = p.inferred_elements(&indices, &prm);
    assert_eq!(inferred.0.len(), 2);

    let c = p.clone().compress(&indices, &prm);
    assert_eq!(c.query_round_proofs.steps.len(), 2);
    assert!(c.query_round_proofs.steps[0].contains_key(&0b1100));
    assert!(c.query_round_proofs.steps[1].contains_key(&0b11));
    assert_eq!(c.query_round_proofs.steps[0][&0b1100].evals.len(), (1 << 3) - 1);
    assert_eq!(c.query_round_proofs.steps[1][&0b11].evals.len(), (1 << 2) - 1);

    let q = c.decompress(&challenges(indices), inferred, &prm).unwrap();
    assert_eq!(q, p);
}

#[test]
fn recompression_gives_the_identical_artifact() {
    let p = sample_proof(vec![round(10, &[2]), round(10, &[2])]);
    let indices = vec![7usize, 7];
    let prm = params(vec![2], 2);
    let inferred = p.inferred_elements(&indices, &prm);
    let c = p.clone().compress(&indices, &prm);
    let q = c.clone().decompress(&challenges(indices.clone()), inferred, &prm).unwrap();
    let c2 = q.compress(&indices, &prm);
    assert_eq!(c2, c);
}

#[test]
fn empty_inferred_stream_is_malformed() {
    let p = sample_proof(vec![round(10, &[2])]);
    let indices = vec![0b1011usize];
    let prm = params(vec![2], 1);
    let c = p.compress(&indices, &prm);
    let r = c.decompress(&challenges(indices), FriInferredElements(vec![]), &prm);
    assert!(r.is_err());
}

#[test]
fn unknown_query_index_is_malformed() {
    let p = sample_proof(vec![round(10, &[2])]);
    let indices = vec![0b1011usize];
    let prm = params(vec![2], 1);
    let inferred = p.inferred_elements(&indices, &prm);
    let c = p.compress(&indices, &prm);
    // The challenge record asks for an index that was never stored.
    let r = c.decompress(&challenges(vec![0b1111]), inferred, &prm);
    assert!(r.is_err());
}

#[test]
fn wrongly_sized_stored_coset_is_malformed() {
    let p = sample_proof(vec![round(10, &[2])]);
    let indices = vec![0b1011usize];
    let prm = params(vec![2], 1);
    let inferred = p.inferred_elements(&indices, &prm);
    let mut c = p.compress(&indices, &prm);
    c.query_round_proofs.steps[0].get_mut(&0b10).unwrap().evals.pop();
    let r = c.decompress(&challenges(indices), inferred, &prm);
    assert!(r.is_err());
}

#[test]
fn caps_final_poly_and_witness_pass_through() {
    let p = sample_proof(vec![round(10, &[2])]);
    let indices = vec![0b1011usize];
    let prm = params(vec![2], 1);
    let c = p.clone().compress(&indices, &prm);
    assert_eq!(c.commit_phase_merkle_caps, p.commit_phase_merkle_caps);
    assert_eq!(c.final_poly, p.final_poly);
    assert_eq!(c.pow_witness, p.pow_witness);
}
