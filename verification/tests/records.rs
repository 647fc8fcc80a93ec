use fri_goldilocks::field::GoldilocksField;
use fri_goldilocks::extension::{flatten, unflatten, QuadraticExtension};
use fri_goldilocks::structure::{
    salt_size, FriConfig, FriInitialTreeProof, FriParams, MerkleProof,
};
use fri_goldilocks::target::{FriInitialTreeProofTarget, MerkleProofTarget, Target};

fn f(x: u64) -> GoldilocksField {
    GoldilocksField(x)
}

#[test]
fn salt_sizes() {
    assert_eq!(salt_size(false), 0);
    assert_eq!(salt_size(true), 4);
}

#[test]
fn flatten_and_unflatten_round_trip() {
    let v = vec![
        QuadraticExtension(f(1), f(2)),
        QuadraticExtension(f(3), f(4)),
        QuadraticExtension(f(5), f(6)),
    ];
    let flat = flatten(&v);
    assert_eq!(flat, vec![f(1), f(2), f(3), f(4), f(5), f(6)]);
    assert_eq!(unflatten(&flat), v);
}

#[test]
fn final_poly_len_and_heights() {
    let prm = FriParams {
        config: FriConfig { rate_bits: 1, cap_height: 0, num_query_rounds: 1 },
        hiding: false,
        degree_bits: 7,
        reduction_arity_bits: vec![3, 2],
    };
    assert_eq!(prm.total_arities(), 5);
    assert_eq!(prm.final_poly_len(), 1 << (7 - 5));
    // Heights start at degree_bits + rate_bits = 8 and lose each arity.
    assert_eq!(prm.reduction_heights(), vec![5, 3]);
}

#[test]
fn unsalted_evals_cut_the_salting_tail() {
    let p = FriInitialTreeProof {
        evals_proofs: vec![
            (vec![f(1), f(2), f(3), f(4), f(5), f(6)], MerkleProof { siblings: vec![] }),
        ],
    };
    assert_eq!(p.unsalted_evals(0, false), vec![f(1), f(2), f(3), f(4), f(5), f(6)]);
    assert_eq!(p.unsalted_evals(0, true), vec![f(1), f(2)]);
    assert_eq!(p.unsalted_eval(0, 1, true), f(2));
}

#[test]
fn target_unsalted_evals_cut_the_salting_tail() {
    let t = |index: usize| Target::VirtualTarget { index };
    let p = FriInitialTreeProofTarget {
        evals_proofs: vec![
            (
                vec![t(0), t(1), t(2), t(3), t(4), t(5)],
                MerkleProofTarget { siblings: vec![] },
            ),
        ],
    };
    assert_eq!(p.unsalted_evals(0, true), vec![t(0), t(1)]);
    assert_eq!(p.unsalted_eval(0, 0, true), t(0));
}
