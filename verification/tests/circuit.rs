use sumcheck::circuit::{Circuit, Gate};
use sumcheck::field::Fp;

#[test]
fn example_computes_sum_product() {
    let circuit = Circuit::example();
    let inputs = [Fp::new(2), Fp::new(3), Fp::new(4), Fp::new(5)];
    // (2 + 3) * (4 + 5) = 5 * 9 = 45
    assert_eq!(circuit.output(&inputs), Fp::new(45));
}

#[test]
fn witness_has_one_entry_per_layer_plus_inputs() {
    let circuit = Circuit::example();
    let inputs = [Fp::new(1), Fp::new(1), Fp::new(1), Fp::new(1)];
    let witness = circuit.evaluate(&inputs);

    assert_eq!(witness.len(), 3);
    assert_eq!(witness[2], vec![Fp::new(1); 4]); // inputs (above)
    assert_eq!(witness[1], vec![Fp::new(2), Fp::new(2)]); // 1+1, 1+1
    assert_eq!(witness[0], vec![Fp::new(4)]); // 2*2
}

#[test]
fn example_has_the_documented_shape() {
    let circuit = Circuit::example();
    assert_eq!(circuit.n, 4);
    assert_eq!(circuit.layers.len(), 2);
    assert!(matches!(circuit.layers[0][..], [Gate::Mul(0, 1)]));
    assert!(matches!(circuit.layers[1][..], [Gate::Add(0, 1), Gate::Add(2, 3)]));
}

#[test]
fn circuit_without_layers_outputs_its_first_input() {
    let circuit = Circuit { layers: vec![], n: 2 };
    let inputs = [Fp::new(8), Fp::new(9)];
    assert_eq!(circuit.evaluate(&inputs), vec![vec![Fp::new(8), Fp::new(9)]]);
    assert_eq!(circuit.output(&inputs), Fp::new(8));
}

#[test]
fn gates_may_reuse_wires_and_wrap() {
    let circuit = Circuit {
        layers: vec![vec![Gate::Mul(0, 0), Gate::Add(1, 1)]],
        n: 2,
    };
    let m = sumcheck::field::MODULUS;
    let inputs = [Fp::new(m - 1), Fp::new(m - 1)];
    let witness = circuit.evaluate(&inputs);
    assert_eq!(witness[0], vec![Fp::one(), Fp::new(m - 2)]);
}
