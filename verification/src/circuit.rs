//! Layered arithmetic circuits and their evaluation.

use crate::field::{modulus, reduce, values, Fp};
use vstd::prelude::*;

verus! {

/// A gate combining two wires of the layer below it.
#[derive(Clone, Copy, Debug)]
pub enum Gate {
    Add(usize, usize),
    Mul(usize, usize),
}

/// The value of a gate over the values of the layer below it.
pub open spec fn gate_value(g: Gate, below: Seq<int>) -> int {
    match g {
        Gate::Add(l, r) => reduce(below[l as int] + below[r as int]) as int,
        Gate::Mul(l, r) => reduce(below[l as int] * below[r as int]) as int,
    }
}

/// Both inputs of a gate are wires of a layer of width `width`.
pub open spec fn gate_in_range(g: Gate, width: nat) -> bool {
    match g {
        Gate::Add(l, r) => l < width && r < width,
        Gate::Mul(l, r) => l < width && r < width,
    }
}

/// The values of a layer of gates over the values of the layer below it.
pub open spec fn layer_values(gates: Seq<Gate>, below: Seq<int>) -> Seq<int> {
    Seq::new(gates.len(), |j: int| gate_value(gates[j], below))
}

/// The values at level `i` of a circuit with the given layers, level
/// `layers.len()` being the inputs and level 0 the output layer.
pub open spec fn level_values(layers: Seq<Seq<Gate>>, inputs: Seq<int>, i: nat) -> Seq<int>
    decreases layers.len() - i,
{
    if i >= layers.len() {
        inputs
    } else {
        layer_values(layers[i as int], level_values(layers, inputs, i + 1))
    }
}

/// A layered circuit over `n` inputs; `layers[0]` is the output layer and
/// each layer reads the one after it, the last one reading the inputs.
pub struct Circuit {
    pub layers: Vec<Vec<Gate>>,
    pub n: usize,
}

impl Circuit {
    /// The gates, layer by layer.
    pub open spec fn gates(self) -> Seq<Seq<Gate>> {
        self.layers@.map_values(|l: Vec<Gate>| l@)
    }

    /// The number of wires at level `i` (level `layers.len()` is the inputs).
    pub open spec fn width(self, i: nat) -> nat {
        if i >= self.layers.len() {
            self.n as nat
        } else {
            self.layers@[i as int]@.len()
        }
    }

    /// Every gate reads wires that exist in the layer below it.
    pub open spec fn well_formed(self) -> bool {
        forall|i: int, j: int|
            0 <= i < self.layers.len() && 0 <= j < self.layers@[i].len() ==> gate_in_range(
                #[trigger] self.layers@[i]@[j],
                self.width((i + 1) as nat),
            )
    }

    /// The values at every level of the circuit on `inputs`.
    pub open spec fn witness(self, inputs: Seq<int>, i: nat) -> Seq<int> {
        level_values(self.gates(), inputs, i)
    }

    /// The circuit computing `(a + b) * (c + d)` on inputs `a, b, c, d`.
    pub fn example() -> (r: Circuit)
        ensures
            r.n == 4,
            r.gates() == seq![seq![Gate::Mul(0, 1)], seq![Gate::Add(0, 1), Gate::Add(2, 3)]],
            r.well_formed(),
    {
        let mut output_layer: Vec<Gate> = Vec::new();
        output_layer.push(Gate::Mul(0, 1));
        let mut input_layer: Vec<Gate> = Vec::new();
        input_layer.push(Gate::Add(0, 1));
        input_layer.push(Gate::Add(2, 3));
        let mut layers: Vec<Vec<Gate>> = Vec::new();
        layers.push(output_layer);
        layers.push(input_layer);
        let r = Circuit { layers, n: 4 };
        assert(r.gates()[0] =~= seq![Gate::Mul(0, 1)]);
        assert(r.gates()[1] =~= seq![Gate::Add(0, 1), Gate::Add(2, 3)]);
        assert(r.gates() =~= seq![seq![Gate::Mul(0, 1)], seq![Gate::Add(0, 1), Gate::Add(2, 3)]]);
        r
    }

    /// The values at every level, from the output layer (index 0) down to
    /// the inputs (index `layers.len()`).
    pub fn evaluate(&self, inputs: &[Fp]) -> (w: Vec<Vec<Fp>>)
        requires
            inputs.len() == self.n,
            self.well_formed(),
        ensures
            w.len() == self.layers.len() + 1,
            forall|i: int|
                0 <= i <= self.layers.len() ==> values(#[trigger] w@[i]@) == self.witness(
                    values(inputs@),
                    i as nat,
                ),
    {
        let layer_count = self.layers.len();
        let ghost ins = values(inputs@);
        let mut witness: Vec<Vec<Fp>> = Vec::new();
        witness.push(Vec::new());
        let mut k: usize = 0;
        while k < layer_count
            invariant
                k <= layer_count,
                witness.len() == k + 1,
            decreases layer_count - k,
        {
            witness.push(Vec::new());
            k = k + 1;
        }
        let mut copy: Vec<Fp> = Vec::new();
        let mut j: usize = 0;
        while j < inputs.len()
            invariant
                j <= inputs.len(),
                copy@ == inputs@.subrange(0, j as int),
            decreases inputs.len() - j,
        {
            copy.push(inputs[j]);
            j = j + 1;
        }
        proof {
            assert(inputs@.subrange(0, inputs.len() as int) =~= inputs@);
        }
        witness[layer_count] = copy;
        let mut i = layer_count;
        while i > 0
            invariant
                i <= layer_count,
                layer_count == self.layers.len(),
                witness.len() == layer_count + 1,
                ins == values(inputs@),
                inputs.len() == self.n,
                self.well_formed(),
                forall|l: int|
                    i <= l <= layer_count ==> values(#[trigger] witness@[l]@) == self.witness(
                        ins,
                        l as nat,
                    ),
            decreases i,
        {
            i = i - 1;
            let gates = &self.layers[i];
            let mut out: Vec<Fp> = Vec::new();
            let ghost below = self.witness(ins, (i + 1) as nat);
            proof {
                assert(values(witness@[i + 1]@) == below);
                assert(witness@[i + 1]@.len() == self.width((i + 1) as nat));
            }
            let mut g: usize = 0;
            while g < gates.len()
                invariant
                    g <= gates.len(),
                    gates@ == self.layers@[i as int]@,
                    i < layer_count,
                    layer_count == self.layers.len(),
                    witness.len() == layer_count + 1,
                    self.well_formed(),
                    values(witness@[i + 1]@) == below,
                    witness@[i + 1]@.len() == self.width((i + 1) as nat),
                    out@.len() == g,
                    forall|t: int| 0 <= t < g ==> (#[trigger] out@[t])@ == gate_value(gates@[t], below),
                decreases gates.len() - g,
            {
                let gate = gates[g];
                proof {
                    assert(gate_in_range(self.layers@[i as int]@[g as int], self.width((i + 1) as nat)));
                }
                let prev = &witness[i + 1];
                let v = match gate {
                    Gate::Add(left, right) => prev[left] + prev[right],
                    Gate::Mul(left, right) => prev[left] * prev[right],
                };
                out.push(v);
                g = g + 1;
            }
            proof {
                assert(self.gates()[i as int] == gates@);
                assert(values(out@) =~= layer_values(gates@, below));
                assert(self.witness(ins, i as nat) == layer_values(self.gates()[i as int], below));
            }
            witness[i] = out;
        }
        witness
    }

    /// The first value of the output layer.
    pub fn output(&self, inputs: &[Fp]) -> (r: Fp)
        requires
            inputs.len() == self.n,
            self.well_formed(),
            self.width(0) > 0,
        ensures
            r@ == self.witness(values(inputs@), 0)[0],
    {
        let w = self.evaluate(inputs);
        proof {
            assert(values(w@[0]@) == self.witness(values(inputs@), 0));
            if self.layers.len() == 0 {
                assert(self.witness(values(inputs@), 0) == values(inputs@));
            } else {
                assert(self.witness(values(inputs@), 0).len() == self.layers@[0].len());
            }
        }
        w[0][0]
    }
}

/// The example circuit computes `(a + b) * (c + d)` in the field.
pub proof fn lemma_example_computes(c: Circuit, a: int, b: int, x: int, y: int)
    requires
        c.gates() == seq![seq![Gate::Mul(0, 1)], seq![Gate::Add(0, 1), Gate::Add(2, 3)]],
    ensures
        c.witness(seq![a, b, x, y], 0)[0] == reduce(reduce(a + b) * reduce(x + y) as int),
{
    let ins = seq![a, b, x, y];
    let l1 = c.witness(ins, 1);
    assert(c.witness(ins, 2) == ins);
    assert(l1[0] == reduce(a + b));
    assert(l1[1] == reduce(x + y));
}

/// Every gate of a circuit computes its operation on the two wires it names,
/// whatever their order: at level `i`, gate `Add(l, r)` has the value
/// `(below[l] + below[r]) mod p` and `Mul(l, r)` the value
/// `(below[l] * below[r]) mod p`, where `below` are the values one level down.
pub proof fn lemma_gate_semantics(c: Circuit, inputs: Seq<int>, i: nat, j: int)
    requires
        i < c.layers.len(),
        0 <= j < c.layers@[i as int]@.len(),
    ensures
        c.witness(inputs, i).len() == c.layers@[i as int]@.len(),
        ({
            let below = c.witness(inputs, i + 1);
            match c.layers@[i as int]@[j] {
                Gate::Add(l, r) => c.witness(inputs, i)[j] == (below[l as int] + below[r as int]) % modulus(),
                Gate::Mul(l, r) => c.witness(inputs, i)[j] == (below[l as int] * below[r as int]) % modulus(),
            }
        }),
{
    assert(c.gates()[i as int] == c.layers@[i as int]@);
}

/// A circuit of the single gate `Add(l, r)` over inputs `x` outputs
/// `(x[l] + x[r]) mod p`, and one of the single gate `Mul(l, r)` outputs
/// `(x[l] * x[r]) mod p`, for all `l` and `r`.
pub proof fn lemma_single_gate(c: Circuit, x: Seq<int>, l: usize, r: usize)
    requires
        c.layers.len() == 1,
        c.layers@[0]@.len() == 1,
        c.layers@[0]@[0] == Gate::Add(l, r) || c.layers@[0]@[0] == Gate::Mul(l, r),
    ensures
        c.layers@[0]@[0] == Gate::Add(l, r) ==> c.witness(x, 0)[0] == (x[l as int] + x[r as int]) % modulus(),
        c.layers@[0]@[0] == Gate::Mul(l, r) ==> c.witness(x, 0)[0] == (x[l as int] * x[r as int]) % modulus(),
{
    lemma_gate_semantics(c, x, 0, 0);
    assert(c.witness(x, 1) == x);
}

} // verus!
