//! The model circuit as this layer sees it: the quantized input tensors
//! that become the witness, and the witness-free form that key generation
//! derives keys from.

use vstd::prelude::*;

use crate::tensor::QuantizedTensor;

verus! {

/// A circuit instance over the quantized model inputs. The arithmetization
/// itself belongs to the external circuit builder; this layer only carries
/// the witness tensors and their shapes.
#[derive(Clone, Debug)]
pub struct ModelCircuit {
    /// The quantized input tensors (the witness).
    pub inputs: Vec<QuantizedTensor>,
}

impl ModelCircuit {
    /// Every input tensor's value count matches its shape.
    pub open spec fn well_formed(self) -> bool {
        forall|i: int| 0 <= i < self.inputs@.len() ==> self.inputs@[i].well_formed()
    }

    /// The witness-free circuit: same shapes, every value zeroed. Key
    /// generation must not depend on witness data, so keys are derived
    /// from this form.
    pub fn without_witnesses(&self) -> (c: ModelCircuit)
        ensures
            c.inputs@.len() == self.inputs@.len(),
            forall|i: int| 0 <= i < c.inputs@.len() ==> {
                &&& c.inputs@[i].dims@ == self.inputs@[i].dims@
                &&& c.inputs@[i].values@.len() == self.inputs@[i].values@.len()
                &&& forall|k: int| 0 <= k < c.inputs@[i].values@.len()
                    ==> c.inputs@[i].values@[k] == 0
            },
            self.well_formed() ==> c.well_formed(),
    {
        let n = self.inputs.len();
        let mut inputs: Vec<QuantizedTensor> = Vec::new();
        let mut i: usize = 0;
        while i < n
            invariant
                i <= n,
                n == self.inputs@.len(),
                inputs@.len() == i as nat,
                forall|j: int| 0 <= j < i ==> {
                    &&& inputs@[j].dims@ == self.inputs@[j].dims@
                    &&& inputs@[j].values@.len() == self.inputs@[j].values@.len()
                    &&& forall|k: int| 0 <= k < inputs@[j].values@.len()
                        ==> inputs@[j].values@[k] == 0
                    &&& self.inputs@[j].well_formed() ==> inputs@[j].well_formed()
                },
            decreases n - i,
        {
            inputs.push(self.inputs[i].zeroed());
            i += 1;
        }
        ModelCircuit { inputs }
    }

    /// The shape of each input tensor, recorded alongside a created proof
    /// for verification-side context.
    pub fn input_dims(&self) -> (d: Vec<Vec<usize>>)
        ensures
            d@.len() == self.inputs@.len(),
            forall|i: int| 0 <= i < d@.len() ==> d@[i]@ == self.inputs@[i].dims@,
    {
        let n = self.inputs.len();
        let mut d: Vec<Vec<usize>> = Vec::new();
        let mut i: usize = 0;
        while i < n
            invariant
                i <= n,
                n == self.inputs@.len(),
                d@.len() == i as nat,
                forall|j: int| 0 <= j < i ==> d@[j]@ == self.inputs@[j].dims@,
            decreases n - i,
        {
            let t = &self.inputs[i];
            let m = t.dims.len();
            let mut dims: Vec<usize> = Vec::new();
            let mut j: usize = 0;
            while j < m
                invariant
                    j <= m,
                    m == t.dims@.len(),
                    dims@ =~= t.dims@.take(j as int),
                decreases m - j,
            {
                dims.push(t.dims[j]);
                j += 1;
            }
            proof {
                assert(t.dims@.take(m as int) =~= t.dims@);
            }
            d.push(dims);
            i += 1;
        }
        d
    }
}

/// Builds the circuit instance over the already-quantized input tensors,
/// keeping them in their original order.
pub fn prepare_circuit(inputs: Vec<QuantizedTensor>) -> (c: ModelCircuit)
    ensures
        c.inputs@ == inputs@,
{
    ModelCircuit { inputs }
}

} // verus!
