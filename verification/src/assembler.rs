//! Public-input assembly: the ordered list of quantized tensors that is
//! bound to the circuit's instance columns, respecting the declared
//! input/output visibility and the input-before-output ordering invariant.

use vstd::prelude::*;

use crate::tensor::QuantizedTensor;

verus! {

/// Whether a tensor group is bound to public instance columns or kept
/// private to the witness.
#[derive(Clone, Copy, Debug, PartialEq, Eq, Structural)]
pub enum Visibility {
    /// The group is exposed as public inputs.
    Public,
    /// The group stays private.
    Private,
}

impl Visibility {
    /// True exactly on the public variant.
    pub open spec fn spec_is_public(self) -> bool {
        self is Public
    }

    /// True exactly on the public variant.
    pub fn is_public(&self) -> (r: bool)
        ensures
            r == self.spec_is_public(),
    {
        match self {
            Visibility::Public => true,
            Visibility::Private => false,
        }
    }
}

/// The circuit's declared visibility for its input and output tensors.
#[derive(Clone, Copy, Debug, PartialEq, Eq, Structural)]
pub struct VisibilityPair {
    /// Visibility of the model inputs.
    pub input: Visibility,
    /// Visibility of the model outputs.
    pub output: Visibility,
}

/// What the assembled public-input list must be: the quantized inputs first
/// (when inputs are public), then the quantized outputs (when outputs are
/// public), each group in its original order.
pub open spec fn spec_public_input(
    inputs: Seq<QuantizedTensor>,
    outputs: Seq<QuantizedTensor>,
    visibility: VisibilityPair,
) -> Seq<QuantizedTensor> {
    (if visibility.input.spec_is_public() {
        inputs
    } else {
        Seq::<QuantizedTensor>::empty()
    }) + (if visibility.output.spec_is_public() {
        outputs
    } else {
        Seq::<QuantizedTensor>::empty()
    })
}

/// Ordering law: when both inputs and outputs are public, the assembled
/// public-input set is exactly the quantized inputs followed by the
/// quantized outputs — never the reverse.
pub proof fn lemma_inputs_before_outputs(
    inputs: Seq<QuantizedTensor>,
    outputs: Seq<QuantizedTensor>,
    visibility: VisibilityPair,
)
    requires
        visibility.input.spec_is_public(),
        visibility.output.spec_is_public(),
    ensures
        spec_public_input(inputs, outputs, visibility) == inputs + outputs,
{
}

/// Visibility law: when both flags are private, the assembled
/// public-input set is empty.
pub proof fn lemma_private_visibility_empty(
    inputs: Seq<QuantizedTensor>,
    outputs: Seq<QuantizedTensor>,
    visibility: VisibilityPair,
)
    requires
        !visibility.input.spec_is_public(),
        !visibility.output.spec_is_public(),
    ensures
        spec_public_input(inputs, outputs, visibility).len() == 0,
{
    assert(spec_public_input(inputs, outputs, visibility) =~= Seq::<QuantizedTensor>::empty());
}

/// Assembles the ordered public-input list from the already-quantized input
/// and output tensors: inputs before outputs, each group only when its
/// visibility flag is public, and empty when both flags are private.
pub fn prepare_public_input(
    inputs: Vec<QuantizedTensor>,
    outputs: Vec<QuantizedTensor>,
    visibility: &VisibilityPair,
) -> (r: Vec<QuantizedTensor>)
    ensures
        r@ == spec_public_input(inputs@, outputs@, *visibility),
        !visibility.input.spec_is_public() && !visibility.output.spec_is_public()
            ==> r@.len() == 0,
{
    let ghost gin = inputs@;
    let ghost gout = outputs@;
    let mut result: Vec<QuantizedTensor> = Vec::new();
    let mut inputs = inputs;
    let mut outputs = outputs;
    if visibility.input.is_public() {
        result.append(&mut inputs);
    }
    if visibility.output.is_public() {
        result.append(&mut outputs);
    }
    proof {
        assert(result@ =~= spec_public_input(gin, gout, *visibility));
    }
    result
}

} // verus!
