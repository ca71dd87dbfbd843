//! Proof-lifecycle orchestration for a zero-knowledge proving pipeline:
//! ordered assembly of quantized public inputs, the witness-free circuit
//! form used for key generation, the proof object's canonical wire format
//! with its round trip, and structured verification-failure diagnostics.
//!
//! The cryptographic backend (key generation, transcript-based proof
//! construction and verification) and all file handling live outside this
//! library; callers hand in plain values and take plain values back.

pub mod assembler;
pub mod circuit;
pub mod codec;
pub mod diagnostics;
pub mod proof_object;
pub mod tensor;

pub use assembler::prepare_public_input;
pub use assembler::Visibility;
pub use assembler::VisibilityPair;
pub use circuit::prepare_circuit;
pub use circuit::ModelCircuit;
pub use codec::FormatError;
pub use diagnostics::parse_prover_errors;
pub use diagnostics::Diagnostic;
pub use diagnostics::FailureKind;
pub use diagnostics::VerifyFailure;
pub use proof_object::package_proof;
pub use proof_object::save_load_round_trip;
pub use proof_object::prepare_instances;
pub use proof_object::public_input_values;
pub use proof_object::Proof;
pub use tensor::QuantizedTensor;
