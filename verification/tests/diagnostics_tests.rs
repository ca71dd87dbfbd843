use pfsys::parse_prover_errors;
use pfsys::FailureKind;
use pfsys::VerifyFailure;

#[test]
fn lookup_failure_maps_to_range_diagnostic() {
    let d = parse_prover_errors(VerifyFailure::Lookup {
        name: String::from("range check"),
        lookup_index: 3,
        location: String::from("region 1"),
    });
    assert_eq!(d.kind, FailureKind::LookupOutOfRange);
    assert_eq!(d.subject, "range check");
    assert_eq!(d.location, "region 1");
    assert_eq!(d.hint, "increase 'bits' or reduce 'scale'");
}

#[test]
fn constraint_failure_maps_to_constraint_diagnostic() {
    let d = parse_prover_errors(VerifyFailure::ConstraintNotSatisfied {
        constraint: String::from("gate 0"),
        location: String::from("row 7"),
    });
    assert_eq!(d.kind, FailureKind::ConstraintNotSatisfied);
    assert_eq!(d.subject, "gate 0");
    assert_eq!(d.location, "row 7");
    assert_eq!(d.hint, "structural bug in circuit or bad witness");
}

#[test]
fn poisoned_constraint_maps_to_configuration_diagnostic() {
    let d = parse_prover_errors(VerifyFailure::ConstraintPoisoned {
        constraint: String::from("gate 2"),
    });
    assert_eq!(d.kind, FailureKind::ConstraintPoisoned);
    assert_eq!(d.subject, "gate 2");
    assert_eq!(d.location, "");
    assert_eq!(d.hint, "configuration error");
}

#[test]
fn permutation_failure_maps_to_wiring_diagnostic() {
    let d = parse_prover_errors(VerifyFailure::Permutation {
        column: String::from("advice 1"),
        location: String::from("row 4"),
    });
    assert_eq!(d.kind, FailureKind::PermutationMismatch);
    assert_eq!(d.subject, "advice 1");
    assert_eq!(d.location, "row 4");
    assert_eq!(d.hint, "increase 'scale' or check wiring");
}

#[test]
fn unassigned_cell_maps_to_builder_diagnostic() {
    let d = parse_prover_errors(VerifyFailure::CellNotAssigned {
        gate: String::from("multiplier"),
        region: String::from("layer 3"),
        gate_offset: 2,
        column: String::from("advice 0"),
        offset: 1,
    });
    assert_eq!(d.kind, FailureKind::CellNotAssigned);
    assert_eq!(d.subject, "multiplier");
    assert_eq!(d.location, "layer 3");
    assert_eq!(d.hint, "circuit builder left a cell unassigned");
}
