//! Failure diagnostics: a pure mapping from the discriminated
//! verification-failure variants reported by the backend's plain checker
//! to operator-facing diagnostic records. Purely observational; how a
//! record is surfaced (logged, returned, displayed) is the caller's choice.

use vstd::prelude::*;

verus! {

/// A verification failure as the backend's non-cryptographic checker
/// reports it, with its identifying detail already rendered to plain
/// values by the caller.
#[derive(Clone, Debug)]
pub enum VerifyFailure {
    /// A value fell outside a configured lookup table range.
    Lookup {
        /// The name of the lookup argument.
        name: String,
        /// Which lookup argument failed.
        lookup_index: usize,
        /// Where the failure occurred.
        location: String,
    },
    /// A named polynomial constraint failed at a location.
    ConstraintNotSatisfied {
        /// The constraint that failed.
        constraint: String,
        /// Where the failure occurred.
        location: String,
    },
    /// A constraint was deliberately marked invalid.
    ConstraintPoisoned {
        /// The poisoned constraint.
        constraint: String,
    },
    /// A copy constraint (equality across columns) was violated.
    Permutation {
        /// The column whose cell value was not preserved.
        column: String,
        /// Where the failure occurred.
        location: String,
    },
    /// A required cell has no assigned value.
    CellNotAssigned {
        /// The constraint group the cell belongs to.
        gate: String,
        /// The region the cell belongs to.
        region: String,
        /// That group's offset within the region.
        gate_offset: usize,
        /// The column of the unassigned cell.
        column: String,
        /// The cell's rotation within the region.
        offset: usize,
    },
}

/// The diagnostic category a failure falls under.
#[derive(Clone, Copy, Debug, PartialEq, Eq, Structural)]
pub enum FailureKind {
    /// A value fell outside a lookup table's range.
    LookupOutOfRange,
    /// A polynomial constraint was not satisfied.
    ConstraintNotSatisfied,
    /// A constraint was poisoned.
    ConstraintPoisoned,
    /// A permutation (copy) constraint was violated.
    PermutationMismatch,
    /// A required cell was never assigned.
    CellNotAssigned,
}

/// An operator-facing diagnostic record: the category, the subject named
/// by the failure, where it occurred, and a remediation hint.
#[derive(Clone, Debug)]
pub struct Diagnostic {
    /// The diagnostic category.
    pub kind: FailureKind,
    /// The constraint, lookup, column or group the failure names.
    pub subject: String,
    /// Where the failure occurred, where the variant reports a location.
    pub location: String,
    /// The suggested remediation.
    pub hint: String,
}

/// The remediation hint attached to each diagnostic category.
pub open spec fn spec_hint(kind: FailureKind) -> Seq<char> {
    match kind {
        FailureKind::LookupOutOfRange => "increase 'bits' or reduce 'scale'"@,
        FailureKind::ConstraintNotSatisfied => "structural bug in circuit or bad witness"@,
        FailureKind::ConstraintPoisoned => "configuration error"@,
        FailureKind::PermutationMismatch => "increase 'scale' or check wiring"@,
        FailureKind::CellNotAssigned => "circuit builder left a cell unassigned"@,
    }
}

/// The category a reported failure variant falls under.
pub open spec fn spec_kind_of(f: VerifyFailure) -> FailureKind {
    match f {
        VerifyFailure::Lookup { .. } => FailureKind::LookupOutOfRange,
        VerifyFailure::ConstraintNotSatisfied { .. } => FailureKind::ConstraintNotSatisfied,
        VerifyFailure::ConstraintPoisoned { .. } => FailureKind::ConstraintPoisoned,
        VerifyFailure::Permutation { .. } => FailureKind::PermutationMismatch,
        VerifyFailure::CellNotAssigned { .. } => FailureKind::CellNotAssigned,
    }
}

/// The subject each failure variant names: the lookup's name, the failed
/// or poisoned constraint, the violated column, or the constraint group.
pub open spec fn spec_subject_of(f: VerifyFailure) -> Seq<char> {
    match f {
        VerifyFailure::Lookup { name, .. } => name@,
        VerifyFailure::ConstraintNotSatisfied { constraint, .. } => constraint@,
        VerifyFailure::ConstraintPoisoned { constraint } => constraint@,
        VerifyFailure::Permutation { column, .. } => column@,
        VerifyFailure::CellNotAssigned { gate, .. } => gate@,
    }
}

/// The location each failure variant reports; empty where the variant
/// carries none.
pub open spec fn spec_location_of(f: VerifyFailure) -> Seq<char> {
    match f {
        VerifyFailure::Lookup { location, .. } => location@,
        VerifyFailure::ConstraintNotSatisfied { location, .. } => location@,
        VerifyFailure::ConstraintPoisoned { .. } => Seq::<char>::empty(),
        VerifyFailure::Permutation { location, .. } => location@,
        VerifyFailure::CellNotAssigned { region, .. } => region@,
    }
}

/// Returns the remediation hint for a diagnostic category.
pub fn remediation_hint(kind: &FailureKind) -> (h: String)
    ensures
        h@ == spec_hint(*kind),
{
    match kind {
        FailureKind::LookupOutOfRange => String::from_str("increase 'bits' or reduce 'scale'"),
        FailureKind::ConstraintNotSatisfied => String::from_str(
            "structural bug in circuit or bad witness",
        ),
        FailureKind::ConstraintPoisoned => String::from_str("configuration error"),
        FailureKind::PermutationMismatch => String::from_str("increase 'scale' or check wiring"),
        FailureKind::CellNotAssigned => String::from_str(
            "circuit builder left a cell unassigned",
        ),
    }
}

/// Maps a reported verification failure to its diagnostic record: the
/// matching category, the subject and location the variant names, and the
/// category's remediation hint. Never halts the caller: every variant has
/// a diagnostic.
pub fn parse_prover_errors(f: VerifyFailure) -> (d: Diagnostic)
    ensures
        d.kind == spec_kind_of(f),
        d.subject@ == spec_subject_of(f),
        d.location@ == spec_location_of(f),
        d.hint@ == spec_hint(spec_kind_of(f)),
{
    match f {
        VerifyFailure::Lookup { name, lookup_index: _, location } => Diagnostic {
            kind: FailureKind::LookupOutOfRange,
            subject: name,
            location,
            hint: remediation_hint(&FailureKind::LookupOutOfRange),
        },
        VerifyFailure::ConstraintNotSatisfied { constraint, location } => Diagnostic {
            kind: FailureKind::ConstraintNotSatisfied,
            subject: constraint,
            location,
            hint: remediation_hint(&FailureKind::ConstraintNotSatisfied),
        },
        VerifyFailure::ConstraintPoisoned { constraint } => Diagnostic {
            kind: FailureKind::ConstraintPoisoned,
            subject: constraint,
            location: String::new(),
            hint: remediation_hint(&FailureKind::ConstraintPoisoned),
        },
        VerifyFailure::Permutation { column, location } => Diagnostic {
            kind: FailureKind::PermutationMismatch,
            subject: column,
            location,
            hint: remediation_hint(&FailureKind::PermutationMismatch),
        },
        VerifyFailure::CellNotAssigned { gate, region, gate_offset: _, column: _, offset: _ } =>
            Diagnostic {
                kind: FailureKind::CellNotAssigned,
                subject: gate,
                location: region,
                hint: remediation_hint(&FailureKind::CellNotAssigned),
            },
    }
}

} // verus!
