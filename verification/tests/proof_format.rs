use pfsys::FormatError;
use pfsys::Proof;

fn sample_proof() -> Proof {
    Proof { public_inputs: vec![vec![1, -2], vec![3]], proof: vec![0, 255, 7] }
}

#[test]
fn save_produces_canonical_json() {
    let p = sample_proof();
    let bytes = p.save();
    let expected = b"{\"public_inputs\":[[1,-2],[3]],\"proof\":[0,255,7]}".to_vec();
    assert_eq!(bytes, expected);
}

#[test]
fn save_empty_proof() {
    let p = Proof { public_inputs: vec![], proof: vec![] };
    let bytes = p.save();
    assert_eq!(bytes, b"{\"public_inputs\":[],\"proof\":[]}".to_vec());
}

#[test]
fn round_trip_basic() {
    let p = sample_proof();
    let bytes = p.save();
    let q = Proof::load(&bytes).unwrap();
    assert_eq!(q.public_inputs, p.public_inputs);
    assert_eq!(q.proof, p.proof);
}

#[test]
fn round_trip_extreme_values() {
    let p = Proof {
        public_inputs: vec![vec![i32::MIN, i32::MAX, 0, -1], vec![], vec![10]],
        proof: vec![0, 1, 9, 10, 99, 100, 255],
    };
    let bytes = p.save();
    let q = Proof::load(&bytes).unwrap();
    assert_eq!(q.public_inputs, p.public_inputs);
    assert_eq!(q.proof, p.proof);
}

#[test]
fn round_trip_law_holds() {
    assert!(pfsys::save_load_round_trip(&sample_proof()));
    assert!(pfsys::save_load_round_trip(&Proof { public_inputs: vec![], proof: vec![] }));
    assert!(pfsys::save_load_round_trip(&Proof {
        public_inputs: vec![vec![i32::MIN]],
        proof: vec![255],
    }));
}

#[test]
fn save_output_is_valid_json_for_serde() {
    let p = sample_proof();
    let bytes = p.save();
    let v: serde_json::Value = serde_json::from_slice(&bytes).unwrap();
    assert_eq!(v.get("public_inputs").unwrap().get(0).unwrap().get(1).unwrap().as_i64(),
        Some(-2));
    assert_eq!(v.get("proof").unwrap().get(1).unwrap().as_u64(), Some(255));
}

#[test]
fn malformed_json_is_rejected() {
    assert_eq!(Proof::load(&b"not json at all".to_vec()), Err(FormatError));
    assert_eq!(Proof::load(&b"".to_vec()), Err(FormatError));
    assert_eq!(Proof::load(&b"{\"public_inputs\":[[1,".to_vec()), Err(FormatError));
    assert_eq!(Proof::load(&b"{\"public_inputs\":[],\"proof\":[]".to_vec()), Err(FormatError));
}

#[test]
fn trailing_garbage_is_rejected() {
    let mut bytes = sample_proof().save();
    bytes.push(b' ');
    assert_eq!(Proof::load(&bytes), Err(FormatError));
}

#[test]
fn non_canonical_numbers_are_rejected() {
    assert_eq!(Proof::load(&b"{\"public_inputs\":[[01]],\"proof\":[]}".to_vec()),
        Err(FormatError));
    assert_eq!(Proof::load(&b"{\"public_inputs\":[[-0]],\"proof\":[]}".to_vec()),
        Err(FormatError));
    assert_eq!(Proof::load(&b"{\"public_inputs\":[[2147483648]],\"proof\":[]}".to_vec()),
        Err(FormatError));
    assert_eq!(Proof::load(&b"{\"public_inputs\":[],\"proof\":[256]}".to_vec()),
        Err(FormatError));
}

#[test]
fn byte_for_byte_reload_of_handwritten_canonical_text() {
    let bytes = b"{\"public_inputs\":[[-2147483648,2147483647]],\"proof\":[128]}".to_vec();
    let p = Proof::load(&bytes).unwrap();
    assert_eq!(p.public_inputs, vec![vec![i32::MIN, i32::MAX]]);
    assert_eq!(p.proof, vec![128]);
    assert_eq!(p.save(), bytes);
}
