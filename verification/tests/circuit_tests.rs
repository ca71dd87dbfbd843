use pfsys::package_proof;
use pfsys::prepare_circuit;
use pfsys::prepare_instances;
use pfsys::QuantizedTensor;

#[test]
fn tensor_new_accepts_matching_shape() {
    let t = QuantizedTensor::new(vec![1, 2, 3, 4, 5, 6], vec![2, 3]).unwrap();
    assert_eq!(t.values, vec![1, 2, 3, 4, 5, 6]);
    assert_eq!(t.dims, vec![2, 3]);
}

#[test]
fn tensor_new_rejects_mismatched_shape() {
    assert!(QuantizedTensor::new(vec![1, 2, 3], vec![2, 2]).is_none());
}

#[test]
fn tensor_new_zero_dimension() {
    assert!(QuantizedTensor::new(vec![], vec![3, 0]).is_some());
    assert!(QuantizedTensor::new(vec![1], vec![3, 0]).is_none());
}

#[test]
fn tensor_new_huge_shape_rejected() {
    assert!(QuantizedTensor::new(vec![1, 2, 3], vec![usize::MAX, 2]).is_none());
}

#[test]
fn tensor_new_scalar_shape() {
    let t = QuantizedTensor::new(vec![9], vec![]).unwrap();
    assert_eq!(t.values, vec![9]);
    assert!(t.dims.is_empty());
}

#[test]
fn without_witnesses_keeps_shapes_and_zeroes_values() {
    let circuit = prepare_circuit(vec![
        QuantizedTensor::new(vec![1, 2, 3, 4], vec![2, 2]).unwrap(),
        QuantizedTensor::from_vector(vec![5, 6]),
    ]);
    let empty = circuit.without_witnesses();
    assert_eq!(empty.inputs.len(), 2);
    assert_eq!(empty.inputs[0].dims, vec![2, 2]);
    assert_eq!(empty.inputs[0].values, vec![0, 0, 0, 0]);
    assert_eq!(empty.inputs[1].dims, vec![2]);
    assert_eq!(empty.inputs[1].values, vec![0, 0]);
}

#[test]
fn input_dims_reports_every_shape() {
    let circuit = prepare_circuit(vec![
        QuantizedTensor::new(vec![1, 2, 3, 4, 5, 6], vec![3, 2]).unwrap(),
        QuantizedTensor::from_vector(vec![7]),
    ]);
    assert_eq!(circuit.input_dims(), vec![vec![3, 2], vec![1]]);
}

#[test]
fn instances_hold_one_batch_with_all_rows() {
    let rows = vec![vec![1, 2], vec![3]];
    let instances = prepare_instances(rows.clone());
    assert_eq!(instances.len(), 1);
    assert_eq!(instances[0], rows);
}

#[test]
fn packaged_proof_reproduces_public_inputs_in_order() {
    let tensors = vec![
        QuantizedTensor::from_vector(vec![4, 8]),
        QuantizedTensor::from_vector(vec![12]),
    ];
    let p = package_proof(&tensors, vec![9, 9, 9]);
    assert_eq!(p.public_inputs, vec![vec![4, 8], vec![12]]);
    assert_eq!(p.proof, vec![9, 9, 9]);
}
