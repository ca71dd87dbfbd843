use pfsys::prepare_public_input;
use pfsys::public_input_values;
use pfsys::QuantizedTensor;
use pfsys::Visibility;
use pfsys::VisibilityPair;

fn tensors(rows: Vec<Vec<i32>>) -> Vec<QuantizedTensor> {
    rows.into_iter().map(QuantizedTensor::from_vector).collect()
}

fn values(ts: &Vec<QuantizedTensor>) -> Vec<Vec<i32>> {
    public_input_values(ts)
}

#[test]
fn inputs_come_before_outputs_when_both_public() {
    let ins = tensors(vec![vec![1, 2], vec![3]]);
    let outs = tensors(vec![vec![4], vec![5, 6]]);
    let vis = VisibilityPair { input: Visibility::Public, output: Visibility::Public };
    let assembled = prepare_public_input(ins, outs, &vis);
    assert_eq!(values(&assembled), vec![vec![1, 2], vec![3], vec![4], vec![5, 6]]);
}

#[test]
fn both_private_yields_empty_set() {
    let ins = tensors(vec![vec![1, 2]]);
    let outs = tensors(vec![vec![3]]);
    let vis = VisibilityPair { input: Visibility::Private, output: Visibility::Private };
    let assembled = prepare_public_input(ins, outs, &vis);
    assert!(assembled.is_empty());
}

#[test]
fn input_only_visibility() {
    let ins = tensors(vec![vec![7, 8]]);
    let outs = tensors(vec![vec![9]]);
    let vis = VisibilityPair { input: Visibility::Public, output: Visibility::Private };
    let assembled = prepare_public_input(ins, outs, &vis);
    assert_eq!(values(&assembled), vec![vec![7, 8]]);
}

#[test]
fn output_only_visibility() {
    let ins = tensors(vec![vec![7, 8]]);
    let outs = tensors(vec![vec![9]]);
    let vis = VisibilityPair { input: Visibility::Private, output: Visibility::Public };
    let assembled = prepare_public_input(ins, outs, &vis);
    assert_eq!(values(&assembled), vec![vec![9]]);
}

#[test]
fn scenario_scale_two_input_public() {
    // input_data [[1.0, 2.0]] quantized at scale 2: value * 2^2, rounded.
    let input_data: Vec<Vec<f32>> = vec![vec![1.0, 2.0]];
    let scale: i32 = 2;
    let factor = f32::powi(2.0, scale);
    let quantized: Vec<Vec<i32>> = input_data
        .iter()
        .map(|v| v.iter().map(|x| (x * factor).round() as i32).collect())
        .collect();
    assert_eq!(quantized, vec![vec![4, 8]]);

    let ins = tensors(quantized);
    let outs = tensors(vec![vec![12]]);
    let vis = VisibilityPair { input: Visibility::Public, output: Visibility::Private };
    let assembled = prepare_public_input(ins, outs, &vis);
    assert_eq!(values(&assembled), vec![vec![4, 8]]);
    assert_eq!(assembled[0].dims, vec![2]);
}

#[test]
fn public_input_shape_is_vector_length() {
    let t = QuantizedTensor::from_vector(vec![5, 6, 7]);
    assert_eq!(t.dims, vec![3]);
    assert_eq!(t.values, vec![5, 6, 7]);
}
