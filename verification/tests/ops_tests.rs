use wasnn::ops::OpError;
use wasnn::tensor::Tensor;
use wasnn::tensor_ops::extract_scalar;
use wasnn::tensor_ops::gather;
use wasnn::tensor_ops::pad;
use wasnn::tensor_ops::reshape;
use wasnn::tensor_ops::squeeze;
use wasnn::tensor_ops::squeeze_in_place;
use wasnn::tensor_ops::transpose;
use wasnn::tensor_ops::unsqueeze;

fn from_data<T: Copy>(shape: Vec<usize>, data: Vec<T>) -> Tensor<T> {
    Tensor::from_data(shape, data)
}

fn from_vec<T: Copy>(data: Vec<T>) -> Tensor<T> {
    Tensor::from_vec(data)
}

fn from_scalar<T: Copy>(value: T) -> Tensor<T> {
    Tensor::from_scalar(value)
}

fn from_slice<T: Copy>(data: &[T]) -> Tensor<T> {
    from_data(vec![data.len()], data.into())
}

fn zero_tensor(shape: &[usize]) -> Tensor<f32> {
    Tensor::filled(shape.to_vec(), 0.0)
}

/// A tensor of the given shape filled with a deterministic value pattern.
fn patterned_tensor(shape: &[usize]) -> Tensor<f32> {
    let len: usize = shape.iter().product();
    let data: Vec<f32> = (0..len).map(|i| ((i * 7 + 3) % 97) as f32 * 0.25).collect();
    from_data(shape.to_vec(), data)
}

/// Check that the shapes of two tensors are equal and that their contents
/// are approximately equal.
fn expect_equal(x: &Tensor<f32>, y: &Tensor<f32>) -> Result<(), String> {
    if x.shape() != y.shape() {
        return Err(format!("Tensors have different shapes. {:?} vs. {:?}", x.shape(), y.shape()));
    }

    let eps = 0.001;
    for i in 0..x.len() {
        let xi = x.data()[i];
        let yi = y.data()[i];

        if (xi - yi).abs() > eps {
            return Err(format!("Tensor values differ at index {}: {} vs {}", i, xi, yi));
        }
    }

    Ok(())
}

#[test]
fn test_gather_scalar() {
    let input = from_vec(vec![1, 20, 30]);
    for i in 0..input.len() {
        let indices = from_scalar(i as i32);
        let result = gather(&input, 0, &indices).unwrap();
        assert_eq!(result.item(), Some(input.at(i)))
    }
}

#[test]
fn test_gather_invalid_inputs() {
    let input = patterned_tensor(&[128, 10]);
    let indices = from_data(vec![2, 2], vec![2, 5, 8, 50]);
    let result = gather(&input, 5, &indices);
    assert_eq!(result.err(), Some(OpError::InvalidValue("`axis` is out of range")));

    let indices = from_data(vec![2, 2], vec![2, 5, 8, 130]);
    let result = gather(&input, 0, &indices);
    assert_eq!(result.err(), Some(OpError::InvalidValue("Entry in `indices` is out of range")));
}

#[test]
fn test_gather_axes() {
    // First test case from the ONNX Gather docs.
    let input = from_data(vec![3, 2], vec![10, 12, 23, 34, 45, 57]);
    let indices = from_data(vec![2, 2], vec![0, 1, 1, 2]);
    let result = gather(&input, 0, &indices).unwrap();
    assert_eq!(result.shape(), &vec![2, 2, 2]);
    assert_eq!(result.data(), &vec![10, 12, 23, 34, 23, 34, 45, 57]);

    // Second test case from the ONNX Gather docs.
    let input = from_data(vec![3, 3], vec![10, 12, 19, 23, 34, 39, 45, 57, 59]);
    let indices = from_data(vec![1, 2], vec![0, 2]);
    let result = gather(&input, 1, &indices).unwrap();
    assert_eq!(result.shape(), &vec![3, 1, 2]);
    assert_eq!(result.data(), &vec![10, 19, 23, 39, 45, 59]);
}

#[test]
fn test_reshape_with_unspecified_dim() -> Result<(), String> {
    // Reshape with an unspecified (-1) dim and nonzero-length input
    let input = from_data(vec![2, 2], vec![-0.5, 0.5, 3.0, -5.5]);
    let shape = from_vec(vec![1, -1, 2]);
    let expected = input.clone_with_shape(vec![1, 2, 2]);
    let result = reshape(&input, &shape).unwrap();
    expect_equal(&result, &expected)?;

    // Reshape with an unspecified (-1) dim and zero-length input
    let zero_sized_input = from_data(vec![4, 0, 1], vec![]);
    let shape = from_vec(vec![100, -1]);
    let result = reshape(&zero_sized_input, &shape).unwrap();
    let expected = zero_sized_input.clone_with_shape(vec![100, 0]);
    expect_equal(&result, &expected)
}

#[test]
fn test_reshape_with_multiple_unspecified_dims() {
    let input = from_data(vec![2, 2], vec![-0.5, 0.5, 3.0, -5.5]);
    let shape = from_vec(vec![1, -1, -1]);
    assert_eq!(
        reshape(&input, &shape).err(),
        Some(OpError::InvalidValue("Multiple dimensions in new shape set to -1"))
    );
}

#[test]
fn test_reshape_with_unsolvable_unspecified_dim() {
    let input = from_data(vec![2, 2], vec![-0.5, 0.5, 3.0, -5.5]);
    let shape = from_vec(vec![5, -1]);
    assert_eq!(
        reshape(&input, &shape).err(),
        Some(OpError::InvalidValue("Input length must be a multiple of specified dimensions"))
    );
}

#[test]
fn test_concat() -> Result<(), String> {
    let a = from_data(vec![2, 2, 1], vec![0.1, 0.2, 0.3, 0.4]);
    let b = from_data(vec![2, 2, 1], vec![1.0, 2.0, 3.0, 4.0]);

    // Concatenation along the first dimension
    let expected = from_data(vec![4, 2, 1], vec![0.1, 0.2, 0.3, 0.4, 1.0, 2.0, 3.0, 4.0]);
    let result = wasnn::tensor_ops::concat(&[&a, &b], 0).unwrap();
    expect_equal(&result, &expected)?;

    // Concatenation along a non-first dimension
    let expected = from_data(vec![2, 2, 2], vec![0.1, 1.0, 0.2, 2.0, 0.3, 3.0, 0.4, 4.0]);
    let result = wasnn::tensor_ops::concat(&[&a, &b], 2).unwrap();
    expect_equal(&result, &expected)?;

    // Concatenation with one input
    let result = wasnn::tensor_ops::concat(&[&a], 0).unwrap();
    expect_equal(&result, &a)?;

    // Concatenation with more than two inputs
    let result = wasnn::tensor_ops::concat(&[&a, &b, &a], 0).unwrap();
    assert_eq!(result.shape(), &vec![6, 2, 1]);

    // Concatentation with some empty inputs
    let a = from_slice(&[1, 2, 3]);
    let b = from_slice(&[]);
    let c = from_slice(&[4, 5, 6]);
    let result = wasnn::tensor_ops::concat(&[&a, &b, &c], 0).unwrap();
    assert_eq!(result.shape(), &vec![6]);
    assert_eq!(result.data(), &vec![1, 2, 3, 4, 5, 6]);

    Ok(())
}

#[test]
fn test_concat_invalid_inputs() {
    // Invalid `dim` attribute
    let input = from_slice(&[1, 2, 3]);
    let result = wasnn::tensor_ops::concat(&[&input, &input], 1);
    assert_eq!(result.err(), Some(OpError::InvalidValue("dim is larger than input rank")));

    // Shape mismatch
    let a = zero_tensor(&[1]);
    let b = zero_tensor(&[1, 2]);
    let result = wasnn::tensor_ops::concat(&[&a, &b], 0);
    assert_eq!(
        result.err(),
        Some(OpError::IncompatibleInputShapes("Tensors must have the same number of dimensions"))
    );

    // Shape mismatch in non-`dim` dimension
    let a = zero_tensor(&[5, 10]);
    let b = zero_tensor(&[5, 11]);
    let result = wasnn::tensor_ops::concat(&[&a, &b], 0);
    assert_eq!(
        result.err(),
        Some(OpError::IncompatibleInputShapes("Dimensions must be the same except for concat dim"))
    );
}

#[test]
fn test_concat_single_input_invalid_dim() {
    // The dim bound is checked against the first input even when it is the
    // only one.
    let input = from_slice(&[1, 2, 3]);
    let result = wasnn::tensor_ops::concat(&[&input], 1);
    assert_eq!(result.err(), Some(OpError::InvalidValue("dim is larger than input rank")));
}

#[test]
fn test_concat_error_precedence() {
    // Inputs are validated in order: the second input's dimension mismatch
    // is reported before the third input's rank mismatch.
    let a = from_data(vec![2, 2], vec![1, 2, 3, 4]);
    let b = from_data(vec![2, 3], vec![1, 2, 3, 4, 5, 6]);
    let c = from_slice(&[9]);
    let result = wasnn::tensor_ops::concat(&[&a, &b, &c], 0);
    assert_eq!(
        result.err(),
        Some(OpError::IncompatibleInputShapes("Dimensions must be the same except for concat dim"))
    );
}

#[test]
fn test_squeeze_zero_sized_dims_kept() {
    // Squeezing without axes removes only size-one dimensions; zero-sized
    // dimensions stay.
    let input: Tensor<i32> = from_data(vec![1, 0, 2], vec![]);
    let result = squeeze(&input, None);
    assert_eq!(result.shape(), &vec![0, 2]);
}

#[test]
fn test_squeeze_op_rejects_non_unit_axis() {
    let op = wasnn::tensor_ops::Squeeze { axes: Some(vec![0]) };
    let input = from_data(vec![2, 2], vec![1, 2, 3, 4]);
    let result = wasnn::ops::Operator::run(&op, &[input]);
    assert_eq!(result.err(), Some(OpError::InvalidValue("Can only remove dimensions of size 1")));
}

#[test]
fn test_pad_op() {
    let op = wasnn::tensor_ops::Pad {};
    let input = from_data(vec![2, 2], vec![1, 2, 3, 4]);
    let pads = from_slice(&[1, 1, 1, 1]);
    let result = wasnn::ops::Operator::run(&op, &[input, pads]).unwrap();
    assert_eq!(result.shape(), &vec![4, 4]);
    assert_eq!(result.data(), &vec![0, 0, 0, 0, 0, 1, 2, 0, 0, 3, 4, 0, 0, 0, 0, 0]);

    // With a scalar constant input.
    let input = from_data(vec![2, 2], vec![1, 2, 3, 4]);
    let pads = from_slice(&[1, 1, 1, 1]);
    let nine = from_scalar(9);
    let result = wasnn::ops::Operator::run(&op, &[input, pads, nine]).unwrap();
    assert_eq!(result.data(), &vec![9, 9, 9, 9, 9, 1, 2, 9, 9, 3, 4, 9, 9, 9, 9, 9]);

    // Wrong padding vector length.
    let input = from_data(vec![2, 2], vec![1, 2, 3, 4]);
    let invalid_pads = from_slice(&[1]);
    let result = wasnn::ops::Operator::run(&op, &[input, invalid_pads]);
    assert_eq!(
        result.err(),
        Some(OpError::InvalidValue("padding should be vector of length 2 * input dimensions"))
    );

    // Negative padding amounts.
    let input = from_data(vec![2, 2], vec![1, 2, 3, 4]);
    let invalid_pads = from_slice(&[1, 1, 1, -1]);
    let result = wasnn::ops::Operator::run(&op, &[input, invalid_pads]);
    assert_eq!(result.err(), Some(OpError::InvalidValue("Pad only supports positive pads")));

    // Constant value not a scalar.
    let input = from_data(vec![2, 2], vec![1, 2, 3, 4]);
    let invalid_pads = from_slice(&[1, 1, 1, -1]);
    let not_scalar = from_slice(&[1, 2]);
    let result = wasnn::ops::Operator::run(&op, &[input, invalid_pads, not_scalar]);
    assert_eq!(result.err(), Some(OpError::InvalidValue("Expected scalar value")));
}

#[test]
fn test_unsqueeze_op() {
    let op = wasnn::tensor_ops::Unsqueeze { axes: vec![0, 4] };
    let input = from_data(vec![3, 4, 5], (0..60).collect());
    let result = wasnn::ops::Operator::run(&op, &[input]).unwrap();
    assert_eq!(result.shape(), &vec![1, 3, 4, 5, 1]);

    // An axis beyond the extended rank is rejected.
    let op = wasnn::tensor_ops::Unsqueeze { axes: vec![5] };
    let input = from_data(vec![3], vec![1, 2, 3]);
    let result = wasnn::ops::Operator::run(&op, &[input]);
    assert_eq!(result.err(), Some(OpError::InvalidValue("Axes are invalid for the input rank")));
}

#[test]
fn test_transpose_op() {
    let op = wasnn::tensor_ops::Transpose { perm: None };
    let input = from_data(vec![2, 3], vec![1, 2, 3, 4, 5, 6]);
    let result = wasnn::ops::Operator::run(&op, &[input]).unwrap();
    assert_eq!(result.shape(), &vec![3, 2]);
    assert_eq!(result.data(), &vec![1, 4, 2, 5, 3, 6]);

    let op = wasnn::tensor_ops::Transpose { perm: Some(vec![0, 0]) };
    let input = from_data(vec![2, 3], vec![1, 2, 3, 4, 5, 6]);
    let result = wasnn::ops::Operator::run(&op, &[input]);
    assert_eq!(
        result.err(),
        Some(OpError::InvalidValue("Permutation is invalid for the input shape"))
    );
}

#[test]
fn test_concat_two() {
    // The two-input concatenation underlies the n-input one; check it
    // directly with exact values.
    let a = from_data(vec![2, 2], vec![1, 2, 3, 4]);
    let b = from_data(vec![2, 1], vec![9, 8]);
    let result = wasnn::ops::concat(&a, &b, 1).unwrap();
    assert_eq!(result.shape(), &vec![2, 3]);
    assert_eq!(result.data(), &vec![1, 2, 9, 3, 4, 8]);
}

#[test]
fn test_pad() -> Result<(), String> {
    // Same padding around each edge.
    let input = from_data(vec![2, 2], vec![1.0, 2.0, 3.0, 4.0]);
    let expected = from_data(
        vec![4, 4],
        vec![0.0, 0.0, 0.0, 0.0, 0.0, 1.0, 2.0, 0.0, 0.0, 3.0, 4.0, 0.0, 0.0, 0.0, 0.0, 0.0],
    );
    let const_pads = from_slice(&[1, 1, 1, 1]);
    let result = pad(&input, &const_pads, 0.0).unwrap();
    expect_equal(&result, &expected)?;

    // Zero padding (no-op)
    let zero_pads = from_slice(&[0, 0, 0, 0]);
    let result = pad(&input, &zero_pads, 0.0).unwrap();
    expect_equal(&result, &input)?;

    // Un-even padding
    let input = from_data(vec![1, 2, 2], vec![1, 2, 3, 4]);
    let pads = from_slice(&[0, 0, 0, 0, 1, 0]);
    let result = pad(&input, &pads, 0).unwrap();
    assert_eq!(result.shape(), &vec![1, 3, 2]);
    assert_eq!(result.data(), &vec![1, 2, 3, 4, 0, 0]);

    Ok(())
}

#[test]
fn test_pad_constant_val() -> Result<(), String> {
    let input = from_data(vec![2, 2], vec![1.0, 2.0, 3.0, 4.0]);
    let expected = from_data(
        vec![4, 4],
        vec![9., 9., 9., 9., 9., 1., 2., 9., 9., 3., 4., 9., 9., 9., 9., 9.],
    );
    let const_pads = from_slice(&[1, 1, 1, 1]);
    let result = pad(&input, &const_pads, 9.).unwrap();
    expect_equal(&result, &expected)
}

#[test]
fn test_pad_invalid_pads() {
    // Wrong padding vector length.
    let input = from_data(vec![2, 2], vec![1.0, 2.0, 3.0, 4.0]);
    let invalid_pads = from_slice(&[1]);
    let result = pad(&input, &invalid_pads, 0.0);
    assert_eq!(
        result.err(),
        Some(OpError::InvalidValue("padding should be vector of length 2 * input dimensions"))
    );

    // Negative padding amounts.
    let invalid_pads = from_slice(&[1, 1, 1, -1]);
    let result = pad(&input, &invalid_pads, 0.0);
    assert_eq!(result.err(), Some(OpError::InvalidValue("Pad only supports positive pads")));
}

#[test]
fn test_extract_scalar() {
    let scalar = from_scalar(42);
    assert_eq!(extract_scalar(&scalar), Ok(42));

    let vector = from_vec(vec![1, 2]);
    assert_eq!(extract_scalar(&vector), Err(OpError::InvalidValue("Expected scalar value")));
}

#[test]
fn test_transpose() -> Result<(), String> {
    let input = patterned_tensor(&[10, 20]);

    let mut reversed_data = vec![0.0; input.len()];
    for r in 0..10 {
        for c in 0..20 {
            reversed_data[c * 10 + r] = input.data()[r * 20 + c];
        }
    }
    let reversed = from_data(vec![20, 10], reversed_data);

    // With no explicit permutation given, the axes should be reversed.
    let result = transpose(&input, None);
    expect_equal(&result, &reversed)?;

    // With a no-op permutation given, the output should be unchanged.
    let result = transpose(&input, Some(&[0, 1]));
    expect_equal(&result, &input)?;

    // With a transposed permutation given, the axes should be reversed.
    let result = transpose(&input, Some(&[1, 0]));
    expect_equal(&result, &reversed)
}

#[test]
fn test_transpose_exact() {
    let input = from_data(vec![2, 3], vec![1, 2, 3, 4, 5, 6]);
    let result = transpose(&input, None);
    assert_eq!(result.shape(), &vec![3, 2]);
    assert_eq!(result.data(), &vec![1, 4, 2, 5, 3, 6]);
}

#[test]
fn test_squeeze() -> Result<(), String> {
    let input = patterned_tensor(&[1, 5, 5, 1]);
    let mut expected = input.duplicate();

    // Remove all 1-size axes.
    expected.reshape(vec![5, 5]);
    let result = squeeze(&input, None);
    expect_equal(&result, &expected)?;

    // Remove final 1-size axis.
    expected.reshape(vec![1, 5, 5]);
    let result = squeeze(&input, Some(&[3]));
    expect_equal(&result, &expected)?;

    // Remove first 1-size axis.
    expected.reshape(vec![5, 5, 1]);
    let result = squeeze(&input, Some(&[0]));
    expect_equal(&result, &expected)
}

#[test]
fn test_squeeze_in_place() -> Result<(), String> {
    let mut input = patterned_tensor(&[1, 1, 5, 5]);

    let mut expected = input.duplicate();
    expected.reshape(vec![5, 5]);

    squeeze_in_place(&mut input, None);

    expect_equal(&input, &expected)
}

#[test]
fn test_unsqueeze() {
    let input = patterned_tensor(&[3, 4, 5]);

    // Unsqueeze with axes in increasing order
    let output = unsqueeze(&input, &[0, 4]);
    assert_eq!(output.shape(), &vec![1, 3, 4, 5, 1]);

    // Unsqueeze with axes in decreasing order
    let output = unsqueeze(&input, &[4, 0]);
    assert_eq!(output.shape(), &vec![1, 3, 4, 5, 1]);

    // Unsqueeze a scalar into a 1-item vec
    let scalar = from_scalar(2.0);
    let output = unsqueeze(&scalar, &[0]);
    assert_eq!(output.shape(), &vec![1]);
    assert_eq!(output.data(), &vec![2.0]);
}

#[test]
fn test_slice_not_first_dim() {
    let input = patterned_tensor(&[2, 2, 5, 3]);

    let dim = 2;
    let start = 2;
    let end = 4;

    let sliced = wasnn::ops::slice(&input, dim, start, end);
    let shape = sliced.shape().clone();

    assert_eq!(sliced.shape(), &vec![2, 2, end - start, 3]);
    assert_eq!(sliced.len(), shape.iter().fold(1, |len, x| len * x));

    for w in 0..shape[0] {
        for x in 0..shape[1] {
            for y in 0..shape[2] {
                for z in 0..shape[3] {
                    let out = sliced.data()[((w * shape[1] + x) * shape[2] + y) * shape[3] + z];
                    let inp = input.data()[((w * 2 + x) * 5 + (y + start)) * 3 + z];
                    assert_eq!(out, inp);
                }
            }
        }
    }
}

#[test]
fn test_slice_first_dim() {
    let input = patterned_tensor(&[5, 2, 5, 3]);

    let dim = 0;
    let start = 2;
    let end = 4;

    let sliced = wasnn::ops::slice(&input, dim, start, end);
    let shape = sliced.shape().clone();

    assert_eq!(shape, vec![end - start, 2, 5, 3]);
    assert_eq!(sliced.len(), shape.iter().fold(1, |len, x| len * x));

    for w in 0..shape[0] {
        for x in 0..shape[1] {
            for y in 0..shape[2] {
                for z in 0..shape[3] {
                    let out = sliced.data()[((w * shape[1] + x) * shape[2] + y) * shape[3] + z];
                    let inp = input.data()[(((w + start) * 2 + x) * 5 + y) * 3 + z];
                    assert_eq!(out, inp);
                }
            }
        }
    }
}

#[test]
fn test_slice_noop() {
    let input = patterned_tensor(&[5, 2, 5, 3]);

    for dim in 0..input.shape().len() {
        let sliced = wasnn::ops::slice(&input, dim, 0, input.shape()[dim]);
        assert_eq!(sliced.shape(), input.shape());
        assert_eq!(sliced.data(), input.data());
    }
}

#[test]
fn test_slice_op_invalid_range() {
    let op = wasnn::ops::Slice { dim: 0, start: 2, end: 9 };
    let input = from_data(vec![3], vec![1, 2, 3]);
    let result = wasnn::ops::Operator::run(&op, &[input]);
    assert_eq!(result.err(), Some(OpError::InvalidValue("Slice range is invalid for the input shape")));
}
