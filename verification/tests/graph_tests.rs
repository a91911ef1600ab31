use wasnn::graph::{Graph, RunError, RunOptions};
use wasnn::ops::{AddOne, Concat, Identity, OpError, OpType, Operator, ReLU};
use wasnn::tensor::Tensor;
use wasnn::tensor_ops::{ConstantOfShape, Reshape, Shape};

fn from_data(shape: Vec<usize>, data: Vec<i32>) -> Tensor<i32> {
    Tensor::from_data(shape, data)
}

fn expect_equal(x: &Tensor<i32>, y: &Tensor<i32>) {
    assert_eq!(x.shape(), y.shape());
    assert_eq!(x.data(), y.data());
}

// Test of a very simple graph with a typical structure (one input, one
// output, two chained operations).
#[test]
fn test_graph_run() {
    let mut g = Graph::new();

    let input_id = g.add_value();

    let add_out = g.add_op(OpType::AddOne(AddOne {}), &[input_id]);
    let relu_out = g.add_op(OpType::ReLU(ReLU {}), &[add_out]);

    let input = from_data(vec![5], vec![-3, -1, 0, 1, 3]);

    let results = g.run(&[(input_id, input)], &[relu_out], None).unwrap();

    let expected = from_data(vec![5], vec![0, 0, 1, 2, 4]);
    assert_eq!(results.len(), 1);
    expect_equal(&results[0], &expected);
}

#[test]
fn test_graph_planning_order() {
    let mut g = Graph::new();

    let input_id = g.add_value();

    let op_a = g.add_op(OpType::AddOne(AddOne {}), &[input_id]);
    let op_b = g.add_op(OpType::AddOne(AddOne {}), &[op_a]);

    // op_c has both op_a and op_b as inputs. Since op_b depends on op_a,
    // execution must run op_a, then op_b, then op_c.
    let op_c = g.add_op(OpType::Concat(Concat { dim: 0 }), &[op_a, op_b]);

    // op_d is the same as op_c, but input order is reversed
    let op_d = g.add_op(OpType::Concat(Concat { dim: 0 }), &[op_b, op_a]);

    let input = from_data(vec![1], vec![1]);

    let results = g.run(&[(input_id, input.duplicate())], &[op_c], None).unwrap();
    let expected = from_data(vec![2], vec![2, 3]);
    expect_equal(&results[0], &expected);

    let results = g.run(&[(input_id, input)], &[op_d], None).unwrap();
    let expected = from_data(vec![2], vec![3, 2]);
    expect_equal(&results[0], &expected);
}

#[test]
fn test_graph_many_steps() {
    let mut g = Graph::new();

    let input = from_data(vec![5], vec![1, 2, 3, 4, 5]);
    let input_id = g.add_value();

    let mut prev_output = input_id;
    for _ in 0..100 {
        prev_output = g.add_op(OpType::AddOne(AddOne {}), &[prev_output]);
    }

    let results = g.run(&[(input_id, input)], &[prev_output], None).unwrap();

    let expected = from_data(vec![5], vec![101, 102, 103, 104, 105]);
    expect_equal(&results[0], &expected);
}

#[test]
fn test_noop_graph() {
    let mut g = Graph::new();

    let input = from_data(vec![5], vec![1, 2, 3, 4, 5]);
    let input_id = g.add_value();

    let results = g.run(&[(input_id, input.duplicate())], &[input_id], None).unwrap();

    expect_equal(&results[0], &input);
}

#[test]
fn test_constant_graph() {
    let mut g = Graph::new();

    let value = from_data(vec![5], vec![1, 2, 3, 4, 5]);
    let const_id = g.add_constant(value.duplicate());

    let results = g.run(&[], &[const_id], None).unwrap();

    expect_equal(&results[0], &value);
}

#[test]
fn test_no_outputs() {
    let g = Graph::new();
    let results = g.run(&[], &[], None).unwrap();
    assert_eq!(results.len(), 0);
}

#[test]
fn test_error_if_invalid_output() {
    let g = Graph::new();
    let result = g.run(&[], &[123], None);
    assert_eq!(result.err(), Some(RunError::MissingValue(123)));
}

#[test]
fn test_error_if_missing_operator_input() {
    let mut g = Graph::new();
    let output = g.add_op(OpType::ReLU(ReLU {}), &[42]);
    let result = g.run(&[], &[output], None);
    assert_eq!(result.err(), Some(RunError::MissingValue(42)));
}

// A diamond dependency: two operators share one upstream operator, which
// must run exactly once.
#[test]
fn test_diamond_dependency_runs_shared_op_once() {
    let mut g = Graph::new();

    let input_id = g.add_value();
    let shared = g.add_op(OpType::AddOne(AddOne {}), &[input_id]);
    let left = g.add_op(OpType::AddOne(AddOne {}), &[shared]);
    let right = g.add_op(OpType::ReLU(ReLU {}), &[shared]);

    let plan = g.create_plan(&[input_id], &[left, right]).unwrap();
    assert_eq!(plan, vec![shared, left, right]);
    // The shared operator appears exactly once.
    assert_eq!(plan.iter().filter(|&&id| id == shared).count(), 1);

    let input = from_data(vec![2], vec![-5, 5]);
    let results = g.run(&[(input_id, input)], &[left, right], None).unwrap();
    expect_equal(&results[0], &from_data(vec![2], vec![-3, 7]));
    expect_equal(&results[1], &from_data(vec![2], vec![0, 6]));
}

// Requesting seeded values only produces an empty plan: no operator runs.
#[test]
fn test_plan_empty_for_seeded_outputs() {
    let mut g = Graph::new();
    let input_id = g.add_value();
    let const_id = g.add_constant(from_data(vec![1], vec![7]));
    let _op = g.add_op(OpType::AddOne(AddOne {}), &[input_id]);

    let plan = g.create_plan(&[input_id], &[input_id, const_id]).unwrap();
    assert_eq!(plan.len(), 0);

    let plan = g.create_plan(&[], &[]).unwrap();
    assert_eq!(plan.len(), 0);
}

// A dependency cycle is reported as a missing value.
#[test]
fn test_error_on_cycle() {
    let mut g = Graph::new();
    // The first operator consumes the output slot that the second operator
    // will be assigned, and the second consumes the first's output: a cycle.
    let a = g.add_op(OpType::AddOne(AddOne {}), &[2]);
    let b = g.add_op(OpType::Identity(Identity {}), &[a]);
    assert_eq!(b, 2);
    let result = g.run(&[], &[b], None);
    assert!(matches!(result, Err(RunError::MissingValue(_))));
}

// An operator error is reported with the failing node and propagated as the
// result of the run.
#[test]
fn test_operator_error_propagates() {
    let mut g = Graph::new();
    let input_id = g.add_value();
    // Concat requires two inputs; give it one.
    let bad = g.add_op(OpType::Concat(Concat { dim: 0 }), &[input_id]);

    let input = from_data(vec![1], vec![1]);
    let result = g.run(&[(input_id, input)], &[bad], None);
    assert_eq!(result.err(), Some(RunError::OperatorError { node: bad, error: OpError::MissingInputs }));
}

// Enabling timing changes only the diagnostics, never the numeric result.
#[test]
fn test_timing_non_interference() {
    let mut g = Graph::new();

    let input_id = g.add_value();
    let op_a = g.add_op(OpType::AddOne(AddOne {}), &[input_id]);
    let op_b = g.add_op(OpType::ReLU(ReLU {}), &[op_a]);

    let input = from_data(vec![3], vec![-2, 0, 2]);

    let plain = g
        .run(&[(input_id, input.duplicate())], &[op_b], Some(RunOptions { timing: false }))
        .unwrap();
    let (timed, records) = g
        .run_with_timing(&[(input_id, input)], &[op_b], Some(RunOptions { timing: true }))
        .unwrap();

    assert_eq!(plain.len(), timed.len());
    for i in 0..plain.len() {
        expect_equal(&plain[i], &timed[i]);
    }
    // One timing record per executed operator, carrying its name.
    assert_eq!(records.len(), 2);
    assert_eq!(records[0].name, "AddOne");
    assert_eq!(records[1].name, "ReLU");
    assert_eq!(records[0].input_shapes, vec![vec![3]]);
}

// The default run options leave timing disabled.
#[test]
fn test_default_run_options() {
    let opts = RunOptions::default();
    assert!(!opts.timing);
}

// A graph mixing shape inspection, constants and reshaping.
#[test]
fn test_graph_with_shape_ops() {
    let mut g = Graph::new();
    let input_id = g.add_value();
    // Reshape the input to the constant shape [2, 3].
    let shape_id = g.add_constant(from_data(vec![2], vec![2, 3]));
    let reshaped = g.add_op(OpType::Reshape(Reshape {}), &[input_id, shape_id]);
    // Then ask for the shape of the result.
    let shape_out = g.add_op(OpType::Shape(Shape {}), &[reshaped]);

    let input = from_data(vec![6], vec![1, 2, 3, 4, 5, 6]);
    let results = g.run(&[(input_id, input)], &[reshaped, shape_out], None).unwrap();
    assert_eq!(results[0].shape(), &vec![2, 3]);
    assert_eq!(results[0].data(), &vec![1, 2, 3, 4, 5, 6]);
    assert_eq!(results[1].data(), &vec![2, 3]);

    // ConstantOfShape builds a filled tensor from a shape vector.
    let op = ConstantOfShape { value: 9 };
    let shape_input = from_data(vec![2], vec![2, 2]);
    let filled = op.run(&[shape_input]).unwrap();
    assert_eq!(filled.shape(), &vec![2, 2]);
    assert_eq!(filled.data(), &vec![9, 9, 9, 9]);

    // An output too large to represent is refused.
    let huge = from_data(vec![4], vec![2000000000, 2000000000, 2000000000, 2000000000]);
    let result = op.run(&[huge]);
    assert_eq!(result.err(), Some(OpError::UnsupportedValue("Output size is too large")));
}

// The in-place execution hook returns its input unchanged by default.
#[test]
fn test_run_in_place_default() {
    let id_op = Identity {};
    assert!(id_op.can_run_in_place());
    let relu_op = ReLU {};
    assert!(!relu_op.can_run_in_place());

    let input = from_data(vec![2], vec![1, -2]);
    let result = relu_op.run_in_place(input, &[]).unwrap();
    assert_eq!(result.data(), &vec![1, -2]);
}
