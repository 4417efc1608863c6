use neuralnetwork::classify::{active_index, arg_max};
use neuralnetwork::layer::Layer;
use neuralnetwork::matrix::Matrix;
use neuralnetwork::nn::{layer_shapes, NeuralNetwork};
use neuralnetwork::shape::{Shape, ShapeError};
use rand::Rng;

fn sigmoid(x: f64) -> f64 {
    let e = std::f64::consts::E;
    1.0 / (1.0 + e.powf(-1.0 * x))
}

fn times(a: f64, b: f64) -> f64 {
    a * b
}

fn plus(a: f64, b: f64) -> f64 {
    a + b
}

fn minus(a: f64, b: f64) -> f64 {
    a - b
}

fn matrix(data: Vec<Vec<f64>>) -> Matrix<f64> {
    Matrix::new(data).unwrap()
}

fn random_network(topology: Vec<usize>) -> NeuralNetwork<f64> {
    let mut rng = rand::thread_rng();
    let mut layers = Vec::new();
    for shape in layer_shapes(&topology) {
        let mut data = Vec::new();
        for _row in 0..shape.rows {
            let mut line = Vec::new();
            for _col in 0..shape.cols {
                let x: f64 = rng.gen();
                line.push(x - 0.5);
            }
            data.push(line);
        }
        layers.push(Layer::new(matrix(data)));
    }
    NeuralNetwork::new(layers, 0.3).unwrap()
}

fn train_once(nn: &mut NeuralNetwork<f64>, input: &Matrix<f64>, label: &Matrix<f64>) -> Matrix<f64> {
    nn.train(input, label, times, plus, minus, 0.0, 1.0, sigmoid).unwrap()
}

fn infer(nn: &NeuralNetwork<f64>, input: &Matrix<f64>) -> Matrix<f64> {
    nn.inference(matrix(input.data.clone()), times, plus, 0.0, sigmoid).unwrap()
}

#[test]
fn test_call() {
    let weights = matrix(vec![vec![0.9, 0.3, 0.4], vec![0.2, 0.8, 0.2], vec![0.1, 0.5, 0.6]]);
    let layer = Layer::new(weights);
    let inputs = matrix(vec![vec![0.9, 0.1, 0.8]]);
    let inputs = inputs.transpose();
    let result = layer.call(&inputs, times, plus, 0.0, sigmoid).unwrap();
    assert_eq!(result.shape(), Shape { rows: 3, cols: 1 });
    let expected = [sigmoid(1.16), sigmoid(0.42), sigmoid(0.62)];
    for i in 0..3 {
        assert!((result.get(i, 0) - expected[i]).abs() < 1e-12);
    }
}

#[test]
fn layer_sizes_follow_the_weights() {
    let layer = Layer::new(matrix(vec![vec![1.0, 2.0, 3.0], vec![4.0, 5.0, 6.0]]));
    assert_eq!(layer.input_size(), 3);
    assert_eq!(layer.output_size(), 2);
    let wrong = matrix(vec![vec![1.0, 2.0]]).transpose().transpose();
    assert_eq!(
        layer.call(&wrong, times, plus, 0.0, sigmoid).unwrap_err(),
        ShapeError::Mismatch { expected: Shape { rows: 3, cols: 2 }, actual: Shape { rows: 1, cols: 2 } }
    );
}

#[test]
fn test_inference() {
    let nn = random_network(vec![3, 4, 1]);
    let inputs = matrix(vec![vec![0.9, 0.1, 0.8]]);
    let inputs = inputs.transpose();
    let out = nn.inference(inputs, times, plus, 0.0, sigmoid).unwrap();
    assert_eq!(out.shape(), Shape { rows: 1, cols: 1 });
    assert!(out.get(0, 0) > 0.0 && out.get(0, 0) < 1.0);
}

#[test]
fn inference_is_the_layers_in_turn() {
    let w0 = matrix(vec![vec![0.9, 0.3, 0.4], vec![0.2, 0.8, 0.2], vec![0.1, 0.5, 0.6]]);
    let w1 = matrix(vec![vec![0.5, -0.5, 0.25]]);
    let l0 = Layer::new(matrix(w0.data.clone()));
    let l1 = Layer::new(matrix(w1.data.clone()));
    let nn = NeuralNetwork::new(vec![l0, l1], 0.3).unwrap();
    let x = matrix(vec![vec![0.9], vec![0.1], vec![0.8]]);
    let h = Layer::new(w0).call(&x, times, plus, 0.0, sigmoid).unwrap();
    let y = Layer::new(w1).call(&h, times, plus, 0.0, sigmoid).unwrap();
    assert_eq!(infer(&nn, &x).data, y.data);
}

#[test]
fn test_train() {
    let mut nn = random_network(vec![3, 4, 1]);
    let inputs = matrix(vec![vec![0.9, 0.1, 0.8]]);
    let label = matrix(vec![vec![1.0]]);
    let inputs = inputs.transpose();
    for _i in 0..10 {
        let out = train_once(&mut nn, &inputs, &label);
        assert_eq!(out.shape(), Shape { rows: 1, cols: 1 });
    }
}

#[test]
fn one_training_step_moves_every_weight_matrix() {
    let mut nn = random_network(vec![3, 4, 1]);
    let before: Vec<Vec<Vec<f64>>> = nn.layers.iter().map(|l| l.weights.data.clone()).collect();
    let shapes: Vec<Shape> = nn.layers.iter().map(|l| l.weights.shape()).collect();
    let inputs = matrix(vec![vec![0.9], vec![0.1], vec![0.8]]);
    let label = matrix(vec![vec![0.99]]);
    let expected_out = infer(&nn, &inputs).transpose();
    let out = train_once(&mut nn, &inputs, &label);
    assert_eq!(out.data, expected_out.data);
    for (k, layer) in nn.layers.iter().enumerate() {
        assert_eq!(layer.weights.shape(), shapes[k]);
        assert_ne!(layer.weights.data, before[k]);
    }
}

#[test]
fn training_step_matches_the_update_rule() {
    // A single layer: the update is lr * (e * o * (1 - o)) x input^T.
    let w = matrix(vec![vec![0.5, -0.25]]);
    let mut nn = NeuralNetwork::new(vec![Layer::new(matrix(w.data.clone()))], 0.3).unwrap();
    let x = matrix(vec![vec![1.0], vec![2.0]]);
    let label = matrix(vec![vec![0.99]]);
    train_once(&mut nn, &x, &label);
    let o = sigmoid(0.5 * 1.0 + -0.25 * 2.0);
    let g = (1.0 - o) * ((0.99 - o) * o);
    let expected = [0.5 + (g * 1.0) * 0.3, -0.25 + (g * 2.0) * 0.3];
    assert_eq!(nn.layers[0].weights.data, vec![vec![expected[0], expected[1]]]);
}

#[test]
fn train_refuses_wrong_shapes_and_changes_nothing() {
    let mut nn = random_network(vec![3, 2]);
    let before = nn.layers[0].weights.data.clone();
    let bad_input = matrix(vec![vec![0.1], vec![0.2]]);
    let label = matrix(vec![vec![0.5], vec![0.5]]);
    assert_eq!(
        nn.train(&bad_input, &label, times, plus, minus, 0.0, 1.0, sigmoid).unwrap_err(),
        ShapeError::Mismatch { expected: Shape { rows: 3, cols: 1 }, actual: Shape { rows: 2, cols: 1 } }
    );
    let input = matrix(vec![vec![0.1], vec![0.2], vec![0.3]]);
    let bad_label = matrix(vec![vec![0.5]]);
    assert_eq!(
        nn.train(&input, &bad_label, times, plus, minus, 0.0, 1.0, sigmoid).unwrap_err(),
        ShapeError::Mismatch { expected: Shape { rows: 2, cols: 1 }, actual: Shape { rows: 1, cols: 1 } }
    );
    assert_eq!(nn.layers[0].weights.data, before);
}

#[test]
fn repeated_training_reduces_the_squared_error() {
    let mut nn = random_network(vec![2, 3, 1]);
    let examples = [([0.01, 0.01], 0.01), ([0.01, 0.99], 0.99), ([0.99, 0.01], 0.99), ([0.99, 0.99], 0.99)];
    let error = |nn: &NeuralNetwork<f64>| -> f64 {
        let mut sum = 0.0;
        for (x, y) in examples.iter() {
            let input = matrix(vec![vec![x[0]], vec![x[1]]]);
            let d = infer(nn, &input).get(0, 0) - y;
            sum += d * d;
        }
        sum
    };
    let start = error(&nn);
    for _epoch in 0..2000 {
        for (x, y) in examples.iter() {
            let input = matrix(vec![vec![x[0]], vec![x[1]]]);
            train_once(&mut nn, &input, &matrix(vec![vec![*y]]));
        }
    }
    let end = error(&nn);
    assert!(end < start);
    assert!(end < 0.1);
}

#[test]
fn layer_shapes_follow_the_topology() {
    assert_eq!(
        layer_shapes(&vec![784, 100, 10]),
        vec![Shape { rows: 100, cols: 784 }, Shape { rows: 10, cols: 100 }]
    );
    assert!(layer_shapes(&vec![5]).is_empty());
    assert!(layer_shapes(&vec![]).is_empty());
}

#[test]
fn new_refuses_layers_that_do_not_chain() {
    let a = Layer::new(matrix(vec![vec![1.0, 2.0, 3.0], vec![4.0, 5.0, 6.0]]));
    let b = Layer::new(matrix(vec![vec![1.0, 2.0, 3.0]]));
    assert_eq!(
        NeuralNetwork::new(vec![a, b], 0.3).unwrap_err(),
        ShapeError::Mismatch { expected: Shape { rows: 1, cols: 2 }, actual: Shape { rows: 1, cols: 3 } }
    );
}

#[test]
fn eval_decodes_prediction_and_label() {
    let nn = NeuralNetwork::new(vec![Layer::new(matrix(vec![vec![1.0, 0.0], vec![0.0, 1.0], vec![2.0, 2.0]]))], 0.3).unwrap();
    let input = matrix(vec![vec![0.5], vec![0.2]]);
    let label = matrix(vec![vec![0.01, 0.99, 0.01]]);
    let (predicted, expected) = nn
        .eval(input, &label, times, plus, 0.0, sigmoid, |a: f64, b: f64| a < b, |x: f64| x == 0.99)
        .unwrap();
    assert_eq!(predicted, 2);
    assert_eq!(expected, 1);
}

#[test]
fn arg_max_keeps_the_first_greatest() {
    assert_eq!(arg_max(&vec![0.1, 0.7, 0.3, 0.7], |a: f64, b: f64| a < b), 1);
    assert_eq!(arg_max(&vec![5.0], |a: f64, b: f64| a < b), 0);
    assert_eq!(active_index(&vec![0.01, 0.01, 0.99, 0.01], |x: f64| x == 0.99), 2);
    assert_eq!(active_index(&vec![0.01, 0.01], |x: f64| x == 0.99), 0);
}
