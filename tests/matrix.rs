use neuralnetwork::matrix::Matrix;
use neuralnetwork::shape::{Shape, ShapeError};
use rand::Rng;

fn sigmoid(x: f64) -> f64 {
    let e = std::f64::consts::E;
    1.0 / (1.0 + e.powf(-1.0 * x))
}

fn matrix(data: Vec<Vec<f64>>) -> Matrix<f64> {
    Matrix::new(data).unwrap()
}

fn random_matrix(rows: usize, cols: usize) -> Matrix<f64> {
    let mut rng = rand::thread_rng();
    let mut data = Vec::new();
    for _row in 0..rows {
        let mut line = Vec::new();
        for _col in 0..cols {
            let x: f64 = rng.gen();
            line.push(x - 0.5);
        }
        data.push(line);
    }
    matrix(data)
}

#[test]
fn test_product() {
    let matrix0 = matrix(vec![vec![0.9, 0.3, 0.4], vec![0.2, 0.8, 0.2], vec![0.1, 0.5, 0.6]]);
    let matrix1 = matrix(vec![vec![0.9], vec![0.1], vec![0.8]]);
    let matrix2 = matrix0.product(&matrix1, |a, b| a * b, |a, b| a + b, 0.0).unwrap();
    assert_eq!(matrix2.rows, 3);
    assert_eq!(matrix2.cols, 1);
    let expected = [0.9 * 0.9 + 0.3 * 0.1 + 0.4 * 0.8, 0.2 * 0.9 + 0.8 * 0.1 + 0.2 * 0.8, 0.1 * 0.9 + 0.5 * 0.1 + 0.6 * 0.8];
    for i in 0..3 {
        assert!((matrix2.get(i, 0) - expected[i]).abs() < 1e-12);
    }
}

#[test]
fn test_transpose() {
    let matrix1 = matrix(vec![vec![0.9], vec![0.1], vec![0.8]]);
    let matrix2 = matrix1.transpose();
    assert_eq!(matrix1.cols, matrix2.rows);
    assert_eq!(matrix1.rows, matrix2.cols);
    assert_eq!(matrix2.data, vec![vec![0.9, 0.1, 0.8]]);
}

#[test]
fn test_dot() {
    let matrix0 = matrix(vec![vec![0.9, 0.3, 0.4]]);
    let matrix1 = matrix(vec![vec![0.9, 0.3, 0.4]]);
    let res = matrix0.dot(&matrix1, |a, b| a * b, |a, b| a + b, 0.0).unwrap();
    assert_eq!(res, 1.06);
}

#[test]
fn test_dot_const() {
    let matrix0 = matrix(vec![vec![0.9, 0.3, 0.4]]);
    let val = 0.5;
    let res = matrix0.dot_const(val, |a, b| a * b, |a, b| a + b, 0.0);
    assert_eq!(res, 0.8);
}

#[test]
fn test_mul() {
    let matrix0 = matrix(vec![vec![0.9, 0.3, 0.4]]);
    let matrix1 = matrix(vec![vec![0.9, 0.3, 0.4]]);
    let matrix2 = matrix0.zip_with(&matrix1, |a, b| a * b).unwrap();
    assert_eq!(matrix2.data, vec![vec![0.9 * 0.9, 0.3 * 0.3, 0.4 * 0.4]]);
}

#[test]
fn test_mul_const() {
    let matrix0 = matrix(vec![vec![0.9, 0.3, 0.4]]);
    let b = 0.5;
    let matrix1 = matrix0.map(|x| x * b);
    assert_eq!(matrix1.data, vec![vec![0.45, 0.15, 0.2]]);
}

#[test]
fn test_activate_sigmoid() {
    let matrix0 = matrix(vec![vec![0.975, 0.888, 1.254]]);
    let matrix1 = matrix0.map(sigmoid);
    for j in 0..3 {
        assert_eq!(matrix1.get(0, j), sigmoid(matrix0.get(0, j)));
        assert!(matrix1.get(0, j) > 0.5 && matrix1.get(0, j) < 1.0);
    }
}

#[test]
fn test_new_by_rand() {
    let a = random_matrix(3, 3);
    assert_eq!((a.rows, a.cols), (3, 3));
    for i in 0..3 {
        for j in 0..3 {
            assert!(a.get(i, j) >= -0.5 && a.get(i, j) < 0.5);
        }
    }
}

#[test]
fn test_add() {
    let a = random_matrix(3, 3);
    let b = random_matrix(3, 3);
    let c = a.zip_with(&b, |x, y| x + y).unwrap();
    for i in 0..3 {
        for j in 0..3 {
            assert_eq!(c.get(i, j), a.get(i, j) + b.get(i, j));
        }
    }
}

#[test]
fn test_sub() {
    let a = random_matrix(3, 3);
    let b = random_matrix(3, 3);
    let c = a.zip_with(&b, |x, y| x - y).unwrap();
    for i in 0..3 {
        for j in 0..3 {
            assert_eq!(c.get(i, j), a.get(i, j) - b.get(i, j));
        }
    }
}

#[test]
fn test_div_const() {
    let a = random_matrix(3, 3);
    let c = a.map(|x| x / 2.0);
    for i in 0..3 {
        for j in 0..3 {
            assert_eq!(c.get(i, j), a.get(i, j) / 2.0);
        }
    }
}

#[test]
fn new_refuses_empty_and_ragged_rows() {
    let empty: Vec<Vec<f64>> = Vec::new();
    assert_eq!(Matrix::new(empty).unwrap_err(), ShapeError::Empty);
    assert_eq!(Matrix::<f64>::new(vec![vec![]]).unwrap_err(), ShapeError::Empty);
    assert_eq!(Matrix::new(vec![vec![1.0, 2.0], vec![3.0]]).unwrap_err(), ShapeError::Ragged);
}

#[test]
fn filled_gives_constant_entries() {
    let z = Matrix::filled(2, 3, 0.0).unwrap();
    assert_eq!(z.data, vec![vec![0.0; 3]; 2]);
    let o = Matrix::filled(1, 1, 1.0).unwrap();
    assert_eq!(o.data, vec![vec![1.0]]);
    assert_eq!(Matrix::filled(0, 3, 1.0).unwrap_err(), ShapeError::Empty);
    assert_eq!(Matrix::filled(3, 0, 1.0).unwrap_err(), ShapeError::Empty);
}

#[test]
fn product_shape_and_mismatch() {
    let a = random_matrix(2, 3);
    let b = random_matrix(3, 4);
    let c = a.product(&b, |x, y| x * y, |x, y| x + y, 0.0).unwrap();
    assert_eq!(c.shape(), Shape { rows: 2, cols: 4 });
    let err = b.product(&a, |x, y| x * y, |x, y| x + y, 0.0).unwrap_err();
    assert_eq!(
        err,
        ShapeError::Mismatch { expected: Shape { rows: 4, cols: 3 }, actual: Shape { rows: 2, cols: 3 } }
    );
}

#[test]
fn product_with_integers_is_exact() {
    let a = Matrix::new(vec![vec![1i64, 2], vec![3, 4]]).unwrap();
    let b = Matrix::new(vec![vec![5i64, 6], vec![7, 8]]).unwrap();
    let c = a.product(&b, |x, y| x * y, |x, y| x + y, 0).unwrap();
    assert_eq!(c.data, vec![vec![19, 22], vec![43, 50]]);
}

#[test]
fn transpose_twice_is_identity() {
    let a = random_matrix(2, 5);
    let t = a.transpose();
    assert_eq!(t.shape(), Shape { rows: 5, cols: 2 });
    assert_eq!(t.get(4, 1), a.get(1, 4));
    assert_eq!(t.transpose().data, a.data);
}

#[test]
fn add_then_sub_gives_back_the_matrix() {
    let a = random_matrix(3, 2);
    let b = random_matrix(3, 2);
    let c = a.zip_with(&b, |x, y| x + y).unwrap().zip_with(&b, |x, y| x - y).unwrap();
    for i in 0..3 {
        for j in 0..2 {
            assert!((c.get(i, j) - a.get(i, j)).abs() < 1e-12);
        }
    }
    let p = Matrix::new(vec![vec![1i64, -2], vec![7, 4]]).unwrap();
    let q = Matrix::new(vec![vec![9i64, 3], vec![-5, 0]]).unwrap();
    let r = p.zip_with(&q, |x, y| x + y).unwrap().zip_with(&q, |x, y| x - y).unwrap();
    assert_eq!(r.data, p.data);
}

#[test]
fn elementwise_mismatch_names_both_shapes() {
    let a = random_matrix(3, 2);
    let b = random_matrix(2, 3);
    assert_eq!(
        a.zip_with(&b, |x, y| x + y).unwrap_err(),
        ShapeError::Mismatch { expected: Shape { rows: 3, cols: 2 }, actual: Shape { rows: 2, cols: 3 } }
    );
    assert!(a.dot(&b, |x, y| x * y, |x, y| x + y, 0.0).is_err());
}

#[test]
fn sigmoid_is_centred_increasing_and_bounded() {
    assert_eq!(sigmoid(0.0), 0.5);
    let mut last = 0.0;
    for k in -30..=30 {
        let y = sigmoid(k as f64 / 5.0);
        assert!(y > 0.0 && y < 1.0);
        assert!(y > last);
        last = y;
    }
}
