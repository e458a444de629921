use quriust::amplitude::Amplitude;
use quriust::state::{kronecker_product, Matrix};

fn amp(re: i64, im: i64) -> Amplitude {
    Amplitude { re, im }
}

#[test]
fn kronecker_product_test() {
    let a = Matrix::from_row_slice(2, 1, vec![amp(1, 0), amp(2, 0)]);

    let b = Matrix::from_row_slice(3, 1, vec![amp(1, 1), amp(2, 2), amp(2, 2)]);

    let result = kronecker_product(&a, &b);
    let expected = vec![amp(1, 1), amp(2, 2), amp(2, 2), amp(2, 2), amp(4, 4), amp(4, 4)];

    assert_eq!(result.nrows(), 6);
    assert_eq!(result.ncols(), 1);
    for (i, want) in expected.iter().enumerate() {
        assert_eq!(result.entry_at(i, 0), *want);
    }
}

#[test]
fn kronecker_product_identity_blocks() {
    // I_2 (x) g places g twice along the diagonal.
    let eye = Matrix::from_row_slice(2, 2, vec![amp(1, 0), amp(0, 0), amp(0, 0), amp(1, 0)]);
    let g = Matrix::from_row_slice(2, 2, vec![amp(0, 0), amp(1, 0), amp(1, 0), amp(0, 0)]);
    let k = kronecker_product(&eye, &g);
    assert_eq!(k.nrows(), 4);
    assert_eq!(k.ncols(), 4);
    let mut expected = vec![amp(0, 0); 16];
    expected[1] = amp(1, 0);
    expected[4] = amp(1, 0);
    expected[11] = amp(1, 0);
    expected[14] = amp(1, 0);
    for i in 0..4 {
        for j in 0..4 {
            assert_eq!(k.entry_at(i, j), expected[4 * i + j]);
        }
    }
}
