use dilithium_harness::error::ParseError;
use dilithium_harness::shape::{
    assemble_matrix, assemble_polynomial, assemble_vector, Matrix, NttPolynomial, PlainPolynomial,
    Vector,
};

fn plain(coefficients: &[i32]) -> PlainPolynomial {
    PlainPolynomial { coefficients: coefficients.to_vec() }
}

fn ntt(coefficients: &[i32]) -> NttPolynomial {
    NttPolynomial { coefficients: coefficients.to_vec() }
}

#[test]
fn assemble_polynomial_takes_exactly_the_degree() {
    assert_eq!(assemble_polynomial::<PlainPolynomial>(&[1, 0, -1, 0], 4), Ok(plain(&[1, 0, -1, 0])));
    assert_eq!(
        assemble_polynomial::<PlainPolynomial>(&[1, 0, -1], 4),
        Err(ParseError::DimensionMismatch)
    );
    assert_eq!(
        assemble_polynomial::<PlainPolynomial>(&[1, 0, -1, 0, 1], 4),
        Err(ParseError::DimensionMismatch)
    );
    assert_eq!(assemble_polynomial::<PlainPolynomial>(&[], 0), Err(ParseError::DimensionMismatch));
}

#[test]
fn assemble_vector_cuts_in_order() {
    let v: Vector<PlainPolynomial> = assemble_vector(&[1, 2, 3, 4, 5, 6], 2, 3).unwrap();
    assert_eq!(
        v,
        Vector { polynomials: vec![plain(&[1, 2]), plain(&[3, 4]), plain(&[5, 6])] }
    );
    let w: Vector<PlainPolynomial> = assemble_vector(&[1, 2, 3, 4, 5, 6], 3, 2).unwrap();
    assert_eq!(w, Vector { polynomials: vec![plain(&[1, 2, 3]), plain(&[4, 5, 6])] });
}

#[test]
fn assemble_vector_has_the_declared_length() {
    let coefficients: Vec<i32> = (0..256 * 5).collect();
    let v: Vector<PlainPolynomial> = assemble_vector(&coefficients, 256, 5).unwrap();
    assert_eq!(v.polynomials.len(), 5);
    for (i, p) in v.polynomials.iter().enumerate() {
        assert_eq!(p.coefficients.len(), 256);
        assert_eq!(p.coefficients[0], 256 * i as i32);
        assert_eq!(p.coefficients[255], 256 * i as i32 + 255);
    }
}

#[test]
fn assemble_vector_rejects_a_wrong_length() {
    let short: Result<Vector<PlainPolynomial>, ParseError> = assemble_vector(&[1, 2, 3, 4], 2, 3);
    assert_eq!(short, Err(ParseError::DimensionMismatch));
    let long: Result<Vector<PlainPolynomial>, ParseError> =
        assemble_vector(&[1, 2, 3, 4, 5, 6, 7, 8], 2, 3);
    assert_eq!(long, Err(ParseError::DimensionMismatch));
    let ragged: Result<Vector<PlainPolynomial>, ParseError> =
        assemble_vector(&[1, 2, 3, 4, 5], 2, 3);
    assert_eq!(ragged, Err(ParseError::DimensionMismatch));
    let none: Result<Vector<PlainPolynomial>, ParseError> = assemble_vector(&[], 0, 3);
    assert_eq!(none, Err(ParseError::DimensionMismatch));
    let huge: Result<Vector<PlainPolynomial>, ParseError> =
        assemble_vector(&[1, 2], usize::MAX, usize::MAX);
    assert_eq!(huge, Err(ParseError::DimensionMismatch));
}

#[test]
fn assemble_vector_of_no_polynomials() {
    let v: Vector<PlainPolynomial> = assemble_vector(&[], 4, 0).unwrap();
    assert_eq!(v.polynomials.len(), 0);
}

#[test]
fn assemble_matrix_is_row_major() {
    let coefficients: Vec<i32> = (1..=12).collect();
    let m: Matrix<NttPolynomial> = assemble_matrix(&coefficients, 2, 2, 3).unwrap();
    assert_eq!(
        m,
        Matrix {
            rows: vec![
                Vector { polynomials: vec![ntt(&[1, 2]), ntt(&[3, 4]), ntt(&[5, 6])] },
                Vector { polynomials: vec![ntt(&[7, 8]), ntt(&[9, 10]), ntt(&[11, 12])] },
            ]
        }
    );
}

#[test]
fn assemble_matrix_has_rows_by_columns_polynomials() {
    let coefficients: Vec<i32> = (0..4 * 5 * 8).collect();
    let m: Matrix<NttPolynomial> = assemble_matrix(&coefficients, 8, 4, 5).unwrap();
    assert_eq!(m.rows.len(), 4);
    for (r, row) in m.rows.iter().enumerate() {
        assert_eq!(row.polynomials.len(), 5);
        for (c, p) in row.polynomials.iter().enumerate() {
            assert_eq!(p.coefficients.len(), 8);
            assert_eq!(p.coefficients[0], ((r * 5 + c) * 8) as i32);
        }
    }
}

#[test]
fn assemble_matrix_rejects_a_wrong_length() {
    let coefficients: Vec<i32> = (1..=12).collect();
    let a: Result<Matrix<NttPolynomial>, ParseError> = assemble_matrix(&coefficients, 2, 3, 3);
    assert_eq!(a, Err(ParseError::DimensionMismatch));
    let b: Result<Matrix<NttPolynomial>, ParseError> = assemble_matrix(&coefficients[..11], 2, 2, 3);
    assert_eq!(b, Err(ParseError::DimensionMismatch));
    let c: Result<Matrix<NttPolynomial>, ParseError> = assemble_matrix(&coefficients, 0, 2, 3);
    assert_eq!(c, Err(ParseError::DimensionMismatch));
    let d: Result<Matrix<NttPolynomial>, ParseError> =
        assemble_matrix(&coefficients, 2, usize::MAX, usize::MAX);
    assert_eq!(d, Err(ParseError::DimensionMismatch));
    let e: Result<Matrix<NttPolynomial>, ParseError> =
        assemble_matrix(&coefficients, usize::MAX, 2, 3);
    assert_eq!(e, Err(ParseError::DimensionMismatch));
}
