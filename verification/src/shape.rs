//! Polynomials, vectors and matrices of a fixed shape, and their assembly from
//! a flat run of coefficients.

use vstd::prelude::*;
use vstd::slice::{slice_subrange, slice_to_vec};

use crate::error::ParseError;

verus! {

/// A ring element: its coefficients by position.
pub trait Polynomial: Sized {
    /// The coefficients, the one of position `i` at index `i`.
    spec fn coefficients(&self) -> Seq<i32>;

    /// The polynomial with the given coefficients.
    fn from_coefficients(coefficients: Vec<i32>) -> (p: Self)
        ensures
            p.coefficients() == coefficients@,
    ;
}

/// A polynomial in the plain domain.
#[derive(Debug, PartialEq, Eq)]
pub struct PlainPolynomial {
    pub coefficients: Vec<i32>,
}

/// A polynomial in the transformed domain.
#[derive(Debug, PartialEq, Eq)]
pub struct NttPolynomial {
    pub coefficients: Vec<i32>,
}

impl Polynomial for PlainPolynomial {
    open spec fn coefficients(&self) -> Seq<i32> {
        self.coefficients@
    }

    fn from_coefficients(coefficients: Vec<i32>) -> (p: Self) {
        PlainPolynomial { coefficients }
    }
}

impl Polynomial for NttPolynomial {
    open spec fn coefficients(&self) -> Seq<i32> {
        self.coefficients@
    }

    fn from_coefficients(coefficients: Vec<i32>) -> (p: Self) {
        NttPolynomial { coefficients }
    }
}

/// Polynomials of one domain, in order.
#[derive(Debug, PartialEq, Eq)]
pub struct Vector<P> {
    pub polynomials: Vec<P>,
}

/// Rows of polynomials of one domain, the first row first.
#[derive(Debug, PartialEq, Eq)]
pub struct Matrix<P> {
    pub rows: Vec<Vector<P>>,
}

impl<P: Polynomial> View for Vector<P> {
    type V = Seq<Seq<i32>>;

    open spec fn view(&self) -> Seq<Seq<i32>> {
        Seq::new(self.polynomials@.len(), |i: int| self.polynomials@[i].coefficients())
    }
}

impl<P: Polynomial> View for Matrix<P> {
    type V = Seq<Seq<Seq<i32>>>;

    open spec fn view(&self) -> Seq<Seq<Seq<i32>>> {
        Seq::new(self.rows@.len(), |i: int| self.rows@[i]@)
    }
}

/// The `index`-th run of `degree` coefficients.
pub open spec fn chunk(coefficients: Seq<i32>, degree: int, index: int) -> Seq<i32> {
    coefficients.subrange(index * degree, (index + 1) * degree)
}

/// Whether `length` coefficients are exactly `count` polynomials of `degree`
/// coefficients each. No polynomial has degree zero.
pub open spec fn fills(length: int, degree: int, count: int) -> bool {
    degree > 0 && count >= 0 && length == count * degree
}

/// The polynomials that a run of coefficients is cut into, `count` of them
/// from the polynomial of number `first` on.
pub open spec fn chunks(coefficients: Seq<i32>, degree: int, first: int, count: int) -> Seq<
    Seq<i32>,
> {
    Seq::new(count as nat, |i: int| chunk(coefficients, degree, first + i))
}

/// The rows that a run of coefficients is cut into, row after row.
pub open spec fn grid(coefficients: Seq<i32>, degree: int, rows: int, columns: int) -> Seq<
    Seq<Seq<i32>>,
> {
    Seq::new(rows as nat, |r: int| chunks(coefficients, degree, r * columns, columns))
}

/// The polynomial that `coefficients` is, if there are `degree` of them.
pub open spec fn polynomial_of(coefficients: Seq<i32>, degree: int) -> Result<
    Seq<i32>,
    ParseError,
> {
    if fills(coefficients.len() as int, degree, 1) {
        Ok(coefficients)
    } else {
        Err(ParseError::DimensionMismatch)
    }
}

/// The vector of `count` polynomials that `coefficients` is cut into, if it
/// has as many coefficients as that takes.
pub open spec fn vector_of(coefficients: Seq<i32>, degree: int, count: int) -> Result<
    Seq<Seq<i32>>,
    ParseError,
> {
    if fills(coefficients.len() as int, degree, count) {
        Ok(chunks(coefficients, degree, 0, count))
    } else {
        Err(ParseError::DimensionMismatch)
    }
}

/// The matrix of `rows` by `columns` polynomials that `coefficients` is cut
/// into, if it has as many coefficients as that takes.
pub open spec fn matrix_of(coefficients: Seq<i32>, degree: int, rows: int, columns: int) -> Result<
    Seq<Seq<Seq<i32>>>,
    ParseError,
> {
    if rows >= 0 && columns >= 0 && fills(coefficients.len() as int, degree, rows * columns) {
        Ok(grid(coefficients, degree, rows, columns))
    } else {
        Err(ParseError::DimensionMismatch)
    }
}

/// Where a coefficient of a run goes: the one at position `j` is the
/// coefficient of position `j % degree` in the polynomial of number
/// `j / degree`.
pub proof fn lemma_chunk_holds(coefficients: Seq<i32>, degree: int, count: int, j: int)
    requires
        fills(coefficients.len() as int, degree, count),
        0 <= j < coefficients.len(),
    ensures
        0 <= j / degree < count,
        0 <= j % degree < degree,
        chunks(coefficients, degree, 0, count)[j / degree][j % degree] == coefficients[j],
{
    let q = j / degree;
    let r = j % degree;
    vstd::arithmetic::div_mod::lemma_fundamental_div_mod(j, degree);
    assert(0 <= q < count) by (nonlinear_arith)
        requires
            j == degree * q + r,
            0 <= r < degree,
            0 <= j < count * degree,
            degree > 0,
    ;
    lemma_chunk_bounds(degree, count, q);
    assert(q * degree == degree * q) by (nonlinear_arith);
    assert(chunk(coefficients, degree, q)[r] == coefficients[q * degree + r]);
}

/// A vector cut from enough coefficients has `count` polynomials of `degree`
/// coefficients each.
pub proof fn lemma_chunks_shape(coefficients: Seq<i32>, degree: int, count: int)
    requires
        fills(coefficients.len() as int, degree, count),
    ensures
        chunks(coefficients, degree, 0, count).len() == count,
        forall|i: int|
            0 <= i < count ==> (#[trigger] chunks(coefficients, degree, 0, count)[i]).len()
                == degree,
{
    assert forall|i: int| 0 <= i < count implies (#[trigger] chunks(
        coefficients,
        degree,
        0,
        count,
    )[i]).len() == degree by {
        lemma_chunk_bounds(degree, count, i);
    }
}

/// The bounds of the `index`-th of `count` chunks lie in order within the
/// run.
pub proof fn lemma_chunk_bounds(degree: int, count: int, index: int)
    requires
        degree > 0,
        0 <= index < count,
    ensures
        0 <= index * degree,
        (index + 1) * degree == index * degree + degree,
        (index + 1) * degree <= count * degree,
{
    assert(0 <= index * degree) by (nonlinear_arith)
        requires
            degree > 0,
            0 <= index,
    ;
    assert((index + 1) * degree == index * degree + degree) by (nonlinear_arith);
    assert((index + 1) * degree <= count * degree) by (nonlinear_arith)
        requires
            degree > 0,
            index + 1 <= count,
    ;
}

/// The polynomial of row `r` and column `c` of a matrix cut from enough
/// coefficients has `degree` coefficients, and is the polynomial of number
/// `r * columns + c` of the run.
pub proof fn lemma_grid_holds(
    coefficients: Seq<i32>,
    degree: int,
    rows: int,
    columns: int,
    r: int,
    c: int,
)
    requires
        fills(coefficients.len() as int, degree, rows * columns),
        0 <= r < rows,
        0 <= c < columns,
    ensures
        0 <= r * columns + c < rows * columns,
        grid(coefficients, degree, rows, columns)[r][c] == chunk(
            coefficients,
            degree,
            r * columns + c,
        ),
        grid(coefficients, degree, rows, columns)[r][c].len() == degree,
{
    lemma_cell_index(rows, columns, r, c);
    lemma_chunk_bounds(degree, rows * columns, r * columns + c);
}

/// A matrix cut from enough coefficients has `rows` rows of `columns`
/// polynomials of `degree` coefficients each.
pub proof fn lemma_grid_shape(coefficients: Seq<i32>, degree: int, rows: int, columns: int)
    requires
        rows >= 0,
        columns >= 0,
        fills(coefficients.len() as int, degree, rows * columns),
    ensures
        grid(coefficients, degree, rows, columns).len() == rows,
        forall|r: int|
            0 <= r < rows ==> (#[trigger] grid(coefficients, degree, rows, columns)[r]).len()
                == columns,
        forall|r: int, c: int|
            0 <= r < rows && 0 <= c < columns ==> (#[trigger] grid(
                coefficients,
                degree,
                rows,
                columns,
            )[r][c]).len() == degree,
{
    assert forall|r: int, c: int| 0 <= r < rows && 0 <= c < columns implies (#[trigger] grid(
        coefficients,
        degree,
        rows,
        columns,
    )[r][c]).len() == degree by {
        lemma_grid_holds(coefficients, degree, rows, columns, r, c);
    }
}

/// The cell of row `r` and column `c` is one of the `rows * columns` cells.
pub proof fn lemma_cell_index(rows: int, columns: int, r: int, c: int)
    requires
        0 <= r < rows,
        0 <= c < columns,
    ensures
        0 <= r * columns + c < rows * columns,
{
    assert(0 <= r * columns) by (nonlinear_arith)
        requires
            0 <= r,
            0 <= columns,
    ;
    assert(r * columns + columns <= rows * columns) by (nonlinear_arith)
        requires
            r + 1 <= rows,
            0 <= columns,
    ;
}

/// Cuts `count` polynomials out of a run of coefficients, from the polynomial
/// of number `first` on.
fn cut<P: Polynomial>(coefficients: &[i32], degree: usize, first: usize, count: usize) -> (v:
    Vector<P>)
    requires
        degree > 0,
        (first + count) * degree <= coefficients.len(),
    ensures
        v@ == chunks(coefficients@, degree as int, first as int, count as int),
{
    proof {
        assert(first * degree <= (first + count) * degree) by (nonlinear_arith)
            requires
                degree > 0,
                count >= 0,
        ;
    }
    let mut polynomials: Vec<P> = Vec::new();
    let mut offset: usize = first * degree;
    let mut i: usize = 0;
    while i < count
        invariant
            degree > 0,
            (first + count) * degree <= coefficients.len(),
            i <= count,
            offset == (first + i) * degree,
            polynomials.len() == i,
            forall|k: int|
                0 <= k < i ==> (#[trigger] polynomials[k]).coefficients() == chunk(
                    coefficients@,
                    degree as int,
                    first + k,
                ),
        decreases count - i,
    {
        proof {
            lemma_chunk_bounds(degree as int, first + count, first + i);
        }
        let part = slice_subrange(coefficients, offset, offset + degree);
        polynomials.push(P::from_coefficients(slice_to_vec(part)));
        offset = offset + degree;
        i = i + 1;
    }
    let v = Vector { polynomials };
    assert(v@ =~= chunks(coefficients@, degree as int, first as int, count as int));
    v
}

/// Makes one polynomial of a run of coefficients, which must be exactly
/// `degree` long.
pub fn assemble_polynomial<P: Polynomial>(coefficients: &[i32], degree: usize) -> (r: Result<
    P,
    ParseError,
>)
    ensures
        match r {
            Ok(p) => polynomial_of(coefficients@, degree as int) == Ok::<Seq<i32>, ParseError>(
                p.coefficients(),
            ),
            Err(e) => polynomial_of(coefficients@, degree as int) == Err::<Seq<i32>, ParseError>(
                e,
            ),
        },
        r matches Ok(p) ==> p.coefficients().len() == degree,
{
    if degree == 0 || coefficients.len() != degree {
        return Err(ParseError::DimensionMismatch);
    }
    Ok(P::from_coefficients(slice_to_vec(coefficients)))
}

/// Cuts a run of coefficients into a vector of `count` polynomials of
/// `degree` coefficients each, in the order of the run. A run of any other
/// length is rejected.
pub fn assemble_vector<P: Polynomial>(coefficients: &[i32], degree: usize, count: usize) -> (r:
    Result<Vector<P>, ParseError>)
    ensures
        match r {
            Ok(v) => vector_of(coefficients@, degree as int, count as int) == Ok::<
                Seq<Seq<i32>>,
                ParseError,
            >(v@),
            Err(e) => vector_of(coefficients@, degree as int, count as int) == Err::<
                Seq<Seq<i32>>,
                ParseError,
            >(e),
        },
        r matches Ok(v) ==> v@.len() == count && forall|i: int|
            0 <= i < count ==> (#[trigger] v@[i]).len() == degree,
{
    let length: usize = coefficients.len();
    if degree == 0 {
        return Err(ParseError::DimensionMismatch);
    }
    match count.checked_mul(degree) {
        Some(total) => {
            if length != total {
                return Err(ParseError::DimensionMismatch);
            }
        },
        None => {
            return Err(ParseError::DimensionMismatch);
        },
    }
    proof {
        lemma_chunks_shape(coefficients@, degree as int, count as int);
    }
    Ok(cut(coefficients, degree, 0, count))
}

/// Cuts a run of coefficients into a matrix of `rows` rows of `columns`
/// polynomials of `degree` coefficients each, row after row in the order of
/// the run. A run of any other length is rejected.
pub fn assemble_matrix<P: Polynomial>(
    coefficients: &[i32],
    degree: usize,
    rows: usize,
    columns: usize,
) -> (r: Result<Matrix<P>, ParseError>)
    ensures
        match r {
            Ok(m) => matrix_of(coefficients@, degree as int, rows as int, columns as int) == Ok::<
                Seq<Seq<Seq<i32>>>,
                ParseError,
            >(m@),
            Err(e) => matrix_of(coefficients@, degree as int, rows as int, columns as int)
                == Err::<Seq<Seq<Seq<i32>>>, ParseError>(e),
        },
        r matches Ok(m) ==> {
            &&& coefficients@.len() == rows * columns * degree
            &&& m@.len() == rows
            &&& forall|i: int| 0 <= i < rows ==> (#[trigger] m@[i]).len() == columns
            &&& forall|i: int, j: int|
                0 <= i < rows && 0 <= j < columns ==> (#[trigger] m@[i][j]).len() == degree
        },
{
    let length: usize = coefficients.len();
    if degree == 0 {
        return Err(ParseError::DimensionMismatch);
    }
    let cells: usize = match rows.checked_mul(columns) {
        Some(cells) => cells,
        None => {
            proof {
                assert((rows * columns) * degree >= rows * columns) by (nonlinear_arith)
                    requires
                        degree >= 1,
                        rows * columns >= 0,
                ;
                }
            return Err(ParseError::DimensionMismatch);
        },
    };
    match cells.checked_mul(degree) {
        Some(total) => {
            if length != total {
                return Err(ParseError::DimensionMismatch);
            }
        },
        None => {
            return Err(ParseError::DimensionMismatch);
        },
    }
    let mut grid_rows: Vec<Vector<P>> = Vec::new();
    let mut r: usize = 0;
    while r < rows
        invariant
            degree > 0,
            cells == rows * columns,
            coefficients.len() == cells * degree,
            r <= rows,
            grid_rows.len() == r,
            forall|k: int|
                0 <= k < r ==> (#[trigger] grid_rows[k])@ == chunks(
                    coefficients@,
                    degree as int,
                    k * columns,
                    columns as int,
                ),
        decreases rows - r,
    {
        proof {
            assert(r * columns + columns <= rows * columns) by (nonlinear_arith)
                requires
                    r + 1 <= rows,
                    columns >= 0,
            ;
            assert(0 <= r * columns) by (nonlinear_arith)
                requires
                    r >= 0,
                    columns >= 0,
            ;
            assert((r * columns + columns) * degree <= rows * columns * degree)
                by (nonlinear_arith)
                requires
                    r * columns + columns <= rows * columns,
                    degree > 0,
            ;
        }
        let first: usize = r * columns;
        grid_rows.push(cut(coefficients, degree, first, columns));
        r = r + 1;
    }
    let m = Matrix { rows: grid_rows };
    proof {
        assert(m@ =~= grid(coefficients@, degree as int, rows as int, columns as int));
        lemma_grid_shape(coefficients@, degree as int, rows as int, columns as int);
    }
    Ok(m)
}

} // verus!
