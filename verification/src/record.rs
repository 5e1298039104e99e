//! One record of a fixture file: fourteen labelled fields in a fixed order.
//!
//! A field is its label, its text, and the text that ends it. The fields
//! that hold a matrix or a vector run over several lines, so what ends them is
//! the newline together with the start of the label that follows. Where such
//! a field is never ended, it is the next label that is missing.

use vstd::prelude::*;
use vstd::slice::slice_subrange;
use vstd::string::StringSliceAdditionalSpecFns;

use crate::decimal::{decimal_value, digits_end, read_digits};
use crate::error::ParseError;
use crate::hex::{decode_hex, hex_decoding};
use crate::lists::{decode_int_list, decode_nested_list, int_list, nested_int_list};
use crate::scan::{find, first_occurrence, occurs_at, starts_with_at};
use crate::shape::{
    assemble_matrix, assemble_polynomial, assemble_vector, matrix_of, polynomial_of, vector_of,
    Matrix, NttPolynomial, PlainPolynomial, Polynomial, Vector,
};

verus! {

/// The number of fields in a record.
pub const FIELDS: usize = 14;

/// The sizes that the scheme fixes and that every record of a file has.
#[derive(Clone, Copy, Debug, PartialEq, Eq)]
pub struct Dimensions {
    /// The number of coefficients of a polynomial.
    pub degree: usize,
    /// The number of rows of the expansion matrix, which is the length of the
    /// commitment and public-key vectors.
    pub rows: usize,
    /// The number of columns of the expansion matrix, which is the length of
    /// the secret and masking vectors.
    pub columns: usize,
    /// The number of bytes of each of the three digests.
    pub digest_len: usize,
    /// The number of bytes of the seed.
    pub seed_len: usize,
}

/// One record: the inputs and the intermediate values of one signature.
#[derive(Debug, PartialEq, Eq)]
pub struct Fixture {
    /// The number of the record in its file.
    pub index: u32,
    /// The message.
    pub m: Vec<u8>,
    /// The digest of the public key.
    pub pk: Vec<u8>,
    /// The digest of the secret key.
    pub sk: Vec<u8>,
    /// The digest of the signature.
    pub sig: Vec<u8>,
    /// The seed. Its first half is the seed of the expansion matrix.
    pub seed: Vec<u8>,
    /// The expansion matrix.
    pub a: Matrix<NttPolynomial>,
    /// The secret vector.
    pub s: Vector<PlainPolynomial>,
    /// The masking vector.
    pub y: Vector<PlainPolynomial>,
    /// The high bits of the commitment.
    pub w1: Vector<PlainPolynomial>,
    /// The low bits of the commitment.
    pub w0: Vector<PlainPolynomial>,
    /// The high bits of the public-key vector.
    pub t1: Vector<PlainPolynomial>,
    /// The low bits of the public-key vector.
    pub t0: Vector<PlainPolynomial>,
    /// The challenge polynomial.
    pub c: PlainPolynomial,
}

/// What a record holds, as plain sequences.
pub struct FixtureView {
    pub index: u32,
    pub m: Seq<u8>,
    pub pk: Seq<u8>,
    pub sk: Seq<u8>,
    pub sig: Seq<u8>,
    pub seed: Seq<u8>,
    pub a: Seq<Seq<Seq<i32>>>,
    pub s: Seq<Seq<i32>>,
    pub y: Seq<Seq<i32>>,
    pub w1: Seq<Seq<i32>>,
    pub w0: Seq<Seq<i32>>,
    pub t1: Seq<Seq<i32>>,
    pub t0: Seq<Seq<i32>>,
    pub c: Seq<i32>,
}

impl View for Fixture {
    type V = FixtureView;

    open spec fn view(&self) -> FixtureView {
        FixtureView {
            index: self.index,
            m: self.m@,
            pk: self.pk@,
            sk: self.sk@,
            sig: self.sig@,
            seed: self.seed@,
            a: self.a@,
            s: self.s@,
            y: self.y@,
            w1: self.w1@,
            w0: self.w0@,
            t1: self.t1@,
            t0: self.t0@,
            c: self.c.coefficients(),
        }
    }
}

/// Whether `v` is `count` polynomials of `degree` coefficients each.
pub open spec fn is_vector(v: Seq<Seq<i32>>, degree: int, count: int) -> bool {
    &&& v.len() == count
    &&& forall|i: int| 0 <= i < count ==> (#[trigger] v[i]).len() == degree
}

impl FixtureView {
    /// Whether every field has the size that `dims` gives it.
    pub open spec fn has_shape(self, dims: Dimensions) -> bool {
        &&& self.pk.len() == dims.digest_len
        &&& self.sk.len() == dims.digest_len
        &&& self.sig.len() == dims.digest_len
        &&& self.seed.len() == dims.seed_len
        &&& self.a.len() == dims.rows
        &&& forall|r: int|
            0 <= r < dims.rows ==> is_vector(
                #[trigger] self.a[r],
                dims.degree as int,
                dims.columns as int,
            )
        &&& is_vector(self.s, dims.degree as int, dims.columns as int)
        &&& is_vector(self.y, dims.degree as int, dims.columns as int)
        &&& is_vector(self.w1, dims.degree as int, dims.rows as int)
        &&& is_vector(self.w0, dims.degree as int, dims.rows as int)
        &&& is_vector(self.t1, dims.degree as int, dims.rows as int)
        &&& is_vector(self.t0, dims.degree as int, dims.rows as int)
        &&& self.c.len() == dims.degree
    }
}

/// The label that opens field `k`.
pub open spec fn label(k: int) -> Seq<u8> {
    if k == 0 {
        "count = ".spec_bytes()
    } else if k == 1 {
        "m = ".spec_bytes()
    } else if k == 2 {
        "pk = ".spec_bytes()
    } else if k == 3 {
        "sk = ".spec_bytes()
    } else if k == 4 {
        "sig = ".spec_bytes()
    } else if k == 5 {
        "seed = ".spec_bytes()
    } else if k == 6 {
        "A = ".spec_bytes()
    } else if k == 7 {
        "s = ".spec_bytes()
    } else if k == 8 {
        "y = ".spec_bytes()
    } else if k == 9 {
        "w1 = ".spec_bytes()
    } else if k == 10 {
        "w0 = ".spec_bytes()
    } else if k == 11 {
        "t1 = ".spec_bytes()
    } else if k == 12 {
        "t0 = ".spec_bytes()
    } else {
        "c = ".spec_bytes()
    }
}

/// The text that ends field `k`: a newline for the fields of one line, the
/// newline and the start of the next label for the others, and an empty line
/// for the last.
pub open spec fn terminator(k: int) -> Seq<u8> {
    if k < 6 {
        "\n".spec_bytes()
    } else if k == 6 {
        "\ns =".spec_bytes()
    } else if k == 7 {
        "\ny =".spec_bytes()
    } else if k == 8 {
        "\nw1 =".spec_bytes()
    } else if k == 9 {
        "\nw0 =".spec_bytes()
    } else if k == 10 {
        "\nt1 =".spec_bytes()
    } else if k == 11 {
        "\nt0 =".spec_bytes()
    } else if k == 12 {
        "\nc =".spec_bytes()
    } else {
        "\n\n".spec_bytes()
    }
}

/// How much of its terminator is passed over behind field `k`: the newline,
/// and behind the last field the whole empty line. What is left of a
/// terminator is read again as the start of the next label.
pub open spec fn passed_over(k: int) -> int {
    if k == FIELDS - 1 {
        2
    } else {
        1
    }
}

/// Whether field `k` runs up to the label of the field behind it.
pub open spec fn ends_at_label(k: int) -> bool {
    6 <= k < FIELDS - 1
}

/// The error of a field `k` that is never ended: the label behind it is
/// missing where the field runs up to that label, and the text is cut off
/// where it does not.
pub open spec fn unended(k: int) -> ParseError {
    if ends_at_label(k) {
        ParseError::LabelMismatch
    } else {
        ParseError::TruncatedInput
    }
}

/// The texts of some fields with the position behind the last of them, or
/// the reason why they cannot be told apart.
pub type Fields = Result<(Seq<Seq<u8>>, int), ParseError>;

/// `fields` with `head` put in front of its texts.
pub open spec fn prepend_field(head: Seq<u8>, fields: Fields) -> Fields {
    match fields {
        Ok((rest, end)) => Ok((seq![head] + rest, end)),
        Err(e) => Err(e),
    }
}

/// The texts of the fields from field `k` on, where the label of field `k` is
/// expected at position `pos`.
pub open spec fn fields_from(s: Seq<u8>, k: int, pos: int) -> Fields
    decreases FIELDS - k,
{
    if k >= FIELDS {
        Ok((Seq::empty(), pos))
    } else if !occurs_at(s, label(k), pos) {
        Err(ParseError::LabelMismatch)
    } else {
        let start = pos + label(k).len();
        match first_occurrence(s, terminator(k), start) {
            None => Err(unended(k)),
            Some(end) => prepend_field(
                s.subrange(start, end),
                fields_from(s, k + 1, end + passed_over(k)),
            ),
        }
    }
}

/// The record index that `text` writes: one or more decimal digits and
/// nothing else, for a number that fits in 32 bits.
pub open spec fn index_of(text: Seq<u8>) -> Result<u32, ParseError> {
    if text.len() > 0 && digits_end(text, 0) == text.len() && decimal_value(text) <= u32::MAX {
        Ok(decimal_value(text) as u32)
    } else {
        Err(ParseError::IntegerParseError)
    }
}

/// The bytes that the hexadecimal `text` writes, which must be `length` of
/// them.
pub open spec fn sized_bytes_of(text: Seq<u8>, length: int) -> Result<Seq<u8>, ParseError> {
    match hex_decoding(text) {
        Err(e) => Err(e),
        Ok(bytes) => if bytes.len() == length {
            Ok(bytes)
        } else {
            Err(ParseError::DimensionMismatch)
        },
    }
}

/// The matrix that `text` writes as a group of lists.
pub open spec fn matrix_text_of(text: Seq<u8>, degree: int, rows: int, columns: int) -> Result<
    Seq<Seq<Seq<i32>>>,
    ParseError,
> {
    match nested_int_list(text) {
        Err(e) => Err(e),
        Ok(coefficients) => matrix_of(coefficients, degree, rows, columns),
    }
}

/// The vector that `text` writes as a group of lists.
pub open spec fn vector_text_of(text: Seq<u8>, degree: int, count: int) -> Result<
    Seq<Seq<i32>>,
    ParseError,
> {
    match nested_int_list(text) {
        Err(e) => Err(e),
        Ok(coefficients) => vector_of(coefficients, degree, count),
    }
}

/// The polynomial that `text` writes as one list.
pub open spec fn polynomial_text_of(text: Seq<u8>, degree: int) -> Result<Seq<i32>, ParseError> {
    match int_list(text) {
        Err(e) => Err(e),
        Ok(coefficients) => polynomial_of(coefficients, degree),
    }
}

/// The record that the texts of its fourteen fields write. The fields are
/// decoded in their order, and the first that fails gives the error.
pub open spec fn fixture_of(texts: Seq<Seq<u8>>, dims: Dimensions) -> Result<
    FixtureView,
    ParseError,
> {
    let degree = dims.degree as int;
    let rows = dims.rows as int;
    let columns = dims.columns as int;
    let index = index_of(texts[0]);
    let m = hex_decoding(texts[1]);
    let pk = sized_bytes_of(texts[2], dims.digest_len as int);
    let sk = sized_bytes_of(texts[3], dims.digest_len as int);
    let sig = sized_bytes_of(texts[4], dims.digest_len as int);
    let seed = sized_bytes_of(texts[5], dims.seed_len as int);
    let a = matrix_text_of(texts[6], degree, rows, columns);
    let s = vector_text_of(texts[7], degree, columns);
    let y = vector_text_of(texts[8], degree, columns);
    let w1 = vector_text_of(texts[9], degree, rows);
    let w0 = vector_text_of(texts[10], degree, rows);
    let t1 = vector_text_of(texts[11], degree, rows);
    let t0 = vector_text_of(texts[12], degree, rows);
    let c = polynomial_text_of(texts[13], degree);
    if index is Err {
        Err(index->Err_0)
    } else if m is Err {
        Err(m->Err_0)
    } else if pk is Err {
        Err(pk->Err_0)
    } else if sk is Err {
        Err(sk->Err_0)
    } else if sig is Err {
        Err(sig->Err_0)
    } else if seed is Err {
        Err(seed->Err_0)
    } else if a is Err {
        Err(a->Err_0)
    } else if s is Err {
        Err(s->Err_0)
    } else if y is Err {
        Err(y->Err_0)
    } else if w1 is Err {
        Err(w1->Err_0)
    } else if w0 is Err {
        Err(w0->Err_0)
    } else if t1 is Err {
        Err(t1->Err_0)
    } else if t0 is Err {
        Err(t0->Err_0)
    } else if c is Err {
        Err(c->Err_0)
    } else {
        Ok(
            FixtureView {
                index: index->Ok_0,
                m: m->Ok_0,
                pk: pk->Ok_0,
                sk: sk->Ok_0,
                sig: sig->Ok_0,
                seed: seed->Ok_0,
                a: a->Ok_0,
                s: s->Ok_0,
                y: y->Ok_0,
                w1: w1->Ok_0,
                w0: w0->Ok_0,
                t1: t1->Ok_0,
                t0: t0->Ok_0,
                c: c->Ok_0,
            },
        )
    }
}

/// The record that `s` starts with and the number of characters that it
/// takes. The fields are told apart first and decoded after that, so an error
/// in the layout of any field comes before an error in what a field holds.
#[verifier::opaque]
pub open spec fn record_of(s: Seq<u8>, dims: Dimensions) -> Result<(FixtureView, int), ParseError> {
    match fields_from(s, 0, 0) {
        Err(e) => Err(e),
        Ok((texts, end)) => match fixture_of(texts, dims) {
            Err(e) => Err(e),
            Ok(fixture) => Ok((fixture, end)),
        },
    }
}

/// The texts that a list of slices holds.
pub open spec fn texts_of(fields: Seq<&[u8]>) -> Seq<Seq<u8>> {
    Seq::new(fields.len(), |i: int| fields[i]@)
}

fn field_label(k: usize) -> (r: &'static [u8])
    requires
        k < FIELDS,
    ensures
        r@ == label(k as int),
{
    if k == 0 {
        "count = ".as_bytes()
    } else if k == 1 {
        "m = ".as_bytes()
    } else if k == 2 {
        "pk = ".as_bytes()
    } else if k == 3 {
        "sk = ".as_bytes()
    } else if k == 4 {
        "sig = ".as_bytes()
    } else if k == 5 {
        "seed = ".as_bytes()
    } else if k == 6 {
        "A = ".as_bytes()
    } else if k == 7 {
        "s = ".as_bytes()
    } else if k == 8 {
        "y = ".as_bytes()
    } else if k == 9 {
        "w1 = ".as_bytes()
    } else if k == 10 {
        "w0 = ".as_bytes()
    } else if k == 11 {
        "t1 = ".as_bytes()
    } else if k == 12 {
        "t0 = ".as_bytes()
    } else {
        "c = ".as_bytes()
    }
}

fn field_terminator(k: usize) -> (r: &'static [u8])
    requires
        k < FIELDS,
    ensures
        r@ == terminator(k as int),
{
    if k < 6 {
        "\n".as_bytes()
    } else if k == 6 {
        "\ns =".as_bytes()
    } else if k == 7 {
        "\ny =".as_bytes()
    } else if k == 8 {
        "\nw1 =".as_bytes()
    } else if k == 9 {
        "\nw0 =".as_bytes()
    } else if k == 10 {
        "\nt1 =".as_bytes()
    } else if k == 11 {
        "\nt0 =".as_bytes()
    } else if k == 12 {
        "\nc =".as_bytes()
    } else {
        "\n\n".as_bytes()
    }
}

/// No terminator is shorter than what is passed over of it.
pub proof fn lemma_terminator_len(k: int)
    requires
        0 <= k < FIELDS,
    ensures
        passed_over(k) <= terminator(k).len(),
{
    reveal_strlit("\n");
    reveal_strlit("\ns =");
    reveal_strlit("\ny =");
    reveal_strlit("\nw1 =");
    reveal_strlit("\nw0 =");
    reveal_strlit("\nt1 =");
    reveal_strlit("\nt0 =");
    reveal_strlit("\nc =");
    reveal_strlit("\n\n");
    vstd::string::is_ascii_spec_bytes("\n");
    vstd::string::is_ascii_spec_bytes("\ns =");
    vstd::string::is_ascii_spec_bytes("\ny =");
    vstd::string::is_ascii_spec_bytes("\nw1 =");
    vstd::string::is_ascii_spec_bytes("\nw0 =");
    vstd::string::is_ascii_spec_bytes("\nt1 =");
    vstd::string::is_ascii_spec_bytes("\nt0 =");
    vstd::string::is_ascii_spec_bytes("\nc =");
    vstd::string::is_ascii_spec_bytes("\n\n");
}

/// Tells the fourteen fields of the record at the start of `text` apart.
/// Returns their texts and the position behind the record.
pub fn split_record<'a>(text: &'a [u8]) -> (r: Result<(Vec<&'a [u8]>, usize), ParseError>)
    ensures
        match r {
            Ok((fields, end)) => {
                &&& fields_from(text@, 0, 0) == Ok::<(Seq<Seq<u8>>, int), ParseError>(
                    (texts_of(fields@), end as int),
                )
                &&& fields@.len() == FIELDS
                &&& end <= text@.len()
            },
            Err(e) => fields_from(text@, 0, 0) == Err::<(Seq<Seq<u8>>, int), ParseError>(e),
        },
{
    let mut fields: Vec<&'a [u8]> = Vec::new();
    let mut pos: usize = 0;
    let mut k: usize = 0;
    proof {
        assert(texts_of(fields@) =~= Seq::<Seq<u8>>::empty());
        let start = fields_from(text@, 0, 0);
        match start {
            Ok((rest, _)) => {
                assert(Seq::<Seq<u8>>::empty() + rest =~= rest);
            },
            Err(_) => {},
        }
    }
    while k < FIELDS
        invariant
            k <= FIELDS,
            pos <= text.len(),
            fields@.len() == k,
            match fields_from(text@, k as int, pos as int) {
                Ok((rest, end)) => fields_from(text@, 0, 0) == Ok::<
                    (Seq<Seq<u8>>, int),
                    ParseError,
                >((texts_of(fields@) + rest, end)),
                Err(e) => fields_from(text@, 0, 0) == Err::<(Seq<Seq<u8>>, int), ParseError>(e),
            },
        decreases FIELDS - k,
    {
        let name = field_label(k);
        if !starts_with_at(text, pos, name) {
            return Err(ParseError::LabelMismatch);
        }
        let start: usize = pos + name.len();
        let close = field_terminator(k);
        let end: usize = match find(text, start, close) {
            Some(end) => end,
            None => {
                if 6 <= k && k < FIELDS - 1 {
                    return Err(ParseError::LabelMismatch);
                }
                return Err(ParseError::TruncatedInput);
            },
        };
        proof {
            lemma_terminator_len(k as int);
        }
        let field = slice_subrange(text, start, end);
        let next: usize = if k == FIELDS - 1 {
            end + 2
        } else {
            end + 1
        };
        proof {
            let before = texts_of(fields@);
            let after = texts_of(fields@.push(field));
            assert(after =~= before.push(field@));
            match fields_from(text@, k + 1, next as int) {
                Ok((rest, _)) => {
                    assert(before + (seq![field@] + rest) =~= after + rest);
                },
                Err(_) => {},
            }
        }
        fields.push(field);
        pos = next;
        k = k + 1;
    }
    proof {
        assert(texts_of(fields@) + Seq::<Seq<u8>>::empty() =~= texts_of(fields@));
    }
    Ok((fields, pos))
}

/// Decodes a record index: one or more decimal digits and nothing else.
pub fn decode_index(text: &[u8]) -> (r: Result<u32, ParseError>)
    ensures
        r == index_of(text@),
{
    let (end, value) = read_digits(text, 0, 0xffff_ffff);
    proof {
        assert(text@.subrange(0, text@.len() as int) =~= text@);
    }
    if text.len() == 0 || end != text.len() {
        return Err(ParseError::IntegerParseError);
    }
    match value {
        Some(index) => Ok(index as u32),
        None => Err(ParseError::IntegerParseError),
    }
}

/// Decodes a byte field that must hold exactly `length` bytes.
pub fn decode_sized_bytes(text: &[u8], length: usize) -> (r: Result<Vec<u8>, ParseError>)
    ensures
        match r {
            Ok(bytes) => sized_bytes_of(text@, length as int) == Ok::<Seq<u8>, ParseError>(bytes@),
            Err(e) => sized_bytes_of(text@, length as int) == Err::<Seq<u8>, ParseError>(e),
        },
        r matches Ok(bytes) ==> bytes@.len() == length,
{
    let bytes = match decode_hex(text) {
        Ok(bytes) => bytes,
        Err(e) => {
            return Err(e);
        },
    };
    if bytes.len() != length {
        return Err(ParseError::DimensionMismatch);
    }
    Ok(bytes)
}

/// Decodes a matrix field: a group of lists that hold, row after row,
/// `rows * columns` polynomials of `degree` coefficients each.
pub fn decode_matrix(text: &[u8], degree: usize, rows: usize, columns: usize) -> (r: Result<
    Matrix<NttPolynomial>,
    ParseError,
>)
    ensures
        match r {
            Ok(m) => matrix_text_of(text@, degree as int, rows as int, columns as int) == Ok::<
                Seq<Seq<Seq<i32>>>,
                ParseError,
            >(m@),
            Err(e) => matrix_text_of(text@, degree as int, rows as int, columns as int) == Err::<
                Seq<Seq<Seq<i32>>>,
                ParseError,
            >(e),
        },
        r matches Ok(m) ==> {
            &&& nested_int_list(text@) matches Ok(coefficients) && coefficients.len() == rows
                * columns * degree
            &&& m@.len() == rows
            &&& forall|i: int|
                0 <= i < rows ==> is_vector(#[trigger] m@[i], degree as int, columns as int)
        },
{
    let coefficients = match decode_nested_list(text) {
        Ok(coefficients) => coefficients,
        Err(e) => {
            return Err(e);
        },
    };
    match assemble_matrix::<NttPolynomial>(coefficients.as_slice(), degree, rows, columns) {
        Ok(m) => {
            assert forall|i: int| 0 <= i < rows implies is_vector(
                #[trigger] m@[i],
                degree as int,
                columns as int,
            ) by {
                assert forall|j: int| 0 <= j < columns implies (#[trigger] m@[i][j]).len()
                    == degree by {}
            }
            Ok(m)
        },
        Err(e) => Err(e),
    }
}

/// Decodes a vector field: a group of lists that hold `count` polynomials of
/// `degree` coefficients each.
pub fn decode_vector(text: &[u8], degree: usize, count: usize) -> (r: Result<
    Vector<PlainPolynomial>,
    ParseError,
>)
    ensures
        match r {
            Ok(v) => vector_text_of(text@, degree as int, count as int) == Ok::<
                Seq<Seq<i32>>,
                ParseError,
            >(v@),
            Err(e) => vector_text_of(text@, degree as int, count as int) == Err::<
                Seq<Seq<i32>>,
                ParseError,
            >(e),
        },
        r matches Ok(v) ==> is_vector(v@, degree as int, count as int),
{
    let coefficients = match decode_nested_list(text) {
        Ok(coefficients) => coefficients,
        Err(e) => {
            return Err(e);
        },
    };
    assemble_vector::<PlainPolynomial>(coefficients.as_slice(), degree, count)
}

/// Decodes a polynomial field: one list of `degree` coefficients.
pub fn decode_polynomial(text: &[u8], degree: usize) -> (r: Result<PlainPolynomial, ParseError>)
    ensures
        match r {
            Ok(p) => polynomial_text_of(text@, degree as int) == Ok::<Seq<i32>, ParseError>(
                p.coefficients(),
            ),
            Err(e) => polynomial_text_of(text@, degree as int) == Err::<Seq<i32>, ParseError>(e),
        },
        r matches Ok(p) ==> p.coefficients().len() == degree,
{
    let coefficients = match decode_int_list(text) {
        Ok(coefficients) => coefficients,
        Err(e) => {
            return Err(e);
        },
    };
    assemble_polynomial::<PlainPolynomial>(coefficients.as_slice(), degree)
}

impl Fixture {
    /// The first half of the seed: the seed of the expansion matrix.
    pub fn half_seed(&self) -> (half: &[u8])
        ensures
            half@ == self.seed@.subrange(0, self.seed@.len() as int / 2),
    {
        let n: usize = self.seed.len();
        slice_subrange(self.seed.as_slice(), 0, n / 2)
    }
}

/// Decodes the record at the start of `text`. Returns it with the text
/// behind it, where the next record starts.
pub fn parse_fixture<'a>(text: &'a [u8], dims: &Dimensions) -> (r: Result<
    (Fixture, &'a [u8]),
    ParseError,
>)
    ensures
        match r {
            Ok((fixture, rest)) => {
                &&& rest@.len() <= text@.len()
                &&& record_of(text@, *dims) == Ok::<(FixtureView, int), ParseError>(
                    (fixture@, text@.len() - rest@.len()),
                )
                &&& rest@ == text@.subrange(text@.len() - rest@.len(), text@.len() as int)
                &&& fixture@.has_shape(*dims)
            },
            Err(e) => record_of(text@, *dims) == Err::<(FixtureView, int), ParseError>(e),
        },
{
    proof {
        reveal(record_of);
    }
    let (fields, end) = match split_record(text) {
        Ok(found) => found,
        Err(e) => {
            return Err(e);
        },
    };
    let index = match decode_index(fields[0]) {
        Ok(index) => index,
        Err(e) => {
            return Err(e);
        },
    };
    let m = match decode_hex(fields[1]) {
        Ok(m) => m,
        Err(e) => {
            return Err(e);
        },
    };
    let pk = match decode_sized_bytes(fields[2], dims.digest_len) {
        Ok(pk) => pk,
        Err(e) => {
            return Err(e);
        },
    };
    let sk = match decode_sized_bytes(fields[3], dims.digest_len) {
        Ok(sk) => sk,
        Err(e) => {
            return Err(e);
        },
    };
    let sig = match decode_sized_bytes(fields[4], dims.digest_len) {
        Ok(sig) => sig,
        Err(e) => {
            return Err(e);
        },
    };
    let seed = match decode_sized_bytes(fields[5], dims.seed_len) {
        Ok(seed) => seed,
        Err(e) => {
            return Err(e);
        },
    };
    let a = match decode_matrix(fields[6], dims.degree, dims.rows, dims.columns) {
        Ok(a) => a,
        Err(e) => {
            return Err(e);
        },
    };
    let s = match decode_vector(fields[7], dims.degree, dims.columns) {
        Ok(s) => s,
        Err(e) => {
            return Err(e);
        },
    };
    let y = match decode_vector(fields[8], dims.degree, dims.columns) {
        Ok(y) => y,
        Err(e) => {
            return Err(e);
        },
    };
    let w1 = match decode_vector(fields[9], dims.degree, dims.rows) {
        Ok(w1) => w1,
        Err(e) => {
            return Err(e);
        },
    };
    let w0 = match decode_vector(fields[10], dims.degree, dims.rows) {
        Ok(w0) => w0,
        Err(e) => {
            return Err(e);
        },
    };
    let t1 = match decode_vector(fields[11], dims.degree, dims.rows) {
        Ok(t1) => t1,
        Err(e) => {
            return Err(e);
        },
    };
    let t0 = match decode_vector(fields[12], dims.degree, dims.rows) {
        Ok(t0) => t0,
        Err(e) => {
            return Err(e);
        },
    };
    let c = match decode_polynomial(fields[13], dims.degree) {
        Ok(c) => c,
        Err(e) => {
            return Err(e);
        },
    };
    let fixture = Fixture { index, m, pk, sk, sig, seed, a, s, y, w1, w0, t1, t0, c };
    let rest = slice_subrange(text, end, text.len());
    Ok((fixture, rest))
}

/// The position at which the label of field `k` is expected in `s`, if the
/// fields before it are laid out as they should be.
pub open spec fn field_start(s: Seq<u8>, k: int) -> Option<int>
    decreases k,
{
    if k <= 0 {
        Some(0)
    } else {
        match field_start(s, k - 1) {
            None => None,
            Some(pos) => if !occurs_at(s, label(k - 1), pos) {
                None
            } else {
                match first_occurrence(s, terminator(k - 1), pos + label(k - 1).len()) {
                    None => None,
                    Some(end) => Some(end + passed_over(k - 1)),
                }
            },
        }
    }
}

/// Telling the fields of a record apart fails as it fails from any field on
/// that the fields before it lead to, and succeeds if it succeeds from there.
pub proof fn lemma_fields_resume(s: Seq<u8>, k: int)
    requires
        0 <= k <= FIELDS,
        field_start(s, k) is Some,
    ensures
        match fields_from(s, k, field_start(s, k)->Some_0) {
            Err(e) => fields_from(s, 0, 0) == Err::<(Seq<Seq<u8>>, int), ParseError>(e),
            Ok(_) => fields_from(s, 0, 0) is Ok,
        },
    decreases k,
{
    if k > 0 {
        lemma_fields_resume(s, k - 1);
    }
}

/// Whether the label of field `k` is missing from the record that `s` starts
/// with: the fields before it lead to a place where it does not stand, or
/// nothing that could be its start stands anywhere behind the field before it.
pub open spec fn misses_label(s: Seq<u8>, k: int) -> bool {
    ||| field_start(s, k) matches Some(pos) && !occurs_at(s, label(k), pos)
    ||| 0 < k && ends_at_label(k - 1) && (field_start(s, k - 1) matches Some(pos) && occurs_at(
        s,
        label(k - 1),
        pos,
    ) && first_occurrence(s, terminator(k - 1), pos + label(k - 1).len()) is None)
}

/// A record in which the label of one field is missing is rejected with
/// `LabelMismatch`, whatever its other fields hold.
pub proof fn lemma_missing_label(s: Seq<u8>, dims: Dimensions, k: int)
    requires
        0 <= k < FIELDS,
        misses_label(s, k),
    ensures
        record_of(s, dims) == Err::<(FixtureView, int), ParseError>(ParseError::LabelMismatch),
{
    reveal(record_of);
    if field_start(s, k) is Some {
        lemma_fields_resume(s, k);
    } else {
        lemma_fields_resume(s, k - 1);
    }
}

/// The fields of a record lie within the text, and so does its end.
pub proof fn lemma_fields_within(s: Seq<u8>, k: int, pos: int)
    requires
        0 <= k <= FIELDS,
        0 <= pos <= s.len(),
    ensures
        fields_from(s, k, pos) matches Ok((texts, end)) ==> texts.len() == FIELDS - k && pos <= end
            <= s.len(),
    decreases FIELDS - k,
{
    if k < FIELDS && occurs_at(s, label(k), pos) {
        let start = pos + label(k).len();
        crate::scan::lemma_first_occurrence(s, terminator(k), start);
        if let Some(end) = first_occurrence(s, terminator(k), start) {
            lemma_terminator_len(k);
            lemma_fields_within(s, k + 1, end + passed_over(k));
        }
    }
}

/// A matrix field that is accepted holds exactly `rows * columns * degree`
/// coefficients, and its matrix has `rows` rows of `columns` polynomials of
/// `degree` coefficients each. A field that holds another number of
/// coefficients is rejected with `DimensionMismatch`.
pub proof fn lemma_matrix_field(text: Seq<u8>, degree: int, rows: int, columns: int)
    requires
        0 <= rows,
        0 <= columns,
    ensures
        matrix_text_of(text, degree, rows, columns) matches Ok(m) ==> {
            &&& nested_int_list(text) matches Ok(coefficients) && coefficients.len() == rows
                * columns * degree
            &&& m.len() == rows
            &&& forall|r: int| 0 <= r < rows ==> is_vector(#[trigger] m[r], degree, columns)
        },
        nested_int_list(text) matches Ok(coefficients) && coefficients.len() != rows * columns
            * degree ==> matrix_text_of(text, degree, rows, columns) == Err::<
            Seq<Seq<Seq<i32>>>,
            ParseError,
        >(ParseError::DimensionMismatch),
{
    if let Ok(coefficients) = nested_int_list(text) {
        if let Ok(m) = matrix_of(coefficients, degree, rows, columns) {
            crate::shape::lemma_grid_shape(coefficients, degree, rows, columns);
            assert forall|r: int| 0 <= r < rows implies is_vector(
                #[trigger] m[r],
                degree,
                columns,
            ) by {
                assert forall|c: int| 0 <= c < columns implies (#[trigger] m[r][c]).len()
                    == degree by {}
            }
        }
    }
}

/// A vector field that is accepted holds exactly `count` polynomials of
/// `degree` coefficients each. A field that holds another number of
/// coefficients is rejected with `DimensionMismatch`: nothing is cut off and
/// nothing is filled in.
pub proof fn lemma_vector_field(text: Seq<u8>, degree: int, count: int)
    ensures
        vector_text_of(text, degree, count) matches Ok(v) ==> {
            &&& nested_int_list(text) matches Ok(coefficients) && coefficients.len() == count
                * degree
            &&& is_vector(v, degree, count)
        },
        nested_int_list(text) matches Ok(coefficients) && coefficients.len() != count * degree
            ==> vector_text_of(text, degree, count) == Err::<Seq<Seq<i32>>, ParseError>(
            ParseError::DimensionMismatch,
        ),
{
    if let Ok(coefficients) = nested_int_list(text) {
        if vector_of(coefficients, degree, count) is Ok {
            crate::shape::lemma_chunks_shape(coefficients, degree, count);
        }
    }
}

/// Every record that is accepted has the sizes of the dimensions it was read
/// with, and ends within the text.
pub proof fn lemma_record_shape(s: Seq<u8>, dims: Dimensions)
    ensures
        record_of(s, dims) matches Ok((fixture, used)) ==> fixture.has_shape(dims) && 0 <= used
            <= s.len(),
{
    reveal(record_of);
    if let Ok((texts, end)) = fields_from(s, 0, 0) {
        lemma_fields_within(s, 0, 0);
        if fixture_of(texts, dims) is Ok {
            let degree = dims.degree as int;
            let rows = dims.rows as int;
            let columns = dims.columns as int;
            lemma_matrix_field(texts[6], degree, rows, columns);
            lemma_vector_field(texts[7], degree, columns);
            lemma_vector_field(texts[8], degree, columns);
            lemma_vector_field(texts[9], degree, rows);
            lemma_vector_field(texts[10], degree, rows);
            lemma_vector_field(texts[11], degree, rows);
            lemma_vector_field(texts[12], degree, rows);
        }
    }
}

} // verus!
