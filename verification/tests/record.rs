use dilithium_harness::error::ParseError;
use dilithium_harness::record::{
    decode_index, decode_matrix, decode_polynomial, decode_sized_bytes, decode_vector,
    parse_fixture, split_record, Dimensions, Fixture,
};
use dilithium_harness::shape::{Matrix, NttPolynomial, PlainPolynomial, Vector};

const RECORD: &str = "count = 7\n\
m = 0a0B0c\n\
pk = 00112233\n\
sk = 44556677\n\
sig = 8899aabb\n\
seed = ccddeeff\n\
A = ([1, 2], [3, 4], [5, 6];\n     [7, 8], [9, 10], [11, 12])\n\
s = ([1, -1],\n     [2, -2],\n     [3, -3])\n\
y = ([4, -4],\n     [5, -5],\n     [6, -6])\n\
w1 = ([10, 11],\n     [12, 13])\n\
w0 = ([-10, -11],\n     [-12, -13])\n\
t1 = ([20, 21],\n     [22, 23])\n\
t0 = ([-20, -21],\n     [-22, -23])\n\
c = [1, -1]\n\
\n";

fn small() -> Dimensions {
    Dimensions { degree: 2, rows: 2, columns: 3, digest_len: 4, seed_len: 4 }
}

fn plain(rows: &[[i32; 2]]) -> Vector<PlainPolynomial> {
    Vector {
        polynomials: rows.iter().map(|r| PlainPolynomial { coefficients: r.to_vec() }).collect(),
    }
}

fn ntt(rows: &[[i32; 2]]) -> Vector<NttPolynomial> {
    Vector {
        polynomials: rows.iter().map(|r| NttPolynomial { coefficients: r.to_vec() }).collect(),
    }
}

fn expected() -> Fixture {
    Fixture {
        index: 7,
        m: vec![0x0a, 0x0b, 0x0c],
        pk: vec![0x00, 0x11, 0x22, 0x33],
        sk: vec![0x44, 0x55, 0x66, 0x77],
        sig: vec![0x88, 0x99, 0xaa, 0xbb],
        seed: vec![0xcc, 0xdd, 0xee, 0xff],
        a: Matrix { rows: vec![ntt(&[[1, 2], [3, 4], [5, 6]]), ntt(&[[7, 8], [9, 10], [11, 12]])] },
        s: plain(&[[1, -1], [2, -2], [3, -3]]),
        y: plain(&[[4, -4], [5, -5], [6, -6]]),
        w1: plain(&[[10, 11], [12, 13]]),
        w0: plain(&[[-10, -11], [-12, -13]]),
        t1: plain(&[[20, 21], [22, 23]]),
        t0: plain(&[[-20, -21], [-22, -23]]),
        c: PlainPolynomial { coefficients: vec![1, -1] },
    }
}

fn error_of(text: &str) -> ParseError {
    parse_fixture(text.as_bytes(), &small()).unwrap_err()
}

#[test]
fn parse_fixture_reads_every_field() {
    let (fixture, rest) = parse_fixture(RECORD.as_bytes(), &small()).unwrap();
    assert_eq!(fixture, expected());
    assert!(rest.is_empty());
}

#[test]
fn parse_fixture_hands_back_the_text_behind_the_record() {
    let text: String = format!("{RECORD}count = 8\nand so on");
    let (fixture, rest) = parse_fixture(text.as_bytes(), &small()).unwrap();
    assert_eq!(fixture, expected());
    assert_eq!(rest, &b"count = 8\nand so on"[..]);
}

#[test]
fn half_seed_is_the_first_half() {
    let fixture: Fixture = expected();
    assert_eq!(fixture.half_seed(), &[0xcc, 0xdd][..]);
    let odd: Fixture = Fixture { seed: vec![1, 2, 3, 4, 5], ..expected() };
    assert_eq!(odd.half_seed(), &[1, 2][..]);
    let none: Fixture = Fixture { seed: Vec::new(), ..expected() };
    assert!(none.half_seed().is_empty());
}

#[test]
fn split_record_gives_the_fourteen_texts() {
    let (fields, end) = split_record(RECORD.as_bytes()).unwrap();
    assert_eq!(end, RECORD.len());
    assert_eq!(fields.len(), 14);
    assert_eq!(fields[0], &b"7"[..]);
    assert_eq!(fields[1], &b"0a0B0c"[..]);
    assert_eq!(fields[5], &b"ccddeeff"[..]);
    assert_eq!(fields[6], &b"([1, 2], [3, 4], [5, 6];\n     [7, 8], [9, 10], [11, 12])"[..]);
    assert_eq!(fields[7], &b"([1, -1],\n     [2, -2],\n     [3, -3])"[..]);
    assert_eq!(fields[12], &b"([-20, -21],\n     [-22, -23])"[..]);
    assert_eq!(fields[13], &b"[1, -1]"[..]);
}

#[test]
fn parse_fixture_misses_a_label() {
    for label in [
        "count = ", "m = ", "pk = ", "sk = ", "sig = ", "seed = ", "A = ", "s = ", "y = ", "w1 = ",
        "w0 = ", "t1 = ", "t0 = ", "c = ",
    ] {
        let line_start: String = if label == "count = " {
            String::from(label)
        } else {
            format!("\n{label}")
        };
        let broken: String = line_start.replace(" = ", " =_");
        let text: String = RECORD.replacen(&line_start, &broken, 1);
        assert_ne!(text, RECORD);
        assert_eq!(error_of(&text), ParseError::LabelMismatch, "label {label:?}");
    }
}

#[test]
fn parse_fixture_misses_a_whole_field() {
    let text: String = RECORD.replacen("sk = 44556677\n", "", 1);
    assert_eq!(error_of(&text), ParseError::LabelMismatch);
    assert_eq!(error_of("m = 00\n"), ParseError::LabelMismatch);
    assert_eq!(error_of(""), ParseError::LabelMismatch);
}

#[test]
fn parse_fixture_ends_too_early() {
    let without_empty_line: &str = &RECORD[..RECORD.len() - 1];
    assert_eq!(error_of(without_empty_line), ParseError::TruncatedInput);
    assert_eq!(error_of("count = 7"), ParseError::TruncatedInput);
    assert_eq!(error_of("count = 7\nm = 00"), ParseError::TruncatedInput);
    let cut: usize = RECORD.find("sig = ").unwrap() + 8;
    assert_eq!(error_of(&RECORD[..cut]), ParseError::TruncatedInput);
    let cut: usize = RECORD.find("c = ").unwrap() + 6;
    assert_eq!(error_of(&RECORD[..cut]), ParseError::TruncatedInput);
}

#[test]
fn parse_fixture_never_comes_to_the_next_label() {
    let cut: usize = RECORD.find("y = ").unwrap() + 10;
    assert_eq!(error_of(&RECORD[..cut]), ParseError::LabelMismatch);
    let cut: usize = RECORD.find("A = ").unwrap() + 4;
    assert_eq!(error_of(&RECORD[..cut]), ParseError::LabelMismatch);
    assert_eq!(error_of(&RECORD.replacen("\nw0 = ", "\n", 1)), ParseError::LabelMismatch);
    assert_eq!(error_of(&RECORD.replacen("\nc = ", "\nC = ", 1)), ParseError::LabelMismatch);
}

#[test]
fn parse_fixture_rejects_bad_hex() {
    assert_eq!(error_of(&RECORD.replacen("0a0B0c", "0a0g0c", 1)), ParseError::HexDecodeError);
    assert_eq!(error_of(&RECORD.replacen("0a0B0c", "0a0", 1)), ParseError::HexDecodeError);
    assert_eq!(error_of(&RECORD.replacen("8899aabb", "8899aabb ", 1)), ParseError::HexDecodeError);
}

#[test]
fn parse_fixture_rejects_bad_numbers() {
    assert_eq!(error_of(&RECORD.replacen("count = 7", "count = seven", 1)), ParseError::IntegerParseError);
    assert_eq!(error_of(&RECORD.replacen("count = 7", "count = ", 1)), ParseError::IntegerParseError);
    assert_eq!(error_of(&RECORD.replacen("count = 7", "count = -7", 1)), ParseError::IntegerParseError);
    assert_eq!(error_of(&RECORD.replacen("count = 7", "count = 7 ", 1)), ParseError::IntegerParseError);
    assert_eq!(
        error_of(&RECORD.replacen("count = 7", "count = 4294967296", 1)),
        ParseError::IntegerParseError
    );
    assert_eq!(error_of(&RECORD.replacen("[9, 10]", "[9, ten]", 1)), ParseError::IntegerParseError);
    assert_eq!(error_of(&RECORD.replacen("c = [1, -1]", "c = [1, -]", 1)), ParseError::IntegerParseError);
}

#[test]
fn parse_fixture_reports_an_unclosed_list() {
    assert_eq!(error_of(&RECORD.replacen("c = [1, -1]", "c = [1, -1", 1)), ParseError::TruncatedInput);
    assert_eq!(error_of(&RECORD.replacen("[22, 23])", "[22, 23]", 1)), ParseError::TruncatedInput);
}

#[test]
fn parse_fixture_rejects_wrong_sizes() {
    assert_eq!(error_of(&RECORD.replacen("00112233", "001122", 1)), ParseError::DimensionMismatch);
    assert_eq!(error_of(&RECORD.replacen("44556677", "4455667788", 1)), ParseError::DimensionMismatch);
    assert_eq!(error_of(&RECORD.replacen("8899aabb", "", 1)), ParseError::DimensionMismatch);
    assert_eq!(error_of(&RECORD.replacen("ccddeeff", "ccddeeff00", 1)), ParseError::DimensionMismatch);
    assert_eq!(error_of(&RECORD.replacen(", [11, 12]", "", 1)), ParseError::DimensionMismatch);
    assert_eq!(error_of(&RECORD.replacen(",\n     [3, -3]", "", 1)), ParseError::DimensionMismatch);
    assert_eq!(
        error_of(&RECORD.replacen("[12, 13]", "[12, 13],\n     [14, 15]", 1)),
        ParseError::DimensionMismatch
    );
    assert_eq!(error_of(&RECORD.replacen("[-22, -23]", "[-22]", 1)), ParseError::DimensionMismatch);
    assert_eq!(error_of(&RECORD.replacen("c = [1, -1]", "c = [1, -1, 0]", 1)), ParseError::DimensionMismatch);
    assert_eq!(error_of(&RECORD.replacen("c = [1, -1]", "c = []", 1)), ParseError::DimensionMismatch);
}

#[test]
fn parse_fixture_with_other_dimensions() {
    let wider: Dimensions = Dimensions { degree: 3, rows: 2, columns: 2, digest_len: 4, seed_len: 4 };
    assert_eq!(
        parse_fixture(RECORD.as_bytes(), &wider).unwrap_err(),
        ParseError::DimensionMismatch
    );
    let no_degree: Dimensions = Dimensions { degree: 0, ..small() };
    assert_eq!(
        parse_fixture(RECORD.as_bytes(), &no_degree).unwrap_err(),
        ParseError::DimensionMismatch
    );
}

#[test]
fn parse_fixture_checks_the_layout_before_the_fields() {
    let text: String = RECORD.replacen("count = 7", "count = x", 1).replacen("\nc = ", "\nd = ", 1);
    assert_eq!(error_of(&text), ParseError::LabelMismatch);
    let text: String = RECORD.replacen("count = 7", "count = x", 1);
    assert_eq!(error_of(&text[..text.len() - 1]), ParseError::TruncatedInput);
    let text: String = RECORD.replacen("0a0B0c", "zz", 1).replacen("[9, 10]", "[9, ten]", 1);
    assert_eq!(error_of(&text), ParseError::HexDecodeError);
    let text: String = RECORD.replacen("00112233", "0011", 1).replacen("44556677", "4z", 1);
    assert_eq!(error_of(&text), ParseError::DimensionMismatch);
}

#[test]
fn decode_index_reads_decimal_digits() {
    assert_eq!(decode_index(b"0"), Ok(0));
    assert_eq!(decode_index(b"24"), Ok(24));
    assert_eq!(decode_index(b"0024"), Ok(24));
    assert_eq!(decode_index(b"4294967295"), Ok(u32::MAX));
    assert_eq!(decode_index(b"4294967296"), Err(ParseError::IntegerParseError));
    assert_eq!(decode_index(b""), Err(ParseError::IntegerParseError));
    assert_eq!(decode_index(b"+1"), Err(ParseError::IntegerParseError));
    assert_eq!(decode_index(b"1 "), Err(ParseError::IntegerParseError));
    assert_eq!(decode_index(b"0x10"), Err(ParseError::IntegerParseError));
}

#[test]
fn decode_sized_bytes_wants_the_exact_length() {
    assert_eq!(decode_sized_bytes(b"0102", 2), Ok(vec![1, 2]));
    assert_eq!(decode_sized_bytes(b"0102", 1), Err(ParseError::DimensionMismatch));
    assert_eq!(decode_sized_bytes(b"0102", 3), Err(ParseError::DimensionMismatch));
    assert_eq!(decode_sized_bytes(b"010", 1), Err(ParseError::HexDecodeError));
    assert_eq!(decode_sized_bytes(b"", 0), Ok(Vec::new()));
}

#[test]
fn decode_matrix_counts_rows_times_columns_times_degree() {
    let text: &[u8] = b"([1, 2], [3, 4], [5, 6];\n     [7, 8], [9, 10], [11, 12])";
    let m: Matrix<NttPolynomial> = decode_matrix(text, 2, 2, 3).unwrap();
    assert_eq!(m.rows.len(), 2);
    assert_eq!(m.rows[0], ntt(&[[1, 2], [3, 4], [5, 6]]));
    assert_eq!(m.rows[1], ntt(&[[7, 8], [9, 10], [11, 12]]));
    let n: Matrix<NttPolynomial> = decode_matrix(text, 2, 3, 2).unwrap();
    assert_eq!(n.rows.len(), 3);
    assert_eq!(n.rows[2], ntt(&[[9, 10], [11, 12]]));
    assert_eq!(decode_matrix(text, 2, 2, 2).unwrap_err(), ParseError::DimensionMismatch);
    assert_eq!(decode_matrix(text, 2, 2, 4).unwrap_err(), ParseError::DimensionMismatch);
    assert_eq!(decode_matrix(text, 5, 2, 3).unwrap_err(), ParseError::DimensionMismatch);
}

#[test]
fn decode_vector_counts_its_polynomials() {
    let text: &[u8] = b"([1, -1],\n     [2, -2],\n     [3, -3])";
    assert_eq!(decode_vector(text, 2, 3), Ok(plain(&[[1, -1], [2, -2], [3, -3]])));
    assert_eq!(decode_vector(text, 2, 2), Err(ParseError::DimensionMismatch));
    assert_eq!(decode_vector(text, 2, 4), Err(ParseError::DimensionMismatch));
    assert_eq!(decode_vector(text, 4, 1), Err(ParseError::DimensionMismatch));
    assert_eq!(decode_vector(b"([1, -1],\n     [2, -2]", 2, 2), Err(ParseError::TruncatedInput));
}

#[test]
fn decode_polynomial_reads_one_list() {
    assert_eq!(
        decode_polynomial(b"[0, 1, 0, -1]", 4),
        Ok(PlainPolynomial { coefficients: vec![0, 1, 0, -1] })
    );
    assert_eq!(decode_polynomial(b"[0, 1, 0]", 4), Err(ParseError::DimensionMismatch));
    assert_eq!(decode_polynomial(b"([0, 1, 0, -1])", 4), Err(ParseError::IntegerParseError));
}
