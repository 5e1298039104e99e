//! Known-answer-test vectors of the Dilithium signature scheme, decoded from
//! their text file into typed fixtures, together with the bookkeeping of the
//! counter-mode keystream and of the signing round trip that such vectors are
//! replayed with.

pub mod ascii;
pub mod catalog;
pub mod decimal;
pub mod error;
pub mod harness;
pub mod hex;
pub mod keystream;
pub mod lists;
pub mod record;
pub mod scan;
pub mod shape;

pub use catalog::{Catalog, Loader, Progress};
pub use error::ParseError;
pub use harness::{compute_hardware, compute_software, Backend, SignatureCore};
pub use hex::{decode_hex, encode_hex};
pub use keystream::{BlockCipher, HardwareAesCounter};
pub use lists::{decode_int_list, decode_nested_list};
pub use record::{parse_fixture, Dimensions, Fixture};
pub use shape::{
    assemble_matrix, assemble_polynomial, assemble_vector, Matrix, NttPolynomial, PlainPolynomial,
    Polynomial, Vector,
};
