//! Decoding of HC1 health certificates: the text envelope, Base45, zlib,
//! COSE_Sign1 and the CBOR claim tree, printed as indented lines.

pub mod b45;
pub mod cbor;
pub mod pipeline;
pub mod printer;
