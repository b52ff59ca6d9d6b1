//! Points of the twisted Edwards curve behind Ed25519 and X25519, their
//! coordinate representations and their canonical 32-byte encoding.

pub mod field;
pub mod point;
