//! What the constraints, the tag and the formats are for, said without the way they are computed.

pub mod batch_fri;
pub mod containers;
pub mod digests;
pub mod errors;
pub mod exponentiation;
pub mod exports;
pub mod field;
pub mod hexadecimal;
pub mod interactions;
pub mod lanes;
pub mod logs;
pub mod orders;
pub mod poseidon2;
pub mod small_chips;
pub mod streams;
pub mod walks;
