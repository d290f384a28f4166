//! Encodings of data as lambda terms.

pub mod boolean;
pub mod church;
