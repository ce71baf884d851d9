//! Shannon entropy of text lines: character frequencies, the record and the
//! selection rules built on them, all stated over integers.

pub mod frequency;
pub mod mode;
pub mod output;
pub mod record;
pub mod value;
