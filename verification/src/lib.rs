//! Tools and types for parsing and analyzing NBM 1D viewer text files.

pub mod error;
pub mod nbm_data;
pub mod nbm_raw;
pub mod scan;
pub mod text;
pub mod timestamp;

pub use crate::error::Error;
pub use crate::nbm_data::{NBMColumnIter, NBMData};
pub use crate::timestamp::TimeStamp;
