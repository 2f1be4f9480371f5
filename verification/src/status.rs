//! Status codes of the Sixel encoding stages.
//!
//! A status is a plain integer. `OK` is the only value that stands for
//! success; every failure carries the `ERR` bit.

use vstd::prelude::*;

verus! {

/// Describes why a stage returned.
pub type Status = i32;

/// Succeeded.
pub const OK: Status = 0x0000;

/// Failed.
pub const ERR: Status = 0x1000;

pub const RUNTIME_ERROR: Status = 0x1100;

pub const LOGIC_ERROR: Status = 0x1200;

pub const FEATURE_ERROR: Status = 0x1300;

/// An allocation failed.
pub const BAD_ALLOCATION: Status = 0x1101;

/// An argument is outside the range that the stage accepts.
pub const BAD_ARGUMENT: Status = 0x1102;

/// The input does not describe an image.
pub const BAD_INPUT: Status = 0x1103;

/// Feature not implemented.
pub const NOT_IMPLEMENTED: Status = 0x1301;

} // verus!
