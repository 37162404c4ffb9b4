//! The option bits of a [`crate::Config`].
use vstd::prelude::*;

verus! {

/// No option set.
pub const DEFAULT: u8 = 0;

/// Match regardless of letter case (`-u`, `--upper`).
pub const CHECK_UPPER: u8 = 1 << 0;

/// Number the lines that are shown (`-l`, `--line`).
pub const SHOW_LINE: u8 = 1 << 1;

/// Show the whole text with the matches marked (`-a`, `--all`).
pub const SHOW_ALL: u8 = 1 << 2;

} // verus!
