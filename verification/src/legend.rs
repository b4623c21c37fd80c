//! The semantic-token legend: the index of each token type in the legend the
//! language server advertises.

use vstd::prelude::*;

verus! {

pub const TYPE: u32 = 0;
pub const ENUM: u32 = 1;
pub const STRUCT: u32 = 2;
pub const PARAMETER: u32 = 3;
pub const VARIABLE: u32 = 4;
pub const PROPERTY: u32 = 5;
pub const ENUM_MEMBER: u32 = 6;
pub const FUNCTION: u32 = 7;
pub const METHOD: u32 = 8;
pub const KEYWORD: u32 = 9;
pub const COMMENT: u32 = 10;
pub const STRING: u32 = 11;
pub const NUMBER: u32 = 12;
pub const OPERATOR: u32 = 13;
pub const FALLBACK: u32 = 14;

} // verus!
