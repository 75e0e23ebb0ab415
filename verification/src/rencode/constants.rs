use vstd::prelude::*;

verus! {

pub const CHR_LIST: u8 = 59;
pub const CHR_DICT: u8 = 60;
pub const CHR_INT: u8 = 61;
pub const CHR_INT1: u8 = 62;
pub const CHR_INT2: u8 = 63;
pub const CHR_INT4: u8 = 64;
pub const CHR_INT8: u8 = 65;
pub const CHR_FLOAT32: u8 = 66;
pub const CHR_FLOAT64: u8 = 44;
pub const CHR_TRUE: u8 = 67;
pub const CHR_FALSE: u8 = 68;
pub const CHR_NONE: u8 = 69;
pub const CHR_TERM: u8 = 127;

pub const DICT_FIXED_START: u8 = 102;
pub const DICT_FIXED_COUNT: u8 = 25;

pub const INT_POS_FIXED_START: u8 = 0;
pub const INT_POS_FIXED_COUNT: u8 = 44;

pub const INT_NEG_FIXED_START: u8 = 70;
pub const INT_NEG_FIXED_COUNT: u8 = 32;

pub const STR_FIXED_START: u8 = 128;
pub const STR_FIXED_COUNT: u8 = 64;

pub const LIST_FIXED_START: u8 = STR_FIXED_START + STR_FIXED_COUNT;
pub const LIST_FIXED_COUNT: u8 = 64;

} // verus!
