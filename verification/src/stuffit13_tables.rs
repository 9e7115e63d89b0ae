use vstd::prelude::*;
use crate::prefix_code::{canonical, lengths_ok, reversed, symbols_below, CodeWord, PrefixCode};

verus! {

// Word lengths, symbol by symbol, of the five built-in code sets, and the words
// of the code in which other word lengths are spelled.

pub const FIRST_CODE_LENGTHS_1: [u32; 321] = [
    4, 5, 7, 8, 8, 9, 9, 9, 9, 7, 9, 9, 9, 8, 9, 9,
    9, 9, 9, 9, 9, 9, 9, 10, 9, 9, 10, 10, 9, 10, 9, 9,
    5, 9, 9, 9, 9, 10, 9, 9, 9, 9, 9, 9, 9, 9, 7, 9,
    9, 8, 9, 9, 9, 9, 9, 9, 9, 9, 9, 9, 9, 9, 9, 9,
    9, 8, 9, 9, 8, 8, 9, 9, 9, 9, 9, 9, 9, 7, 8, 9,
    7, 9, 9, 7, 7, 9, 9, 9, 9, 10, 9, 10, 10, 10, 9, 9,
    9, 5, 9, 8, 7, 5, 9, 8, 8, 7, 9, 9, 8, 8, 5, 5,
    7, 10, 5, 8, 5, 8, 9, 9, 9, 9, 9, 10, 9, 9, 10, 9,
    9, 10, 10, 10, 10, 10, 10, 10, 9, 10, 10, 10, 10, 10, 10, 10,
    9, 10, 10, 10, 10, 10, 10, 10, 10, 10, 10, 10, 10, 10, 10, 10,
    9, 10, 10, 10, 10, 10, 10, 10, 9, 9, 10, 10, 10, 10, 10, 10,
    10, 10, 10, 10, 10, 10, 10, 10, 10, 10, 9, 10, 10, 10, 10, 10,
    9, 10, 10, 10, 10, 10, 10, 10, 10, 10, 10, 10, 10, 10, 10, 10,
    10, 10, 10, 10, 10, 10, 10, 10, 10, 10, 10, 10, 10, 10, 10, 10,
    9, 10, 10, 10, 10, 10, 10, 10, 10, 10, 10, 10, 9, 9, 10, 10,
    9, 10, 10, 10, 10, 10, 10, 10, 9, 10, 10, 10, 9, 10, 9, 5,
    6, 5, 5, 8, 9, 9, 9, 9, 9, 9, 10, 10, 10, 9, 10, 10,
    10, 10, 10, 10, 10, 10, 10, 10, 10, 10, 10, 10, 10, 10, 10, 10,
    10, 10, 10, 9, 10, 9, 9, 9, 10, 9, 10, 9, 10, 9, 10, 9,
    10, 10, 10, 9, 10, 9, 10, 10, 9, 9, 9, 6, 9, 9, 10, 9,
    5,
];

pub const FIRST_CODE_LENGTHS_2: [u32; 321] = [
    4, 7, 7, 8, 7, 8, 8, 8, 8, 7, 8, 7, 8, 7, 9, 8,
    8, 8, 9, 9, 9, 9, 10, 10, 9, 10, 10, 10, 10, 10, 9, 9,
    5, 9, 8, 9, 9, 11, 10, 9, 8, 9, 9, 9, 8, 9, 7, 8,
    8, 8, 9, 9, 9, 9, 9, 10, 9, 9, 9, 10, 9, 9, 10, 9,
    8, 8, 7, 7, 7, 8, 8, 9, 8, 8, 9, 9, 8, 8, 7, 8,
    7, 10, 8, 7, 7, 9, 9, 9, 9, 10, 10, 11, 11, 11, 10, 9,
    8, 6, 8, 7, 7, 5, 7, 7, 7, 6, 9, 8, 6, 7, 6, 6,
    7, 9, 6, 6, 6, 7, 8, 8, 8, 8, 9, 10, 9, 10, 9, 9,
    8, 9, 10, 10, 9, 10, 10, 9, 9, 10, 10, 10, 10, 10, 10, 10,
    9, 10, 10, 11, 10, 10, 10, 10, 10, 10, 10, 11, 10, 11, 10, 10,
    9, 11, 10, 10, 10, 10, 10, 10, 9, 9, 10, 11, 10, 11, 10, 11,
    10, 12, 10, 11, 10, 12, 11, 12, 10, 12, 10, 11, 10, 11, 11, 11,
    9, 10, 11, 11, 11, 12, 12, 10, 10, 10, 11, 11, 10, 11, 10, 10,
    9, 11, 10, 11, 10, 11, 11, 11, 10, 11, 11, 12, 11, 11, 10, 10,
    10, 11, 10, 10, 11, 11, 12, 10, 10, 11, 11, 12, 11, 11, 10, 11,
    9, 12, 10, 11, 11, 11, 10, 11, 10, 11, 10, 11, 9, 10, 9, 7,
    3, 5, 6, 6, 7, 7, 8, 8, 8, 9, 9, 9, 11, 10, 10, 10,
    12, 13, 11, 12, 12, 11, 13, 12, 12, 11, 12, 12, 13, 12, 14, 13,
    14, 13, 15, 13, 14, 15, 15, 14, 13, 15, 15, 14, 15, 14, 15, 15,
    14, 15, 13, 13, 14, 15, 15, 14, 14, 16, 16, 15, 15, 15, 12, 15,
    10,
];

pub const FIRST_CODE_LENGTHS_3: [u32; 321] = [
    6, 6, 6, 6, 6, 9, 8, 8, 4, 9, 8, 9, 8, 9, 9, 9,
    8, 9, 9, 10, 8, 10, 10, 10, 9, 10, 10, 10, 9, 10, 10, 9,
    9, 9, 8, 10, 9, 10, 9, 10, 9, 10, 9, 10, 9, 9, 8, 9,
    8, 9, 9, 9, 10, 10, 10, 10, 9, 9, 9, 10, 9, 10, 9, 9,
    7, 8, 8, 9, 8, 9, 9, 9, 8, 9, 9, 10, 9, 9, 8, 9,
    8, 9, 8, 8, 8, 9, 9, 9, 9, 9, 10, 10, 10, 10, 10, 9,
    8, 8, 9, 8, 9, 7, 8, 8, 9, 8, 10, 10, 8, 9, 8, 8,
    8, 10, 8, 8, 8, 8, 9, 9, 9, 9, 10, 10, 10, 10, 10, 9,
    7, 9, 9, 10, 10, 10, 10, 10, 9, 10, 10, 10, 10, 10, 10, 9,
    9, 10, 10, 10, 10, 10, 10, 10, 10, 9, 10, 10, 10, 10, 10, 10,
    9, 10, 10, 10, 10, 10, 10, 10, 9, 9, 9, 10, 10, 10, 10, 10,
    10, 10, 10, 10, 10, 10, 10, 10, 10, 10, 9, 10, 10, 10, 10, 9,
    8, 9, 10, 10, 10, 10, 10, 10, 10, 10, 10, 10, 9, 10, 10, 10,
    9, 10, 10, 10, 10, 10, 10, 10, 10, 10, 10, 10, 10, 10, 10, 9,
    9, 10, 10, 10, 10, 10, 10, 9, 10, 10, 10, 10, 10, 10, 9, 9,
    9, 10, 10, 10, 10, 10, 10, 9, 9, 10, 9, 9, 8, 9, 8, 9,
    4, 6, 6, 6, 7, 8, 8, 9, 9, 10, 10, 10, 9, 10, 10, 10,
    10, 10, 10, 10, 10, 10, 10, 10, 10, 10, 10, 10, 10, 10, 7, 10,
    10, 10, 7, 10, 10, 7, 7, 7, 7, 7, 6, 7, 10, 7, 7, 10,
    7, 7, 7, 6, 7, 6, 6, 7, 7, 6, 6, 9, 6, 9, 10, 6,
    10,
];

pub const FIRST_CODE_LENGTHS_4: [u32; 321] = [
    2, 6, 6, 7, 7, 8, 7, 8, 7, 8, 8, 9, 8, 9, 9, 9,
    8, 8, 9, 9, 9, 10, 10, 9, 8, 10, 9, 10, 9, 10, 9, 9,
    6, 9, 8, 9, 9, 10, 9, 9, 9, 10, 9, 9, 9, 9, 8, 8,
    8, 8, 8, 9, 9, 9, 9, 9, 9, 9, 9, 9, 9, 10, 10, 9,
    7, 7, 8, 8, 8, 8, 9, 9, 7, 8, 9, 10, 8, 8, 7, 8,
    8, 10, 8, 8, 8, 9, 8, 9, 9, 10, 9, 11, 10, 11, 9, 9,
    8, 7, 9, 8, 8, 6, 8, 8, 8, 7, 10, 9, 7, 8, 7, 7,
    8, 10, 7, 7, 7, 8, 9, 9, 9, 9, 10, 11, 9, 11, 10, 9,
    7, 9, 10, 10, 10, 11, 11, 10, 10, 11, 10, 10, 10, 11, 11, 10,
    9, 10, 10, 11, 10, 11, 10, 11, 10, 10, 10, 11, 10, 11, 10, 10,
    9, 10, 10, 11, 10, 10, 10, 10, 9, 10, 10, 10, 10, 11, 10, 11,
    10, 11, 10, 11, 11, 11, 10, 12, 10, 11, 10, 11, 10, 11, 11, 10,
    8, 10, 10, 11, 10, 11, 11, 11, 10, 11, 10, 11, 10, 11, 11, 11,
    9, 10, 11, 11, 10, 11, 11, 11, 10, 11, 11, 11, 10, 10, 10, 10,
    10, 11, 10, 10, 11, 11, 10, 10, 9, 11, 10, 10, 11, 11, 10, 10,
    10, 11, 10, 10, 10, 10, 10, 10, 9, 11, 10, 10, 8, 10, 8, 6,
    5, 6, 6, 7, 7, 8, 8, 8, 9, 10, 11, 10, 10, 11, 11, 12,
    12, 10, 11, 12, 12, 12, 12, 13, 13, 13, 13, 13, 12, 13, 13, 15,
    14, 12, 14, 15, 16, 12, 12, 13, 15, 14, 16, 15, 17, 18, 15, 17,
    16, 15, 15, 15, 15, 13, 13, 10, 14, 12, 13, 17, 17, 18, 10, 17,
    4,
];

pub const FIRST_CODE_LENGTHS_5: [u32; 321] = [
    7, 9, 9, 9, 9, 9, 9, 9, 9, 8, 9, 9, 9, 7, 9, 9,
    9, 9, 9, 9, 9, 9, 9, 10, 9, 10, 9, 10, 9, 10, 9, 9,
    5, 9, 7, 9, 9, 9, 9, 9, 7, 7, 7, 9, 7, 7, 8, 7,
    8, 8, 7, 7, 9, 9, 9, 9, 7, 7, 7, 9, 9, 9, 9, 9,
    9, 7, 9, 7, 7, 7, 7, 9, 9, 7, 9, 9, 7, 7, 7, 7,
    7, 9, 7, 8, 7, 9, 9, 9, 9, 9, 9, 9, 9, 9, 9, 9,
    9, 7, 8, 7, 7, 7, 8, 8, 6, 7, 9, 7, 7, 8, 7, 5,
    6, 9, 5, 7, 5, 6, 7, 7, 9, 8, 9, 9, 9, 9, 9, 9,
    9, 9, 10, 9, 10, 10, 10, 9, 9, 10, 10, 10, 10, 10, 10, 10,
    9, 10, 10, 10, 10, 10, 10, 10, 10, 10, 10, 10, 9, 10, 10, 10,
    9, 10, 10, 10, 9, 9, 10, 9, 9, 9, 9, 10, 10, 10, 10, 10,
    10, 10, 10, 10, 10, 10, 9, 10, 10, 10, 10, 10, 10, 10, 10, 10,
    9, 10, 10, 10, 9, 10, 10, 10, 9, 9, 9, 10, 10, 10, 10, 10,
    9, 10, 9, 10, 10, 9, 10, 10, 9, 10, 10, 10, 10, 10, 10, 10,
    9, 10, 10, 10, 10, 10, 10, 10, 10, 10, 10, 10, 10, 10, 10, 10,
    9, 10, 10, 10, 10, 10, 10, 10, 9, 10, 9, 10, 9, 10, 10, 9,
    5, 6, 8, 8, 7, 7, 7, 9, 9, 9, 9, 9, 9, 9, 9, 9,
    9, 9, 9, 9, 9, 9, 9, 9, 9, 9, 9, 9, 9, 9, 9, 9,
    9, 10, 10, 10, 10, 10, 10, 10, 10, 10, 10, 10, 10, 10, 10, 10,
    10, 10, 10, 10, 10, 10, 10, 10, 9, 10, 10, 5, 10, 8, 9, 8,
    9,
];

pub const SECOND_CODE_LENGTHS_1: [u32; 321] = [
    4, 5, 6, 6, 7, 7, 6, 7, 7, 7, 6, 8, 7, 8, 8, 8,
    8, 9, 6, 9, 8, 9, 8, 9, 9, 9, 8, 10, 5, 9, 7, 9,
    6, 9, 8, 10, 9, 10, 8, 8, 9, 9, 7, 9, 8, 9, 8, 9,
    8, 8, 6, 9, 9, 8, 8, 9, 9, 10, 8, 9, 9, 10, 8, 10,
    8, 8, 8, 8, 8, 9, 7, 10, 6, 9, 9, 11, 7, 8, 8, 9,
    8, 10, 7, 8, 6, 9, 10, 9, 9, 10, 8, 11, 9, 11, 9, 10,
    9, 8, 9, 8, 8, 8, 8, 10, 9, 9, 10, 10, 8, 9, 8, 8,
    8, 11, 9, 8, 8, 9, 9, 10, 8, 11, 10, 10, 8, 10, 9, 10,
    8, 9, 9, 11, 9, 11, 9, 10, 10, 11, 10, 12, 9, 12, 10, 11,
    10, 11, 9, 10, 10, 11, 10, 11, 10, 11, 10, 11, 10, 10, 10, 9,
    9, 9, 8, 7, 6, 8, 11, 11, 9, 12, 10, 12, 9, 11, 11, 11,
    10, 12, 11, 11, 10, 12, 10, 11, 10, 10, 10, 11, 10, 11, 11, 11,
    9, 12, 10, 12, 11, 12, 10, 11, 10, 12, 11, 12, 11, 12, 11, 12,
    10, 12, 11, 12, 11, 11, 10, 12, 10, 11, 10, 12, 10, 12, 10, 12,
    10, 11, 11, 11, 10, 11, 11, 11, 10, 12, 11, 12, 10, 10, 11, 11,
    9, 12, 11, 12, 10, 11, 10, 12, 10, 11, 10, 12, 10, 11, 10, 7,
    5, 4, 6, 6, 7, 7, 7, 8, 8, 7, 7, 6, 8, 6, 7, 7,
    9, 8, 9, 9, 10, 11, 11, 11, 12, 11, 10, 11, 12, 11, 12, 11,
    12, 12, 12, 12, 11, 12, 12, 11, 12, 11, 12, 11, 13, 11, 12, 10,
    13, 10, 14, 14, 13, 14, 15, 14, 16, 15, 15, 18, 18, 18, 9, 18,
    8,
];

pub const SECOND_CODE_LENGTHS_2: [u32; 321] = [
    5, 6, 6, 6, 6, 7, 7, 7, 7, 7, 7, 8, 7, 8, 7, 7,
    7, 8, 8, 8, 8, 9, 8, 9, 8, 9, 9, 9, 7, 9, 8, 8,
    6, 9, 8, 9, 8, 9, 8, 9, 8, 9, 8, 9, 8, 9, 8, 8,
    8, 8, 8, 9, 8, 9, 8, 9, 9, 10, 8, 10, 8, 9, 9, 8,
    8, 8, 7, 8, 8, 9, 8, 9, 7, 9, 8, 10, 8, 9, 8, 9,
    8, 9, 8, 8, 8, 9, 9, 9, 9, 10, 9, 11, 9, 10, 9, 10,
    8, 8, 8, 9, 8, 8, 8, 9, 9, 8, 9, 10, 8, 9, 8, 8,
    8, 11, 8, 7, 8, 9, 9, 9, 9, 10, 9, 10, 9, 10, 9, 8,
    8, 9, 9, 10, 9, 10, 9, 10, 8, 10, 9, 10, 9, 11, 10, 11,
    9, 11, 10, 10, 10, 11, 9, 11, 9, 10, 9, 11, 9, 11, 10, 10,
    9, 10, 9, 9, 8, 10, 9, 11, 9, 9, 9, 11, 10, 11, 9, 11,
    9, 11, 9, 11, 10, 11, 10, 11, 10, 11, 9, 10, 10, 11, 10, 10,
    8, 10, 9, 10, 10, 11, 9, 11, 9, 10, 10, 11, 9, 10, 10, 9,
    9, 10, 9, 10, 9, 10, 9, 10, 9, 11, 9, 11, 10, 10, 9, 10,
    9, 11, 9, 11, 9, 11, 9, 10, 9, 11, 9, 11, 9, 11, 9, 10,
    8, 11, 9, 10, 9, 10, 9, 10, 8, 10, 8, 9, 8, 9, 8, 7,
    4, 4, 5, 6, 6, 6, 7, 7, 7, 7, 8, 8, 8, 7, 8, 8,
    9, 9, 10, 10, 10, 10, 10, 10, 11, 11, 10, 10, 12, 11, 11, 12,
    12, 11, 12, 12, 11, 12, 12, 12, 12, 12, 12, 11, 12, 11, 13, 12,
    13, 12, 13, 14, 14, 14, 15, 13, 14, 13, 14, 18, 18, 17, 7, 16,
    9,
];

pub const SECOND_CODE_LENGTHS_3: [u32; 321] = [
    5, 6, 6, 6, 6, 7, 7, 7, 6, 8, 7, 8, 7, 9, 8, 8,
    7, 7, 8, 9, 9, 9, 9, 10, 8, 9, 9, 10, 8, 10, 9, 8,
    6, 10, 8, 10, 8, 10, 9, 9, 9, 9, 9, 10, 9, 9, 8, 9,
    8, 9, 8, 9, 9, 10, 9, 10, 9, 9, 8, 10, 9, 11, 10, 8,
    8, 8, 8, 9, 7, 9, 9, 10, 8, 9, 8, 11, 9, 10, 9, 10,
    8, 9, 9, 9, 9, 8, 9, 9, 10, 10, 10, 12, 10, 11, 10, 10,
    8, 9, 9, 9, 8, 9, 8, 8, 10, 9, 10, 11, 8, 10, 9, 9,
    8, 12, 8, 9, 9, 9, 9, 8, 9, 10, 9, 12, 10, 10, 10, 8,
    7, 11, 10, 9, 10, 11, 9, 11, 7, 11, 10, 12, 10, 12, 10, 11,
    9, 11, 9, 12, 10, 12, 10, 12, 10, 9, 11, 12, 10, 12, 10, 11,
    9, 10, 9, 10, 9, 11, 11, 12, 9, 10, 8, 12, 11, 12, 9, 12,
    10, 12, 10, 13, 10, 12, 10, 12, 10, 12, 10, 9, 10, 12, 10, 9,
    8, 11, 10, 12, 10, 12, 10, 12, 10, 11, 10, 12, 8, 12, 10, 11,
    10, 10, 10, 12, 9, 11, 10, 12, 10, 12, 11, 12, 10, 9, 10, 12,
    9, 10, 10, 12, 10, 11, 10, 11, 10, 12, 8, 12, 9, 12, 8, 12,
    8, 11, 10, 11, 10, 11, 9, 10, 8, 10, 9, 9, 8, 9, 8, 7,
    4, 3, 5, 5, 6, 5, 6, 6, 7, 7, 8, 8, 8, 7, 7, 7,
    9, 8, 9, 9, 11, 9, 11, 9, 8, 9, 9, 11, 12, 11, 12, 12,
    13, 13, 12, 13, 14, 13, 14, 13, 14, 13, 13, 13, 12, 13, 13, 12,
    13, 13, 14, 14, 13, 13, 14, 14, 14, 14, 15, 18, 17, 18, 8, 16,
    10,
];

pub const SECOND_CODE_LENGTHS_4: [u32; 321] = [
    4, 5, 6, 6, 6, 6, 7, 7, 6, 7, 7, 9, 6, 8, 8, 7,
    7, 8, 8, 8, 6, 9, 8, 8, 7, 9, 8, 9, 8, 9, 8, 9,
    6, 9, 8, 9, 8, 10, 9, 9, 8, 10, 8, 10, 8, 9, 8, 9,
    8, 8, 7, 9, 9, 9, 9, 9, 8, 10, 9, 10, 9, 10, 9, 8,
    7, 8, 9, 9, 8, 9, 9, 9, 7, 10, 9, 10, 9, 9, 8, 9,
    8, 9, 8, 8, 8, 9, 9, 10, 9, 9, 8, 11, 9, 11, 10, 10,
    8, 8, 10, 8, 8, 9, 9, 9, 10, 9, 10, 11, 9, 9, 9, 9,
    8, 9, 8, 8, 8, 10, 10, 9, 9, 8, 10, 11, 10, 11, 11, 9,
    8, 9, 10, 11, 9, 10, 11, 11, 9, 12, 10, 10, 10, 12, 11, 11,
    9, 11, 11, 12, 9, 11, 9, 10, 10, 10, 10, 12, 9, 11, 10, 11,
    9, 11, 11, 11, 10, 11, 11, 12, 9, 10, 10, 12, 11, 11, 10, 11,
    9, 11, 10, 11, 10, 11, 9, 11, 11, 9, 8, 11, 10, 11, 11, 10,
    7, 12, 11, 11, 11, 11, 11, 12, 10, 12, 11, 13, 11, 10, 12, 11,
    10, 11, 10, 11, 10, 11, 11, 11, 10, 12, 11, 11, 10, 11, 10, 10,
    10, 11, 10, 12, 11, 12, 10, 11, 9, 11, 10, 11, 10, 11, 10, 12,
    9, 11, 11, 11, 9, 11, 10, 10, 9, 11, 10, 10, 9, 10, 9, 7,
    4, 5, 5, 5, 6, 6, 7, 6, 8, 7, 8, 9, 9, 7, 8, 8,
    10, 9, 10, 10, 12, 10, 11, 11, 11, 11, 10, 11, 12, 11, 11, 11,
    11, 11, 13, 12, 11, 12, 13, 12, 12, 12, 13, 11, 9, 12, 13, 7,
    13, 11, 13, 11, 10, 11, 13, 15, 15, 12, 14, 15, 15, 15, 6, 15,
    5,
];

pub const SECOND_CODE_LENGTHS_5: [u32; 321] = [
    8, 10, 11, 11, 11, 12, 11, 11, 12, 6, 11, 12, 10, 5, 12, 12,
    12, 12, 12, 12, 12, 13, 13, 14, 13, 13, 12, 13, 12, 13, 12, 15,
    4, 10, 7, 9, 11, 11, 10, 9, 6, 7, 8, 9, 6, 7, 6, 7,
    8, 7, 7, 8, 8, 8, 8, 8, 8, 9, 8, 7, 10, 9, 10, 10,
    11, 7, 8, 6, 7, 8, 8, 9, 8, 7, 10, 10, 8, 7, 8, 8,
    7, 10, 7, 6, 7, 9, 9, 8, 11, 11, 11, 10, 11, 11, 11, 8,
    11, 6, 7, 6, 6, 6, 6, 8, 7, 6, 10, 9, 6, 7, 6, 6,
    7, 10, 6, 5, 6, 7, 7, 7, 10, 8, 11, 9, 13, 7, 14, 16,
    12, 14, 14, 15, 15, 16, 16, 14, 15, 15, 15, 15, 15, 15, 15, 15,
    14, 15, 13, 14, 14, 16, 15, 17, 14, 17, 15, 17, 12, 14, 13, 16,
    12, 17, 13, 17, 14, 13, 13, 14, 14, 12, 13, 15, 15, 14, 15, 17,
    14, 17, 15, 14, 15, 16, 12, 16, 15, 14, 15, 16, 15, 16, 17, 17,
    15, 15, 17, 17, 13, 14, 15, 15, 13, 12, 16, 16, 17, 14, 15, 16,
    15, 15, 13, 13, 15, 13, 16, 17, 15, 17, 17, 17, 16, 17, 14, 17,
    14, 16, 15, 17, 15, 15, 14, 17, 15, 17, 15, 16, 15, 15, 16, 16,
    14, 17, 17, 15, 15, 16, 15, 17, 15, 14, 16, 16, 16, 16, 16, 12,
    4, 4, 5, 5, 6, 6, 6, 7, 7, 7, 8, 8, 8, 8, 9, 9,
    9, 9, 9, 10, 10, 10, 11, 10, 11, 11, 11, 11, 11, 12, 12, 12,
    13, 13, 12, 13, 12, 14, 14, 12, 13, 13, 13, 13, 14, 12, 13, 13,
    14, 14, 14, 13, 14, 14, 15, 15, 13, 15, 13, 17, 17, 17, 9, 17,
    7,
];

pub const OFFSET_CODE_LENGTHS_1: [u32; 11] = [
    5, 6, 3, 3, 3, 3, 3, 3, 3, 4, 6,
];

pub const OFFSET_CODE_LENGTHS_2: [u32; 13] = [
    5, 6, 4, 4, 3, 3, 3, 3, 3, 4, 4, 4, 6,
];

pub const OFFSET_CODE_LENGTHS_3: [u32; 14] = [
    6, 7, 4, 4, 3, 3, 3, 3, 3, 4, 4, 4, 5, 7,
];

pub const OFFSET_CODE_LENGTHS_4: [u32; 11] = [
    3, 6, 5, 4, 2, 3, 3, 3, 4, 4, 6,
];

pub const OFFSET_CODE_LENGTHS_5: [u32; 11] = [
    6, 7, 7, 6, 4, 3, 2, 2, 3, 3, 6,
];

pub const META_CODES: [u32; 37] = [
    0x5d8, 0x058, 0x040, 0x0c0, 0x000, 0x078, 0x02b, 0x014,
    0x00c, 0x01c, 0x01b, 0x00b, 0x010, 0x020, 0x038, 0x018,
    0x0d8, 0xbd8, 0x180, 0x680, 0x380, 0xf80, 0x780, 0x480,
    0x080, 0x280, 0x3d8, 0xfd8, 0x7d8, 0x9d8, 0x1d8, 0x004,
    0x001, 0x002, 0x007, 0x003, 0x008,
];

pub const META_CODE_LENGTHS: [u32; 37] = [
    11, 8, 8, 8, 8, 7, 6, 5, 5, 5, 5,
    6, 5, 6, 7, 7, 9, 12, 10, 11, 11, 12,
    12, 11, 11, 11, 12, 12, 12, 12, 12, 5, 2,
    2, 3, 4, 5,
];

/// The word lengths of the first code in built-in set `t`, from 1 to 5.
pub closed spec fn first_lengths(t: int) -> Seq<u32> {
    if t == 1 {
        FIRST_CODE_LENGTHS_1@
    } else if t == 2 {
        FIRST_CODE_LENGTHS_2@
    } else if t == 3 {
        FIRST_CODE_LENGTHS_3@
    } else if t == 4 {
        FIRST_CODE_LENGTHS_4@
    } else {
        FIRST_CODE_LENGTHS_5@
    }
}

/// The first code of built-in set `t`.
pub fn first_code(t: u32) -> (r: PrefixCode)
    requires
        1 <= t <= 5,
    ensures
        r.view() == canonical(first_lengths(t as int), 32),
        lengths_ok(r.view()),
        symbols_below(r.view(), 321),
{
    if t == 1 {
        PrefixCode::from_lengths(FIRST_CODE_LENGTHS_1.as_slice(), 32)
    } else if t == 2 {
        PrefixCode::from_lengths(FIRST_CODE_LENGTHS_2.as_slice(), 32)
    } else if t == 3 {
        PrefixCode::from_lengths(FIRST_CODE_LENGTHS_3.as_slice(), 32)
    } else if t == 4 {
        PrefixCode::from_lengths(FIRST_CODE_LENGTHS_4.as_slice(), 32)
    } else {
        PrefixCode::from_lengths(FIRST_CODE_LENGTHS_5.as_slice(), 32)
    }
}

/// The word lengths of the second code in built-in set `t`, from 1 to 5.
pub closed spec fn second_lengths(t: int) -> Seq<u32> {
    if t == 1 {
        SECOND_CODE_LENGTHS_1@
    } else if t == 2 {
        SECOND_CODE_LENGTHS_2@
    } else if t == 3 {
        SECOND_CODE_LENGTHS_3@
    } else if t == 4 {
        SECOND_CODE_LENGTHS_4@
    } else {
        SECOND_CODE_LENGTHS_5@
    }
}

/// The second code of built-in set `t`.
pub fn second_code(t: u32) -> (r: PrefixCode)
    requires
        1 <= t <= 5,
    ensures
        r.view() == canonical(second_lengths(t as int), 32),
        lengths_ok(r.view()),
        symbols_below(r.view(), 321),
{
    if t == 1 {
        PrefixCode::from_lengths(SECOND_CODE_LENGTHS_1.as_slice(), 32)
    } else if t == 2 {
        PrefixCode::from_lengths(SECOND_CODE_LENGTHS_2.as_slice(), 32)
    } else if t == 3 {
        PrefixCode::from_lengths(SECOND_CODE_LENGTHS_3.as_slice(), 32)
    } else if t == 4 {
        PrefixCode::from_lengths(SECOND_CODE_LENGTHS_4.as_slice(), 32)
    } else {
        PrefixCode::from_lengths(SECOND_CODE_LENGTHS_5.as_slice(), 32)
    }
}

/// The word lengths of the offset code in built-in set `t`, from 1 to 5.
pub closed spec fn offset_lengths(t: int) -> Seq<u32> {
    if t == 1 {
        OFFSET_CODE_LENGTHS_1@
    } else if t == 2 {
        OFFSET_CODE_LENGTHS_2@
    } else if t == 3 {
        OFFSET_CODE_LENGTHS_3@
    } else if t == 4 {
        OFFSET_CODE_LENGTHS_4@
    } else {
        OFFSET_CODE_LENGTHS_5@
    }
}

/// The offset code of built-in set `t`.
pub fn offset_code(t: u32) -> (r: PrefixCode)
    requires
        1 <= t <= 5,
    ensures
        r.view() == canonical(offset_lengths(t as int), 32),
        lengths_ok(r.view()),
        symbols_below(r.view(), 17),
{
    if t == 1 {
        PrefixCode::from_lengths(OFFSET_CODE_LENGTHS_1.as_slice(), 32)
    } else if t == 2 {
        PrefixCode::from_lengths(OFFSET_CODE_LENGTHS_2.as_slice(), 32)
    } else if t == 3 {
        PrefixCode::from_lengths(OFFSET_CODE_LENGTHS_3.as_slice(), 32)
    } else if t == 4 {
        PrefixCode::from_lengths(OFFSET_CODE_LENGTHS_4.as_slice(), 32)
    } else {
        PrefixCode::from_lengths(OFFSET_CODE_LENGTHS_5.as_slice(), 32)
    }
}

pub closed spec fn meta_code(i: int) -> u32 {
    META_CODES@[i]
}

pub closed spec fn meta_length(i: int) -> u32 {
    META_CODE_LENGTHS@[i]
}

/// The first `n` words of the code in which word lengths are spelled.
pub open spec fn meta_words(n: nat) -> Seq<CodeWord>
    decreases n,
{
    if n == 0 {
        seq![]
    } else {
        let i = n - 1;
        meta_words(i as nat).push(
            CodeWord {
                len: meta_length(i),
                bits: reversed(meta_code(i), meta_length(i) as nat, 0),
                value: i as i32,
            },
        )
    }
}

/// Build the code in which word lengths are spelled.
pub fn build_meta_code() -> (r: PrefixCode)
    ensures
        r.view() == meta_words(37),
        lengths_ok(r.view()),
        symbols_below(r.view(), 37),
{
    let mut meta = PrefixCode::new();
    let mut i: usize = 0;
    while i < 37
        invariant
            i <= 37,
            meta.view() == meta_words(i as nat),
            lengths_ok(meta.view()),
            symbols_below(meta.view(), 37),
        decreases 37 - i,
    {
        let len: u32 = META_CODE_LENGTHS[i];
        assert(1 <= len <= 32);
        meta.add_value_low_bit_first(i as i32, META_CODES[i], len);
        i = i + 1;
    }
    meta
}

// === no word of it is the start of another ====================================

/// What the low `n` bits of a code are worth, `n` being one of the lengths.
pub open spec fn low_part(code: u32, n: u32) -> int {
    code as int % unit(n)
}

pub open spec fn unit(n: u32) -> int {
    if n == 2 {
        4
    } else if n == 3 {
        8
    } else if n == 4 {
        16
    } else if n == 5 {
        32
    } else if n == 6 {
        64
    } else if n == 7 {
        128
    } else if n == 8 {
        256
    } else if n == 9 {
        512
    } else if n == 10 {
        1024
    } else if n == 11 {
        2048
    } else {
        4096
    }
}

/// Code `i` is not the low end of any other among the first `n`.
spec fn stands_alone(i: int, n: nat) -> bool
    decreases n,
{
    n > 0 ==> {
        let j = n - 1;
        &&& i != j && META_CODE_LENGTHS@[i] <= META_CODE_LENGTHS@[j] ==> low_part(
            META_CODES@[j],
            META_CODE_LENGTHS@[i],
        ) != low_part(META_CODES@[i], META_CODE_LENGTHS@[i])
        &&& stands_alone(i, (n - 1) as nat)
    }
}

#[verifier::spinoff_prover]
proof fn rows_from_0()
    ensures
        stands_alone(0, 37),
        stands_alone(1, 37),
        stands_alone(2, 37),
        stands_alone(3, 37),
        stands_alone(4, 37),
        stands_alone(5, 37),
        stands_alone(6, 37),
        stands_alone(7, 37),
{
    reveal_with_fuel(stands_alone, 38);
}

#[verifier::spinoff_prover]
proof fn rows_from_8()
    ensures
        stands_alone(8, 37),
        stands_alone(9, 37),
        stands_alone(10, 37),
        stands_alone(11, 37),
        stands_alone(12, 37),
        stands_alone(13, 37),
        stands_alone(14, 37),
        stands_alone(15, 37),
{
    reveal_with_fuel(stands_alone, 38);
}

#[verifier::spinoff_prover]
proof fn rows_from_16()
    ensures
        stands_alone(16, 37),
        stands_alone(17, 37),
        stands_alone(18, 37),
        stands_alone(19, 37),
        stands_alone(20, 37),
        stands_alone(21, 37),
        stands_alone(22, 37),
        stands_alone(23, 37),
{
    reveal_with_fuel(stands_alone, 38);
}

#[verifier::spinoff_prover]
proof fn rows_from_24()
    ensures
        stands_alone(24, 37),
        stands_alone(25, 37),
        stands_alone(26, 37),
        stands_alone(27, 37),
        stands_alone(28, 37),
        stands_alone(29, 37),
        stands_alone(30, 37),
{
    reveal_with_fuel(stands_alone, 38);
}

#[verifier::spinoff_prover]
proof fn rows_from_31()
    ensures
        stands_alone(31, 37),
        stands_alone(32, 37),
        stands_alone(33, 37),
        stands_alone(34, 37),
        stands_alone(35, 37),
        stands_alone(36, 37),
{
    reveal_with_fuel(stands_alone, 38);
}

proof fn code_stands_alone(i: int, n: nat, j: int)
    requires
        0 <= j < n,
        stands_alone(i, n),
        i != j,
        META_CODE_LENGTHS@[i] <= META_CODE_LENGTHS@[j],
    ensures
        low_part(META_CODES@[j], META_CODE_LENGTHS@[i]) != low_part(META_CODES@[i], META_CODE_LENGTHS@[i]),
    decreases n,
{
    if j < n - 1 {
        code_stands_alone(i, (n - 1) as nat, j);
    }
}

/// No code of a word is the low end of another.
pub proof fn codes_stand_alone(i: int, j: int)
    requires
        0 <= i < 37,
        0 <= j < 37,
        i != j,
        meta_length(i) <= meta_length(j),
    ensures
        low_part(meta_code(j), meta_length(i)) != low_part(meta_code(i), meta_length(i)),
{
    rows_from_0();
    rows_from_8();
    rows_from_16();
    rows_from_24();
    rows_from_31();
    code_stands_alone(i, 37, j);
}

/// The words have 2 to 12 bits.
pub proof fn meta_lengths_are_small(i: int)
    requires
        0 <= i < 37,
    ensures
        2 <= meta_length(i) <= 12,
{
}

/// Which lengths belong to built-in set `t`.
pub proof fn built_in_lengths(t: int)
    ensures
        t == 1 ==> first_lengths(t) == FIRST_CODE_LENGTHS_1@,
        t == 2 ==> first_lengths(t) == FIRST_CODE_LENGTHS_2@,
        t == 3 ==> first_lengths(t) == FIRST_CODE_LENGTHS_3@,
        t == 4 ==> first_lengths(t) == FIRST_CODE_LENGTHS_4@,
        t == 5 ==> first_lengths(t) == FIRST_CODE_LENGTHS_5@,
        t == 1 ==> second_lengths(t) == SECOND_CODE_LENGTHS_1@,
        t == 2 ==> second_lengths(t) == SECOND_CODE_LENGTHS_2@,
        t == 3 ==> second_lengths(t) == SECOND_CODE_LENGTHS_3@,
        t == 4 ==> second_lengths(t) == SECOND_CODE_LENGTHS_4@,
        t == 5 ==> second_lengths(t) == SECOND_CODE_LENGTHS_5@,
        t == 1 ==> offset_lengths(t) == OFFSET_CODE_LENGTHS_1@,
        t == 2 ==> offset_lengths(t) == OFFSET_CODE_LENGTHS_2@,
        t == 3 ==> offset_lengths(t) == OFFSET_CODE_LENGTHS_3@,
        t == 4 ==> offset_lengths(t) == OFFSET_CODE_LENGTHS_4@,
        t == 5 ==> offset_lengths(t) == OFFSET_CODE_LENGTHS_5@,
{
}

/// The tables behind the code in which word lengths are spelled.
pub proof fn meta_tables()
    ensures
        forall|i: int| #[trigger] meta_code(i) == META_CODES@[i],
        forall|i: int| #[trigger] meta_length(i) == META_CODE_LENGTHS@[i],
{
}

} // verus!
