//! A 64-bit value seen three ways: as hexadecimal or decimal text, as a grid of
//! sixty-four bits that can be flipped one at a time, and as a row of bit
//! fields cut out of the value by a list of widths.

pub mod bits;
pub mod chars;
pub mod fields;
pub mod numeral;
pub mod viewer;

pub use bits::{bit_is_set, bit_position, field_mask, toggle};
pub use fields::{layout, FieldSlice, FIELD_WINDOW_BITS};
pub use numeral::{
    format_dec, format_hex, format_value, parse_dec_to_u64, parse_hex_to_u64, parse_value,
    InputBase,
};
pub use viewer::{is_index_selected, HexViewer};
