//! Lookup of tabulated steam and water properties, with linear and bilinear
//! interpolation between tabulated rows.
//!
//! Quantities are fixed-point decimals: an `i64` counting units of 10^-9.
use vstd::prelude::*;

pub mod datapoint;
pub mod error;
pub mod math;
pub mod saturated_steam;
pub mod shell;
pub mod number;
pub mod text;
pub mod water;

use crate::text::{fields, trim, split_fields, trim_chars, string_of};

verus! {

/// Number of free-form lines before the column header line.
pub const PREAMBLE_LINES: usize = 6;

/// The column headers of a header line, each without its surrounding blanks.
pub open spec fn header_line_names(line: Seq<char>) -> Seq<Seq<char>> {
    fields(line, ',').map_values(|h: Seq<char>| trim(h))
}

/// Reads the column headers of a header line.
pub fn get_headers_from_string(header_string: &[char]) -> (r: Vec<String>)
    ensures
        r@.len() == header_line_names(header_string@).len(),
        forall|i: int| 0 <= i < r@.len() ==> #[trigger] r@[i]@ == header_line_names(header_string@)[i],
{
    let parts = split_fields(header_string, ',');
    let mut r: Vec<String> = Vec::new();
    let mut i: usize = 0;
    while i < parts.len()
        invariant
            i <= parts@.len() == fields(header_string@, ',').len(),
            forall|k: int| 0 <= k < parts@.len() ==> #[trigger] parts@[k]@ == fields(header_string@, ',')[k],
            r@.len() == i,
            forall|k: int| 0 <= k < i ==> #[trigger] r@[k]@ == header_line_names(header_string@)[k],
        decreases parts@.len() - i,
    {
        let t = trim_chars(parts[i].as_slice());
        r.push(string_of(t.as_slice()));
        i = i + 1;
    }
    r
}


} // verus!
