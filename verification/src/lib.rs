//! A verified parser for a spreadsheet-like text format: comma-separated
//! rows whose cells are empty, quoted strings, numbers, or formulas made of
//! function calls, cell references and literals, together with the bijective
//! base-26 coordinate codec that references rely on.

use vstd::prelude::*;

pub mod coord;
pub mod diag;
pub mod digits;
pub mod scan;
pub mod sheet;
pub mod value;

verus! {

/// Relies on std's `String::push`: it appends exactly the one character.
pub assume_specification[ String::push ](s: &mut String, c: char)
    ensures
        final(s)@ == old(s)@.push(c),
;

} // verus!
