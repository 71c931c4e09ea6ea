//! Declarative extraction of structured data from spreadsheet workbooks:
//! an interpreter for JSON-shaped extraction rules over an in-memory
//! workbook model, with the merge, keying and progress arithmetic of the
//! batch pipeline, all behind proved contracts.
#![verifier::loop_isolation(false)]
use vstd::prelude::*;

pub mod assemble;
pub mod batch;
pub mod conversions;
pub mod dataframe;
pub mod manipulations;
pub mod multirow_patterns;
pub mod process;
pub mod render;
pub mod sheet;
pub mod sheets;
pub mod single_cells;
pub mod text;
pub mod values;

verus! {

} // verus!
