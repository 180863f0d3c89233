//! Parses the report written by MinCED, a CRISPR array annotation tool, into
//! contigs, arrays and repeats.
//!
//! The report's grammar is stated in [`grammar`] as spec functions over the
//! text's bytes; every parsing function is proved to return exactly what the
//! grammar describes, and [`laws`] proves what follows for well-formed rows,
//! headers, arrays and documents.
pub mod grammar;
pub mod laws;
mod parser;
mod records;
mod text;

pub use parser::{
    leaves, parse, parse_accession_line, parse_array, parse_contig_arrays,
    parse_crispr_order_and_coordinates, parse_repeat_spacer_line,
};
pub use records::{
    Array, ArrayView, Contig, ContigView, ParseError, Repeat, RepeatOnly, RepeatOnlyView,
    RepeatSpacer, RepeatSpacerView, RepeatView, array_views, contig_views, repeat_views,
};
