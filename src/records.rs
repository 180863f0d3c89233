//! The records that a report is parsed into, and their mathematical views.
//!
//! Every text field borrows from the parsed buffer. In a view, a text field is
//! the UTF-8 bytes of the slice, so that it can be compared with a range of the
//! input's bytes.
use vstd::prelude::*;
use vstd::string::StringSliceAdditionalSpecFns;

verus! {

/// A single repeat and spacer.
#[derive(Debug, PartialEq)]
pub struct RepeatSpacer<'a> {
    /// Sequence of the repeat.
    pub repeat: &'a str,
    /// Sequence of the spacer.
    pub spacer: &'a str,
    /// Zero-indexed inclusive start coordinate.
    pub start: usize,
    /// Zero-indexed exclusive end coordinate.
    pub end: usize,
    /// Zero-indexed inclusive start coordinate of the spacer.
    pub spacer_start: usize,
    /// Zero-indexed exclusive end coordinate of the spacer.
    pub spacer_end: usize,
    /// Zero-indexed inclusive start coordinate of the repeat.
    pub repeat_start: usize,
    /// Zero-indexed exclusive end coordinate of the repeat.
    pub repeat_end: usize,
}

/// A single repeat, without a spacer. This is the last repeat in the CRISPR array.
#[derive(Debug, PartialEq)]
pub struct RepeatOnly<'a> {
    /// Sequence of the repeat.
    pub repeat: &'a str,
    /// Zero-indexed inclusive start coordinate.
    pub start: usize,
    /// Zero-indexed exclusive end coordinate.
    pub end: usize,
}

/// Represents one component of a CRISPR array.
#[derive(Debug, PartialEq)]
pub enum Repeat<'a> {
    /// A repeat with a spacer
    WithSpacer(RepeatSpacer<'a>),
    /// A repeat without a spacer (the last repeat in the array)
    WithoutSpacer(RepeatOnly<'a>),
}

/// A single CRISPR array.
#[derive(Debug, PartialEq)]
pub struct Array<'a> {
    /// The nth CRISPR array in this genome/contig, counted from zero.
    pub order: usize,
    /// Zero-indexed inclusive start coordinate.
    pub start: usize,
    /// Zero-indexed exclusive end coordinate.
    pub end: usize,
    /// All of the repeat-spacer pairs in this CRISPR array.
    pub repeat_spacers: Vec<Repeat<'a>>,
}

/// Represents all of the CRISPR arrays in a single contig or genome.
#[derive(Debug, PartialEq)]
pub struct Contig<'a> {
    /// Accession of the contig/genome.
    pub accession: &'a str,
    /// Length of the contig/genome in base pairs.
    pub bp: usize,
    /// The CRISPR arrays in this contig/genome.
    pub arrays: Vec<Array<'a>>,
}

/// The text is not a report: `offset` is the byte offset of the first text
/// that the grammar could not match.
#[derive(Debug, Clone, Copy, PartialEq, Eq)]
pub struct ParseError {
    /// Byte offset, in the parsed text, where matching stopped.
    pub offset: usize,
}

/// View of a [`RepeatSpacer`]: its text fields as the bytes of their slices.
pub struct RepeatSpacerView {
    pub repeat: Seq<u8>,
    pub spacer: Seq<u8>,
    pub start: usize,
    pub end: usize,
    pub spacer_start: usize,
    pub spacer_end: usize,
    pub repeat_start: usize,
    pub repeat_end: usize,
}

/// View of a [`RepeatOnly`]: its repeat as the bytes of its slice.
pub struct RepeatOnlyView {
    pub repeat: Seq<u8>,
    pub start: usize,
    pub end: usize,
}

/// View of a [`Repeat`], variant for variant.
pub enum RepeatView {
    WithSpacer(RepeatSpacerView),
    WithoutSpacer(RepeatOnlyView),
}

/// View of an [`Array`]: its repeats as their views, in order.
pub struct ArrayView {
    pub order: usize,
    pub start: usize,
    pub end: usize,
    pub repeat_spacers: Seq<RepeatView>,
}

/// View of a [`Contig`]: its accession as bytes, its arrays as their views.
pub struct ContigView {
    pub accession: Seq<u8>,
    pub bp: usize,
    pub arrays: Seq<ArrayView>,
}

impl<'a> View for RepeatSpacer<'a> {
    type V = RepeatSpacerView;

    open spec fn view(&self) -> RepeatSpacerView {
        RepeatSpacerView {
            repeat: self.repeat.spec_bytes(),
            spacer: self.spacer.spec_bytes(),
            start: self.start,
            end: self.end,
            spacer_start: self.spacer_start,
            spacer_end: self.spacer_end,
            repeat_start: self.repeat_start,
            repeat_end: self.repeat_end,
        }
    }
}

impl<'a> View for RepeatOnly<'a> {
    type V = RepeatOnlyView;

    open spec fn view(&self) -> RepeatOnlyView {
        RepeatOnlyView { repeat: self.repeat.spec_bytes(), start: self.start, end: self.end }
    }
}

impl<'a> View for Repeat<'a> {
    type V = RepeatView;

    open spec fn view(&self) -> RepeatView {
        match self {
            Repeat::WithSpacer(r) => RepeatView::WithSpacer(r@),
            Repeat::WithoutSpacer(r) => RepeatView::WithoutSpacer(r@),
        }
    }
}

impl<'a> View for Array<'a> {
    type V = ArrayView;

    open spec fn view(&self) -> ArrayView {
        ArrayView {
            order: self.order,
            start: self.start,
            end: self.end,
            repeat_spacers: repeat_views(self.repeat_spacers@),
        }
    }
}

impl<'a> View for Contig<'a> {
    type V = ContigView;

    open spec fn view(&self) -> ContigView {
        ContigView {
            accession: self.accession.spec_bytes(),
            bp: self.bp,
            arrays: array_views(self.arrays@),
        }
    }
}

/// The views of a sequence of repeats, in order.
pub open spec fn repeat_views<'a>(v: Seq<Repeat<'a>>) -> Seq<RepeatView> {
    v.map_values(|r: Repeat<'a>| r@)
}

/// The views of a sequence of arrays, in order.
pub open spec fn array_views<'a>(v: Seq<Array<'a>>) -> Seq<ArrayView> {
    v.map_values(|a: Array<'a>| a@)
}

/// The views of a sequence of contigs, in order.
pub open spec fn contig_views<'a>(v: Seq<Contig<'a>>) -> Seq<ContigView> {
    v.map_values(|c: Contig<'a>| c@)
}

} // verus!
