//! The report's grammar, as spec functions over the report's bytes.
//!
//! Each rule takes the bytes `b` and a position `i` and says whether the rule
//! matches there, with the value it yields and the position after the match.
//! Repetition is greedy: a run takes every byte of its class, and a list takes
//! items until one does not match.
use crate::records::{
    ArrayView, ContigView, RepeatOnlyView, RepeatSpacerView, RepeatView,
};
use vstd::prelude::*;

verus! {

/// The byte classes that the grammar's runs are made of.
#[derive(Clone, Copy)]
pub enum ByteClass {
    /// `0` to `9`.
    Digit,
    /// ASCII letters.
    Letter,
    /// Space, tab, carriage return and line feed.
    Space,
    /// Space and tab: the gaps between a row's columns.
    Blank,
    /// Any byte but carriage return and line feed.
    LineText,
    /// Any byte but the single quote.
    NotQuote,
}

/// The byte `x` belongs to the class `c`.
pub open spec fn in_class(c: ByteClass, x: u8) -> bool {
    match c {
        ByteClass::Digit => '0' as u8 <= x <= '9' as u8,
        ByteClass::Letter => ('A' as u8 <= x <= 'Z' as u8) || ('a' as u8 <= x <= 'z' as u8),
        ByteClass::Space => x == ' ' as u8 || x == '\t' as u8 || x == '\r' as u8 || x == '\n' as u8,
        ByteClass::Blank => x == ' ' as u8 || x == '\t' as u8,
        ByteClass::LineText => x != '\r' as u8 && x != '\n' as u8,
        ByteClass::NotQuote => x != '\'' as u8,
    }
}

/// The end of the longest run of bytes of class `c` that starts at `i`.
pub open spec fn run_end(b: Seq<u8>, i: int, c: ByteClass) -> int
    decreases b.len() - i,
{
    if 0 <= i < b.len() && in_class(c, b[i]) {
        run_end(b, i + 1, c)
    } else {
        i
    }
}

/// The value of a string of decimal digits.
pub open spec fn decimal(d: Seq<u8>) -> nat
    decreases d.len(),
{
    if d.len() == 0 {
        0
    } else {
        decimal(d.drop_last()) * 10 + (d.last() - '0' as u8) as nat
    }
}

/// The value of the digit run `b[i..e]`.
pub open spec fn value_of(b: Seq<u8>, i: int, e: int) -> nat {
    decimal(b.subrange(i, e))
}

/// `w` stands in `b` at `i`.
pub open spec fn has_word(b: Seq<u8>, i: int, w: Seq<u8>) -> bool {
    0 <= i && i + w.len() <= b.len() && b.subrange(i, i + w.len()) == w
}

/// `CRISPR ` (with its space).
pub open spec fn crispr_word() -> Seq<u8> {
    seq!['C' as u8, 'R' as u8, 'I' as u8, 'S' as u8, 'P' as u8, 'R' as u8, ' ' as u8]
}

/// `Range: ` (with its space).
pub open spec fn range_word() -> Seq<u8> {
    seq!['R' as u8, 'a' as u8, 'n' as u8, 'g' as u8, 'e' as u8, ':' as u8, ' ' as u8]
}

/// ` - `, between the two ends of a range.
pub open spec fn dash_word() -> Seq<u8> {
    seq![' ' as u8, '-' as u8, ' ' as u8]
}

/// `Sequence '`, which opens an accession line.
pub open spec fn sequence_word() -> Seq<u8> {
    seq![
        'S' as u8, 'e' as u8, 'q' as u8, 'u' as u8, 'e' as u8, 'n' as u8, 'c' as u8, 'e' as u8,
        ' ' as u8, '\'' as u8,
    ]
}

/// `' (`, between the accession and its length.
pub open spec fn quote_paren_word() -> Seq<u8> {
    seq!['\'' as u8, ' ' as u8, '(' as u8]
}

/// ` bp)`, which closes an accession line.
pub open spec fn bp_word() -> Seq<u8> {
    seq![' ' as u8, 'b' as u8, 'p' as u8, ')' as u8]
}

/// A line terminator at `i`: `\n` or `\r\n`.
pub open spec fn line_end_at(b: Seq<u8>, i: int) -> Option<int> {
    if 0 <= i < b.len() && b[i] == '\n' as u8 {
        Some(i + 1)
    } else if 0 <= i && i + 1 < b.len() && b[i] == '\r' as u8 && b[i + 1] == '\n' as u8 {
        Some(i + 2)
    } else {
        None
    }
}

/// A line of any content, with its terminator.
pub open spec fn any_line_at(b: Seq<u8>, i: int) -> Option<int> {
    line_end_at(b, run_end(b, i, ByteClass::LineText))
}

/// Two lines of any content.
pub open spec fn two_lines_at(b: Seq<u8>, i: int) -> Option<int> {
    match any_line_at(b, i) {
        Some(j) => any_line_at(b, j),
        None => None,
    }
}

/// A row with a repeat and a spacer: a position, blanks, the repeat's letters,
/// blanks, the spacer's letters, and the rest of the line with its end. Both
/// letter runs stand on the row's own line.
pub open spec fn pair_row_at(b: Seq<u8>, i: int) -> Option<(RepeatSpacerView, int)> {
    let e1 = run_end(b, i, ByteClass::Digit);
    let e2 = run_end(b, e1, ByteClass::Blank);
    let e3 = run_end(b, e2, ByteClass::Letter);
    let e4 = run_end(b, e3, ByteClass::Blank);
    let e5 = run_end(b, e4, ByteClass::Letter);
    let p = value_of(b, i, e1);
    let start = p - 1;
    let repeat_end = start + (e3 - e2);
    let spacer_end = repeat_end + (e5 - e4);
    if i < e1 && e1 < e2 && e2 < e3 && e3 < e4 && e4 < e5 && any_line_at(b, e5) is Some && 1 <= p
        && spacer_end <= usize::MAX {
        Some(
            (
                RepeatSpacerView {
                    repeat: b.subrange(e2, e3),
                    spacer: b.subrange(e4, e5),
                    start: start as usize,
                    end: spacer_end as usize,
                    spacer_start: repeat_end as usize,
                    spacer_end: spacer_end as usize,
                    repeat_start: start as usize,
                    repeat_end: repeat_end as usize,
                },
                any_line_at(b, e5)->0,
            ),
        )
    } else {
        None
    }
}

/// The last row of a table: a position, blanks, the repeat's letters, perhaps
/// blanks, and the line end; no second letter run stands on the line.
pub open spec fn last_row_at(b: Seq<u8>, i: int) -> Option<(RepeatOnlyView, int)> {
    let e1 = run_end(b, i, ByteClass::Digit);
    let e2 = run_end(b, e1, ByteClass::Blank);
    let e3 = run_end(b, e2, ByteClass::Letter);
    let e4 = run_end(b, e3, ByteClass::Blank);
    let p = value_of(b, i, e1);
    let start = p - 1;
    let end = start + (e3 - e2);
    if i < e1 && e1 < e2 && e2 < e3 && line_end_at(b, e4) is Some && 1 <= p && end
        <= usize::MAX {
        Some(
            (
                RepeatOnlyView {
                    repeat: b.subrange(e2, e3),
                    start: start as usize,
                    end: end as usize,
                },
                line_end_at(b, e4)->0,
            ),
        )
    } else {
        None
    }
}

/// A table row: a pair row where one matches, else a last row.
pub open spec fn row_at(b: Seq<u8>, i: int) -> Option<(RepeatView, int)> {
    match pair_row_at(b, i) {
        Some((r, j)) => Some((RepeatView::WithSpacer(r), j)),
        None => match last_row_at(b, i) {
            Some((r, j)) => Some((RepeatView::WithoutSpacer(r), j)),
            None => None,
        },
    }
}

/// The rows from `i` on, and where they end: rows with a spacer as long as
/// they match, then a last row if one matches, which closes the list.
pub open spec fn rows_from(b: Seq<u8>, i: int) -> (Seq<RepeatView>, int)
    decreases b.len() - i,
{
    match row_at(b, i) {
        Some((r, j)) => if i < j <= b.len() {
            match r {
                RepeatView::WithSpacer(_) => (seq![r] + rows_from(b, j).0, rows_from(b, j).1),
                RepeatView::WithoutSpacer(_) => (seq![r], j),
            }
        } else {
            (seq![], i)
        },
        None => (seq![], i),
    }
}

/// An array's header, `CRISPR <n> Range: <a> - <z>`, with spaces of any kind
/// and length after `<n>`. Yields the zero-based order `n - 1`, and the
/// zero-based half-open range from `a - 1` to `z`.
pub open spec fn header_at(b: Seq<u8>, i: int) -> Option<((usize, usize, usize), int)> {
    let p1 = i + crispr_word().len();
    let e1 = run_end(b, p1, ByteClass::Digit);
    let e2 = run_end(b, e1, ByteClass::Space);
    let p3 = e2 + range_word().len();
    let e3 = run_end(b, p3, ByteClass::Digit);
    let p4 = e3 + dash_word().len();
    let e4 = run_end(b, p4, ByteClass::Digit);
    let n = value_of(b, p1, e1);
    let a = value_of(b, p3, e3);
    let z = value_of(b, p4, e4);
    if has_word(b, i, crispr_word()) && p1 < e1 && e1 < e2 && has_word(b, e2, range_word()) && p3
        < e3 && has_word(b, e3, dash_word()) && p4 < e4 && 1 <= n <= usize::MAX && 1 <= a
        <= usize::MAX && z <= usize::MAX {
        Some((((n - 1) as usize, (a - 1) as usize, z as usize), e4))
    } else {
        None
    }
}

/// A line terminator at `i` if there is one, else nothing: where it ends.
pub open spec fn skip_blank(b: Seq<u8>, i: int) -> int {
    match line_end_at(b, i) {
        Some(j) => j,
        None => i,
    }
}

/// An array: an optional blank line, the header and its line end, two lines
/// of table head, one or more rows, and two lines of table foot.
pub open spec fn array_at(b: Seq<u8>, i: int) -> Option<(ArrayView, int)> {
    match header_at(b, skip_blank(b, i)) {
        None => None,
        Some((h, e1)) => match line_end_at(b, e1) {
            None => None,
            Some(e2) => match two_lines_at(b, e2) {
                None => None,
                Some(e3) => {
                    let rows = rows_from(b, e3);
                    match two_lines_at(b, rows.1) {
                        Some(e5) => if rows.0.len() > 0 {
                            Some(
                                (
                                    ArrayView {
                                        order: h.0,
                                        start: h.1,
                                        end: h.2,
                                        repeat_spacers: rows.0,
                                    },
                                    e5,
                                ),
                            )
                        } else {
                            None
                        },
                        None => None,
                    }
                },
            },
        },
    }
}

/// The arrays from `i` on, as many as match, and where they end.
pub open spec fn arrays_from(b: Seq<u8>, i: int) -> (Seq<ArrayView>, int)
    decreases b.len() - i,
{
    match array_at(b, i) {
        Some((a, j)) => if i < j <= b.len() {
            (seq![a] + arrays_from(b, j).0, arrays_from(b, j).1)
        } else {
            (seq![], i)
        },
        None => (seq![], i),
    }
}

/// An accession line, `Sequence '<accession>' (<bp> bp)`, without its line
/// end. The accession is every byte up to the next single quote.
pub open spec fn accession_at(b: Seq<u8>, i: int) -> Option<((Seq<u8>, usize), int)> {
    let p1 = i + sequence_word().len();
    let q = run_end(b, p1, ByteClass::NotQuote);
    let p2 = q + quote_paren_word().len();
    let e = run_end(b, p2, ByteClass::Digit);
    let bp = value_of(b, p2, e);
    if has_word(b, i, sequence_word()) && has_word(b, q, quote_paren_word()) && p2 < e && has_word(
        b,
        e,
        bp_word(),
    ) && bp <= usize::MAX {
        Some(((b.subrange(p1, q), bp as usize), e + bp_word().len()))
    } else {
        None
    }
}

/// The four lines that close a contig: blank, any, blank, blank.
pub open spec fn footer_at(b: Seq<u8>, i: int) -> Option<int> {
    match line_end_at(b, i) {
        None => None,
        Some(e1) => match any_line_at(b, e1) {
            None => None,
            Some(e2) => match line_end_at(b, e2) {
                None => None,
                Some(e3) => line_end_at(b, e3),
            },
        },
    }
}

/// A contig: its accession line and line end, one or more arrays, and the
/// footer.
pub open spec fn contig_at(b: Seq<u8>, i: int) -> Option<(ContigView, int)> {
    match accession_at(b, i) {
        None => None,
        Some((acc, e1)) => match line_end_at(b, e1) {
            None => None,
            Some(e2) => {
                let arrays = arrays_from(b, e2);
                match footer_at(b, arrays.1) {
                    Some(e3) => if arrays.0.len() > 0 {
                        Some((ContigView { accession: acc.0, bp: acc.1, arrays: arrays.0 }, e3))
                    } else {
                        None
                    },
                    None => None,
                }
            },
        },
    }
}

/// The contigs from `i` on, as many as match, and where they end.
pub open spec fn contigs_from(b: Seq<u8>, i: int) -> (Seq<ContigView>, int)
    decreases b.len() - i,
{
    match contig_at(b, i) {
        Some((c, j)) => if i < j <= b.len() {
            (seq![c] + contigs_from(b, j).0, contigs_from(b, j).1)
        } else {
            (seq![], i)
        },
        None => (seq![], i),
    }
}

/// A report: contigs, one after the other, up to the end of the text.
pub open spec fn document(b: Seq<u8>) -> Option<Seq<ContigView>> {
    let cs = contigs_from(b, 0);
    if cs.1 == b.len() {
        Some(cs.0)
    } else {
        None
    }
}

} // verus!
