//! What holds of every report that the grammar accepts.
use crate::grammar::{
    ByteClass, accession_at, array_at, arrays_from, contig_at, contigs_from, crispr_word, dash_word,
    decimal, document, has_word, header_at, in_class, line_end_at, pair_row_at, range_word, row_at,
    run_end, rows_from, sequence_word, skip_blank, two_lines_at, value_of,
};
use crate::records::{ArrayView, ContigView, RepeatView};
use vstd::prelude::*;

verus! {

/// Every byte of `s` is of class `c`.
pub open spec fn all_in(s: Seq<u8>, c: ByteClass) -> bool {
    forall|k: int| 0 <= k < s.len() ==> in_class(c, #[trigger] s[k])
}

/// A run of class `c` that fills `b[i..j]` and stops at `j` ends there.
proof fn lemma_run_ends(b: Seq<u8>, i: int, j: int, c: ByteClass)
    requires
        0 <= i <= j <= b.len(),
        forall|k: int| i <= k < j ==> in_class(c, #[trigger] b[k]),
        j == b.len() || !in_class(c, b[j]),
    ensures
        run_end(b, i, c) == j,
    decreases j - i,
{
    if i < j {
        lemma_run_ends(b, i + 1, j, c);
    }
}

/// A row with a repeat and a spacer, at the 1-based position `p` written by
/// `digits`, is parsed with its repeat at `p - 1 .. p - 1 + R` and its spacer
/// right after, at `p - 1 + R .. p - 1 + R + S`, where `R` and `S` are their
/// lengths; the spacer starts where the repeat ends. The gaps are spaces and
/// tabs. Whatever follows the
/// row's line end is left to the next rule.
pub proof fn lemma_pair_row_offsets(
    digits: Seq<u8>,
    gap1: Seq<u8>,
    repeat: Seq<u8>,
    gap2: Seq<u8>,
    spacer: Seq<u8>,
    tail: Seq<u8>,
    rest: Seq<u8>,
)
    requires
        digits.len() > 0 && all_in(digits, ByteClass::Digit),
        gap1.len() > 0 && all_in(gap1, ByteClass::Blank),
        repeat.len() > 0 && all_in(repeat, ByteClass::Letter),
        gap2.len() > 0 && all_in(gap2, ByteClass::Blank),
        spacer.len() > 0 && all_in(spacer, ByteClass::Letter),
        all_in(tail, ByteClass::LineText),
        tail.len() == 0 || !in_class(ByteClass::Letter, tail[0]),
        1 <= decimal(digits),
        decimal(digits) - 1 + repeat.len() + spacer.len() <= usize::MAX,
    ensures
        ({
            let row = digits + gap1 + repeat + gap2 + spacer + tail + seq!['\n' as u8];
            let p = decimal(digits) as int;
            let rr = repeat.len() as int;
            let ss = spacer.len() as int;
            row_at(row + rest, 0) matches Some((RepeatView::WithSpacer(r), n)) && n == row.len()
                && r.repeat == repeat && r.spacer == spacer
                && r.repeat_start == p - 1 && r.repeat_end == p - 1 + rr
                && r.spacer_start == p - 1 + rr && r.spacer_end == p - 1 + rr + ss
                && r.spacer_start == r.repeat_end
                && r.start == r.repeat_start && r.end == r.spacer_end
        }),
{
    let row = digits + gap1 + repeat + gap2 + spacer + tail + seq!['\n' as u8];
    let b = row + rest;
    let o1 = digits.len() as int;
    let o2 = o1 + gap1.len();
    let o3 = o2 + repeat.len();
    let o4 = o3 + gap2.len();
    let o5 = o4 + spacer.len();
    let o6 = o5 + tail.len();
    assert(row.len() == o6 + 1);
    assert forall|k: int| 0 <= k < o1 implies b[k] == digits[k] by {}
    assert forall|k: int| o1 <= k < o2 implies b[k] == gap1[k - o1] by {}
    assert forall|k: int| o2 <= k < o3 implies b[k] == repeat[k - o2] by {}
    assert forall|k: int| o3 <= k < o4 implies b[k] == gap2[k - o3] by {}
    assert forall|k: int| o4 <= k < o5 implies b[k] == spacer[k - o4] by {}
    assert forall|k: int| o5 <= k < o6 implies b[k] == tail[k - o5] by {}
    assert(b[o6] == '\n' as u8);
    lemma_run_ends(b, 0, o1, ByteClass::Digit);
    lemma_run_ends(b, o1, o2, ByteClass::Blank);
    lemma_run_ends(b, o2, o3, ByteClass::Letter);
    lemma_run_ends(b, o3, o4, ByteClass::Blank);
    lemma_run_ends(b, o4, o5, ByteClass::Letter);
    lemma_run_ends(b, o5, o6, ByteClass::LineText);
    assert(b.subrange(0, o1) =~= digits);
    assert(b.subrange(o2, o3) =~= repeat);
    assert(b.subrange(o4, o5) =~= spacer);
    assert(value_of(b, 0, o1) == decimal(digits));
}

/// The last row of a table, at the 1-based position `p` written by `digits`,
/// is parsed as a repeat without a spacer that spans exactly the repeat's
/// length `R` from `p - 1`, and ends with its line: the form with a spacer
/// does not match it, whatever the next line holds. The gaps are spaces and
/// tabs; none but the first need be there, and no second letter run follows.
pub proof fn lemma_last_row_length(
    digits: Seq<u8>,
    gap1: Seq<u8>,
    repeat: Seq<u8>,
    trail: Seq<u8>,
    rest: Seq<u8>,
)
    requires
        digits.len() > 0 && all_in(digits, ByteClass::Digit),
        gap1.len() > 0 && all_in(gap1, ByteClass::Blank),
        repeat.len() > 0 && all_in(repeat, ByteClass::Letter),
        all_in(trail, ByteClass::Blank),
        1 <= decimal(digits),
        decimal(digits) - 1 + repeat.len() <= usize::MAX,
    ensures
        ({
            let row = digits + gap1 + repeat + trail + seq!['\n' as u8];
            &&& pair_row_at(row + rest, 0) is None
            &&& (row_at(row + rest, 0) matches Some((RepeatView::WithoutSpacer(r), n))
                && n == row.len() && r.repeat == repeat && r.start == decimal(digits) - 1
                && r.end - r.start == repeat.len())
        }),
{
    let row = digits + gap1 + repeat + trail + seq!['\n' as u8];
    let b = row + rest;
    let o1 = digits.len() as int;
    let o2 = o1 + gap1.len();
    let o3 = o2 + repeat.len();
    let o4 = o3 + trail.len();
    assert forall|k: int| 0 <= k < o1 implies b[k] == digits[k] by {}
    assert forall|k: int| o1 <= k < o2 implies b[k] == gap1[k - o1] by {}
    assert forall|k: int| o2 <= k < o3 implies b[k] == repeat[k - o2] by {}
    assert forall|k: int| o3 <= k < o4 implies b[k] == trail[k - o3] by {}
    assert(b[o4] == '\n' as u8);
    lemma_run_ends(b, 0, o1, ByteClass::Digit);
    lemma_run_ends(b, o1, o2, ByteClass::Blank);
    lemma_run_ends(b, o2, o3, ByteClass::Letter);
    lemma_run_ends(b, o3, o4, ByteClass::Blank);
    lemma_run_ends(b, o4, o4, ByteClass::Letter);
    assert(b.subrange(0, o1) =~= digits);
    assert(b.subrange(o2, o3) =~= repeat);
    assert(value_of(b, 0, o1) == decimal(digits));
}

/// A header `CRISPR <n> Range: <a> - <z>` gives the zero-based order
/// `n - 1`, the start `a - 1` and the end `z`; so the start is below the end
/// whenever `a < z`.
pub proof fn lemma_header_fields(
    n_digits: Seq<u8>,
    gap: Seq<u8>,
    a_digits: Seq<u8>,
    z_digits: Seq<u8>,
    rest: Seq<u8>,
)
    requires
        n_digits.len() > 0 && all_in(n_digits, ByteClass::Digit),
        gap.len() > 0 && all_in(gap, ByteClass::Space),
        a_digits.len() > 0 && all_in(a_digits, ByteClass::Digit),
        z_digits.len() > 0 && all_in(z_digits, ByteClass::Digit),
        rest.len() == 0 || !in_class(ByteClass::Digit, rest[0]),
        1 <= decimal(n_digits) <= usize::MAX,
        1 <= decimal(a_digits) <= usize::MAX,
        decimal(z_digits) <= usize::MAX,
    ensures
        ({
            let line = crispr_word() + n_digits + gap + range_word() + a_digits + dash_word()
                + z_digits;
            let a = decimal(a_digits) as int;
            let z = decimal(z_digits) as int;
            header_at(line + rest, 0) matches Some((h, e)) && e == line.len()
                && h.0 == decimal(n_digits) - 1 && h.1 == a - 1 && h.2 == z
                && (a < z ==> h.1 < h.2)
        }),
{
    let line = crispr_word() + n_digits + gap + range_word() + a_digits + dash_word() + z_digits;
    let b = line + rest;
    let p1 = crispr_word().len() as int;
    let o1 = p1 + n_digits.len();
    let o2 = o1 + gap.len();
    let p3 = o2 + range_word().len();
    let o3 = p3 + a_digits.len();
    let p4 = o3 + dash_word().len();
    let o4 = p4 + z_digits.len();
    assert forall|k: int| p1 <= k < o1 implies b[k] == n_digits[k - p1] by {}
    assert forall|k: int| o1 <= k < o2 implies b[k] == gap[k - o1] by {}
    assert forall|k: int| p3 <= k < o3 implies b[k] == a_digits[k - p3] by {}
    assert forall|k: int| p4 <= k < o4 implies b[k] == z_digits[k - p4] by {}
    assert(b.subrange(0, p1) =~= crispr_word());
    assert(b.subrange(o2, p3) =~= range_word());
    assert(b.subrange(o3, p4) =~= dash_word());
    assert(b[o2] == 'R' as u8);
    assert(b[o3] == ' ' as u8);
    assert(o4 < b.len() ==> b[o4] == rest[0]);
    lemma_run_ends(b, p1, o1, ByteClass::Digit);
    lemma_run_ends(b, o1, o2, ByteClass::Space);
    lemma_run_ends(b, p3, o3, ByteClass::Digit);
    lemma_run_ends(b, p4, o4, ByteClass::Digit);
    assert(b.subrange(p1, o1) =~= n_digits);
    assert(b.subrange(p3, o3) =~= a_digits);
    assert(b.subrange(p4, o4) =~= z_digits);
}

/// The repeat's coordinates agree with its text: the repeat spans its length
/// from `start`; a spacer, where there is one, starts where the repeat ends and
/// spans its own length up to `end`.
pub open spec fn coordinates_agree(r: RepeatView) -> bool {
    match r {
        RepeatView::WithSpacer(x) => {
            &&& x.repeat_start == x.start
            &&& x.repeat_end - x.repeat_start == x.repeat.len()
            &&& x.spacer_start == x.repeat_end
            &&& x.spacer_end - x.spacer_start == x.spacer.len()
            &&& x.end == x.spacer_end
        },
        RepeatView::WithoutSpacer(x) => x.end - x.start == x.repeat.len(),
    }
}

/// Each repeat's coordinates agree with its text, and only the last repeat
/// may lack a spacer.
pub open spec fn rows_well_formed(rows: Seq<RepeatView>) -> bool {
    &&& forall|k: int| 0 <= k < rows.len() ==> coordinates_agree(#[trigger] rows[k])
    &&& forall|k: int| 0 <= k < rows.len() - 1 ==> (#[trigger] rows[k]) is WithSpacer
}

/// The array has at least one repeat, each repeat's coordinates agree with
/// its text, and only the last repeat may lack a spacer.
pub open spec fn array_well_formed(a: ArrayView) -> bool {
    &&& a.repeat_spacers.len() > 0
    &&& rows_well_formed(a.repeat_spacers)
}

/// The contig has at least one array, and each array is well formed.
pub open spec fn contig_well_formed(c: ContigView) -> bool {
    &&& c.arrays.len() > 0
    &&& forall|k: int| 0 <= k < c.arrays.len() ==> array_well_formed(#[trigger] c.arrays[k])
}

/// Every row that the grammar yields has coordinates that agree with its
/// text: a repeat spans its length from `start`, and a spacer starts where its
/// repeat ends and spans its own length up to `end`.
pub proof fn lemma_row_coordinates_agree(b: Seq<u8>, i: int)
    requires
        row_at(b, i) is Some,
    ensures
        coordinates_agree((row_at(b, i)->0).0),
{
}

proof fn lemma_rows_well_formed(b: Seq<u8>, i: int)
    ensures
        rows_well_formed(rows_from(b, i).0),
    decreases b.len() - i,
{
    match row_at(b, i) {
        Some((r, j)) => if i < j <= b.len() {
            if r is WithSpacer {
                lemma_rows_well_formed(b, j);
                let tail = rows_from(b, j).0;
                let rows = rows_from(b, i).0;
                assert(rows =~= seq![r] + tail);
                assert forall|k: int| 0 <= k < rows.len() implies coordinates_agree(
                    #[trigger] rows[k],
                ) by {
                    if k > 0 {
                        assert(rows[k] == tail[k - 1]);
                    }
                }
                assert forall|k: int| 0 <= k < rows.len() - 1 implies (
                #[trigger] rows[k]) is WithSpacer by {
                    if k > 0 {
                        assert(rows[k] == tail[k - 1]);
                    }
                }
            }
        },
        None => {},
    }
}

/// A table of rows that all have a spacer needs no last row: where pair rows
/// follow one another from `ends[0]`, each ending where the next begins, and
/// the text after the last stops with no position, the rows are exactly
/// those pair rows, in order, and end there.
pub proof fn lemma_pair_rows_collected(b: Seq<u8>, ends: Seq<int>)
    requires
        ends.len() > 0,
        forall|m: int|
            0 <= m < ends.len() - 1 ==> #[trigger] pair_row_at(b, ends[m]) is Some && (pair_row_at(
                b,
                ends[m],
            )->0).1 == ends[m + 1],
        0 <= ends.last() <= b.len(),
        ends.last() == b.len() || !in_class(ByteClass::Digit, b[ends.last()]),
    ensures
        ({
            let rows = rows_from(b, ends[0]);
            &&& rows.1 == ends.last()
            &&& rows.0.len() == ends.len() - 1
            &&& forall|m: int|
                0 <= m < rows.0.len() ==> (#[trigger] rows.0[m]) == RepeatView::WithSpacer(
                    (pair_row_at(b, ends[m])->0).0,
                )
        }),
    decreases ends.len(),
{
    let i = ends[0];
    if ends.len() == 1 {
        assert(run_end(b, i, ByteClass::Digit) == i);
    } else {
        let rest = ends.drop_first();
        assert forall|m: int| 0 <= m < rest.len() - 1 implies #[trigger] pair_row_at(
            b,
            rest[m],
        ) is Some && (pair_row_at(b, rest[m])->0).1 == rest[m + 1] by {
            assert(pair_row_at(b, ends[m + 1]) is Some);
        }
        lemma_pair_rows_collected(b, rest);
        assert(pair_row_at(b, ends[0]) is Some);
        let j = ends[1];
        lemma_row_ends_ahead(b, i);
        let rows = rows_from(b, i);
        let tail = rows_from(b, j);
        assert(rows.0 =~= seq![RepeatView::WithSpacer((pair_row_at(b, i)->0).0)] + tail.0);
        assert forall|m: int| 0 <= m < rows.0.len() implies (#[trigger] rows.0[m])
            == RepeatView::WithSpacer((pair_row_at(b, ends[m])->0).0) by {
            if m > 0 {
                assert(rows.0[m] == tail.0[m - 1]);
                assert(rest[m - 1] == ends[m]);
            }
        }
    }
}

proof fn lemma_row_ends_ahead(b: Seq<u8>, i: int)
    requires
        0 <= i,
        row_at(b, i) is Some,
    ensures
        i < (row_at(b, i)->0).1 <= b.len(),
{
    let e1 = run_end(b, i, ByteClass::Digit);
    let e2 = run_end(b, e1, ByteClass::Blank);
    let e3 = run_end(b, e2, ByteClass::Letter);
    let e4 = run_end(b, e3, ByteClass::Blank);
    let e5 = run_end(b, e4, ByteClass::Letter);
    lemma_run_bounds(b, i, ByteClass::Digit);
    lemma_run_bounds(b, e1, ByteClass::Blank);
    lemma_run_bounds(b, e2, ByteClass::Letter);
    lemma_run_bounds(b, e3, ByteClass::Blank);
    lemma_run_bounds(b, e4, ByteClass::Letter);
    lemma_run_bounds(b, e5, ByteClass::LineText);
}

proof fn lemma_run_bounds(b: Seq<u8>, i: int, c: ByteClass)
    ensures
        i <= run_end(b, i, c),
        0 <= i <= b.len() ==> run_end(b, i, c) <= b.len(),
    decreases b.len() - i,
{
    if 0 <= i < b.len() && in_class(c, b[i]) {
        lemma_run_bounds(b, i + 1, c);
    }
}

/// Every array that the grammar yields has at least one repeat; each repeat's
/// coordinates agree with its text, and only the last repeat may lack a
/// spacer.
pub proof fn lemma_array_well_formed(b: Seq<u8>, i: int)
    requires
        array_at(b, i) is Some,
    ensures
        array_well_formed((array_at(b, i)->0).0),
{
    let header = header_at(b, skip_blank(b, i))->0;
    let e1 = header.1;
    let e2 = line_end_at(b, e1)->0;
    let e3 = two_lines_at(b, e2)->0;
    lemma_rows_well_formed(b, e3);
}

proof fn lemma_arrays_well_formed(b: Seq<u8>, i: int)
    ensures
        forall|k: int|
            0 <= k < arrays_from(b, i).0.len() ==> array_well_formed(
                #[trigger] arrays_from(b, i).0[k],
            ),
    decreases b.len() - i,
{
    match array_at(b, i) {
        Some((a, j)) => if i < j <= b.len() {
            lemma_arrays_well_formed(b, j);
            lemma_array_well_formed(b, i);
            let tail = arrays_from(b, j).0;
            assert forall|k: int| 0 <= k < arrays_from(b, i).0.len() implies array_well_formed(
                #[trigger] arrays_from(b, i).0[k],
            ) by {
                if k > 0 {
                    assert(arrays_from(b, i).0[k] == tail[k - 1]);
                }
            }
        },
        None => {},
    }
}

proof fn lemma_contigs_well_formed(b: Seq<u8>, i: int)
    ensures
        forall|k: int|
            0 <= k < contigs_from(b, i).0.len() ==> contig_well_formed(
                #[trigger] contigs_from(b, i).0[k],
            ),
    decreases b.len() - i,
{
    match contig_at(b, i) {
        Some((c, j)) => if i < j <= b.len() {
            lemma_contigs_well_formed(b, j);
            let accession = accession_at(b, i)->0;
            let e1 = accession.1;
            let e2 = line_end_at(b, e1)->0;
            lemma_arrays_well_formed(b, e2);
            let tail = contigs_from(b, j).0;
            assert forall|k: int| 0 <= k < contigs_from(b, i).0.len() implies contig_well_formed(
                #[trigger] contigs_from(b, i).0[k],
            ) by {
                if k > 0 {
                    assert(contigs_from(b, i).0[k] == tail[k - 1]);
                }
            }
        },
        None => {},
    }
}

/// In a parsed report, every contig has at least one array, every array at
/// least one repeat, every repeat's coordinates agree with its text, and only
/// the last repeat of an array may lack a spacer.
pub proof fn lemma_document_well_formed(b: Seq<u8>)
    requires
        document(b) is Some,
    ensures
        forall|k: int|
            0 <= k < document(b)->0.len() ==> contig_well_formed(#[trigger] document(b)->0[k]),
{
    lemma_contigs_well_formed(b, 0);
}

/// A non-empty text that does not open with a contig is no report: parsing
/// never yields a partial list.
pub proof fn lemma_unmatched_start_rejected(b: Seq<u8>)
    requires
        b.len() > 0,
        contig_at(b, 0) is None,
    ensures
        document(b) is None,
{
}

/// A text that opens an accession line and never closes its quote is no
/// report.
pub proof fn lemma_unclosed_accession_rejected(b: Seq<u8>)
    requires
        has_word(b, 0, sequence_word()),
        forall|k: int| sequence_word().len() <= k < b.len() ==> b[k] != '\'' as u8,
    ensures
        document(b) is None,
{
    let p1 = sequence_word().len() as int;
    lemma_run_ends(b, p1, b.len() as int, ByteClass::NotQuote);
    assert(accession_at(b, 0) is None);
    lemma_unmatched_start_rejected(b);
}

} // verus!
