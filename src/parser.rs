//! The parser: one executable rule for each rule of the grammar, each proved
//! to find exactly what the grammar describes.
use crate::grammar::{
    ByteClass, accession_at, array_at, arrays_from, bp_word, contig_at, contigs_from, crispr_word,
    dash_word, document, footer_at, header_at, last_row_at, pair_row_at, quote_paren_word,
    range_word, row_at, rows_from, sequence_word,
};
use crate::records::{
    Array, ArrayView, Contig, ContigView, ParseError, Repeat, RepeatOnly, RepeatSpacer, RepeatView,
    array_views, contig_views, repeat_views,
};
use crate::text::{cut, cuttable, opt_pos, scan, skip_empty_line, skip_one_line, value, word_at};
use vstd::prelude::*;
use vstd::string::StringSliceAdditionalSpecFns;

verus! {

/// `r` is what `rule` finds at `i` in `b`: the same value and end, or nothing
/// where the rule does not match. A match ends past `i`, where the text can be
/// cut.
pub open spec fn found<T: View>(
    r: Option<(T, usize)>,
    rule: Option<(T::V, int)>,
    b: Seq<u8>,
    i: int,
) -> bool {
    match r {
        Some((x, j)) => rule == Some((x@, j as int)) && i < j <= b.len() && cuttable(b, j as int),
        None => rule is None,
    }
}

/// A row with a repeat and a spacer.
fn parse_repeat_with_spacer<'a>(s: &'a str, b: &[u8], i: usize) -> (r: Option<
    (RepeatSpacer<'a>, usize),
>)
    requires
        b@ == s.spec_bytes(),
        i <= b@.len(),
    ensures
        found(r, pair_row_at(b@, i as int), b@, i as int),
{
    let e1 = scan(b, i, ByteClass::Digit);
    let e2 = scan(b, e1, ByteClass::Blank);
    let e3 = scan(b, e2, ByteClass::Letter);
    let e4 = scan(b, e3, ByteClass::Blank);
    let e5 = scan(b, e4, ByteClass::Letter);
    if !(i < e1 && e1 < e2 && e2 < e3 && e3 < e4 && e4 < e5) {
        return None;
    }
    let j = skip_one_line(b, e5)?;
    let p = value(b, i, e1)?;
    if p == 0 {
        return None;
    }
    let start = p - 1;
    let repeat_len = e3 - e2;
    let spacer_len = e5 - e4;
    if repeat_len > usize::MAX - start || spacer_len > usize::MAX - start - repeat_len {
        return None;
    }
    let repeat_end = start + repeat_len;
    let spacer_end = repeat_end + spacer_len;
    let repeat = cut(s, e2, e3);
    let spacer = cut(s, e4, e5);
    Some(
        (
            RepeatSpacer {
                repeat,
                spacer,
                start,
                end: spacer_end,
                spacer_start: repeat_end,
                spacer_end,
                repeat_start: start,
                repeat_end,
            },
            j,
        ),
    )
}

/// The last row of a table, with a repeat and no spacer.
fn parse_repeat_only<'a>(s: &'a str, b: &[u8], i: usize) -> (r: Option<(RepeatOnly<'a>, usize)>)
    requires
        b@ == s.spec_bytes(),
        i <= b@.len(),
    ensures
        found(r, last_row_at(b@, i as int), b@, i as int),
{
    let e1 = scan(b, i, ByteClass::Digit);
    let e2 = scan(b, e1, ByteClass::Blank);
    let e3 = scan(b, e2, ByteClass::Letter);
    let e4 = scan(b, e3, ByteClass::Blank);
    if !(i < e1 && e1 < e2 && e2 < e3) {
        return None;
    }
    let j = skip_empty_line(b, e4)?;
    let p = value(b, i, e1)?;
    if p == 0 {
        return None;
    }
    let start = p - 1;
    let repeat_len = e3 - e2;
    if repeat_len > usize::MAX - start {
        return None;
    }
    let repeat = cut(s, e2, e3);
    Some((RepeatOnly { repeat, start, end: start + repeat_len }, j))
}

/// A table row: with a spacer where that form matches, else without.
fn read_row<'a>(s: &'a str, b: &[u8], i: usize) -> (r: Option<(Repeat<'a>, usize)>)
    requires
        b@ == s.spec_bytes(),
        i <= b@.len(),
    ensures
        found(r, row_at(b@, i as int), b@, i as int),
{
    match parse_repeat_with_spacer(s, b, i) {
        Some((x, j)) => Some((Repeat::WithSpacer(x), j)),
        None => match parse_repeat_only(s, b, i) {
            Some((x, j)) => Some((Repeat::WithoutSpacer(x), j)),
            None => None,
        },
    }
}

/// The rows from `i` on: rows with a spacer as long as they match, then a
/// last row if one matches.
fn read_rows<'a>(s: &'a str, b: &[u8], i: usize) -> (r: (Vec<Repeat<'a>>, usize))
    requires
        b@ == s.spec_bytes(),
        i <= b@.len(),
    ensures
        rows_from(b@, i as int) == (repeat_views(r.0@), r.1 as int),
        i <= r.1 <= b@.len(),
        r.1 == i || cuttable(b@, r.1 as int),
{
    let mut acc: Vec<Repeat<'a>> = Vec::new();
    let mut k: usize = i;
    let mut more = true;
    assert(repeat_views(acc@) + rows_from(b@, i as int).0 =~= rows_from(b@, i as int).0);
    while more
        invariant
            b@ == s.spec_bytes(),
            i <= k <= b@.len(),
            k == i || cuttable(b@, k as int),
            more ==> rows_from(b@, i as int) == (
                repeat_views(acc@) + rows_from(b@, k as int).0,
                rows_from(b@, k as int).1,
            ),
            !more ==> rows_from(b@, i as int) == (repeat_views(acc@), k as int),
        decreases b@.len() - k + if more { 1int } else { 0int },
    {
        match read_row(s, b, k) {
            Some((x, j)) => {
                let last = match x {
                    Repeat::WithSpacer(_) => false,
                    Repeat::WithoutSpacer(_) => true,
                };
                let ghost before = acc@;
                acc.push(x);
                assert(repeat_views(acc@) =~= repeat_views(before).push(x@));
                if last {
                    assert(repeat_views(before) + rows_from(b@, k as int).0 =~= repeat_views(
                        acc@,
                    ));
                    more = false;
                } else {
                    assert(repeat_views(before) + rows_from(b@, k as int).0 =~= repeat_views(
                        acc@,
                    ) + rows_from(b@, j as int).0);
                }
                k = j;
            },
            None => {
                assert(repeat_views(acc@) + rows_from(b@, k as int).0 =~= repeat_views(acc@));
                more = false;
            },
        }
    }
    (acc, k)
}

fn crispr_bytes() -> (w: [u8; 7])
    ensures
        w@ == crispr_word(),
{
    let w = ['C' as u8, 'R' as u8, 'I' as u8, 'S' as u8, 'P' as u8, 'R' as u8, ' ' as u8];
    assert(w@ =~= crispr_word());
    w
}

fn range_bytes() -> (w: [u8; 7])
    ensures
        w@ == range_word(),
{
    let w = ['R' as u8, 'a' as u8, 'n' as u8, 'g' as u8, 'e' as u8, ':' as u8, ' ' as u8];
    assert(w@ =~= range_word());
    w
}

fn dash_bytes() -> (w: [u8; 3])
    ensures
        w@ == dash_word(),
{
    let w = [' ' as u8, '-' as u8, ' ' as u8];
    assert(w@ =~= dash_word());
    w
}

fn sequence_bytes() -> (w: [u8; 10])
    ensures
        w@ == sequence_word(),
{
    let w = [
        'S' as u8, 'e' as u8, 'q' as u8, 'u' as u8, 'e' as u8, 'n' as u8, 'c' as u8, 'e' as u8,
        ' ' as u8, '\'' as u8,
    ];
    assert(w@ =~= sequence_word());
    w
}

fn quote_paren_bytes() -> (w: [u8; 3])
    ensures
        w@ == quote_paren_word(),
{
    let w = ['\'' as u8, ' ' as u8, '(' as u8];
    assert(w@ =~= quote_paren_word());
    w
}

fn bp_bytes() -> (w: [u8; 4])
    ensures
        w@ == bp_word(),
{
    let w = [' ' as u8, 'b' as u8, 'p' as u8, ')' as u8];
    assert(w@ =~= bp_word());
    w
}

/// An array's header: its order and its zero-based half-open range.
fn read_header(b: &[u8], i: usize) -> (r: Option<((usize, usize, usize), usize)>)
    requires
        i <= b@.len(),
    ensures
        match r {
            Some((h, j)) => header_at(b@, i as int) == Some((h, j as int)) && i < j <= b@.len()
                && cuttable(b@, j as int),
            None => header_at(b@, i as int) is None,
        },
{
    let crispr = crispr_bytes();
    if !word_at(b, i, crispr.as_slice()) {
        return None;
    }
    let p1 = i + crispr.len();
    let e1 = scan(b, p1, ByteClass::Digit);
    let e2 = scan(b, e1, ByteClass::Space);
    if !(p1 < e1 && e1 < e2) {
        return None;
    }
    let range = range_bytes();
    if !word_at(b, e2, range.as_slice()) {
        return None;
    }
    let p3 = e2 + range.len();
    let e3 = scan(b, p3, ByteClass::Digit);
    if !(p3 < e3) {
        return None;
    }
    let dash = dash_bytes();
    if !word_at(b, e3, dash.as_slice()) {
        return None;
    }
    let p4 = e3 + dash.len();
    let e4 = scan(b, p4, ByteClass::Digit);
    if !(p4 < e4) {
        return None;
    }
    let n = value(b, p1, e1)?;
    let a = value(b, p3, e3)?;
    let z = value(b, p4, e4)?;
    if n == 0 || a == 0 {
        return None;
    }
    Some(((n - 1, a - 1, z), e4))
}

/// A CRISPR array.
fn read_array<'a>(s: &'a str, b: &[u8], i: usize) -> (r: Option<(Array<'a>, usize)>)
    requires
        b@ == s.spec_bytes(),
        i <= b@.len(),
    ensures
        found(r, array_at(b@, i as int), b@, i as int),
{
    let h = match skip_empty_line(b, i) {
        Some(j) => j,
        None => i,
    };
    let ((order, start, end), e1) = read_header(b, h)?;
    let e2 = skip_empty_line(b, e1)?;
    let e3 = skip_one_line(b, e2)?;
    let e4 = skip_one_line(b, e3)?;
    let (repeat_spacers, e5) = read_rows(s, b, e4);
    let e6 = skip_one_line(b, e5)?;
    let e7 = skip_one_line(b, e6)?;
    if repeat_spacers.len() == 0 {
        return None;
    }
    Some((Array { order, start, end, repeat_spacers }, e7))
}

/// The arrays from `i` on, as many as match.
fn read_arrays<'a>(s: &'a str, b: &[u8], i: usize) -> (r: (Vec<Array<'a>>, usize))
    requires
        b@ == s.spec_bytes(),
        i <= b@.len(),
    ensures
        arrays_from(b@, i as int) == (array_views(r.0@), r.1 as int),
        i <= r.1 <= b@.len(),
        r.1 == i || cuttable(b@, r.1 as int),
{
    let mut acc: Vec<Array<'a>> = Vec::new();
    let mut k: usize = i;
    assert(array_views(acc@) + arrays_from(b@, i as int).0 =~= arrays_from(b@, i as int).0);
    loop
        invariant
            b@ == s.spec_bytes(),
            i <= k <= b@.len(),
            k == i || cuttable(b@, k as int),
            arrays_from(b@, i as int) == (
                array_views(acc@) + arrays_from(b@, k as int).0,
                arrays_from(b@, k as int).1,
            ),
        ensures
            arrays_from(b@, k as int) == (Seq::<ArrayView>::empty(), k as int),
        decreases b@.len() - k,
    {
        match read_array(s, b, k) {
            Some((x, j)) => {
                let ghost before = acc@;
                acc.push(x);
                assert(array_views(acc@) =~= array_views(before).push(x@));
                assert(array_views(before) + arrays_from(b@, k as int).0 =~= array_views(acc@)
                    + arrays_from(b@, j as int).0);
                k = j;
            },
            None => {
                break;
            },
        }
    }
    assert(array_views(acc@) + arrays_from(b@, k as int).0 =~= array_views(acc@));
    (acc, k)
}

/// An accession line: the accession and the contig's length in base pairs.
fn read_accession<'a>(s: &'a str, b: &[u8], i: usize) -> (r: Option<((&'a str, usize), usize)>)
    requires
        b@ == s.spec_bytes(),
        i <= b@.len(),
    ensures
        match r {
            Some(((acc, bp), j)) => accession_at(b@, i as int) == Some(
                ((acc.spec_bytes(), bp), j as int),
            ) && i < j <= b@.len() && cuttable(b@, j as int),
            None => accession_at(b@, i as int) is None,
        },
{
    let sequence = sequence_bytes();
    if !word_at(b, i, sequence.as_slice()) {
        return None;
    }
    let p1 = i + sequence.len();
    let q = scan(b, p1, ByteClass::NotQuote);
    let quote_paren = quote_paren_bytes();
    if !word_at(b, q, quote_paren.as_slice()) {
        return None;
    }
    let p2 = q + quote_paren.len();
    let e = scan(b, p2, ByteClass::Digit);
    if !(p2 < e) {
        return None;
    }
    let bp_end = bp_bytes();
    if !word_at(b, e, bp_end.as_slice()) {
        return None;
    }
    let bp = value(b, p2, e)?;
    assert(b@.subrange(i as int, p1 as int)[9] == b@[p1 - 1]);
    assert(b@.subrange(q as int, q + 3)[0] == b@[q as int]);
    let accession = cut(s, p1, q);
    assert(b@.subrange(e as int, e + 4)[3] == b@[e + 3]);
    Some(((accession, bp), e + bp_end.len()))
}

/// The four lines that close a contig.
fn parse_footer(b: &[u8], i: usize) -> (r: Option<usize>)
    requires
        i <= b@.len(),
    ensures
        opt_pos(r) == footer_at(b@, i as int),
        r matches Some(j) ==> i < j <= b@.len() && b@[j - 1] == '\n' as u8,
{
    let e1 = skip_empty_line(b, i)?;
    let e2 = skip_one_line(b, e1)?;
    let e3 = skip_empty_line(b, e2)?;
    skip_empty_line(b, e3)
}

/// A contig: its accession line, its arrays and its footer.
fn read_contig<'a>(s: &'a str, b: &[u8], i: usize) -> (r: Option<(Contig<'a>, usize)>)
    requires
        b@ == s.spec_bytes(),
        i <= b@.len(),
    ensures
        found(r, contig_at(b@, i as int), b@, i as int),
{
    let ((accession, bp), e1) = read_accession(s, b, i)?;
    let e2 = skip_empty_line(b, e1)?;
    let (arrays, e3) = read_arrays(s, b, e2);
    let e4 = parse_footer(b, e3)?;
    if arrays.len() == 0 {
        return None;
    }
    Some((Contig { accession, bp, arrays }, e4))
}

/// The contigs from `i` on, as many as match.
fn read_contigs<'a>(s: &'a str, b: &[u8], i: usize) -> (r: (Vec<Contig<'a>>, usize))
    requires
        b@ == s.spec_bytes(),
        i <= b@.len(),
    ensures
        contigs_from(b@, i as int) == (contig_views(r.0@), r.1 as int),
        i <= r.1 <= b@.len(),
        r.1 == i || cuttable(b@, r.1 as int),
{
    let mut acc: Vec<Contig<'a>> = Vec::new();
    let mut k: usize = i;
    assert(contig_views(acc@) + contigs_from(b@, i as int).0 =~= contigs_from(b@, i as int).0);
    loop
        invariant
            b@ == s.spec_bytes(),
            i <= k <= b@.len(),
            k == i || cuttable(b@, k as int),
            contigs_from(b@, i as int) == (
                contig_views(acc@) + contigs_from(b@, k as int).0,
                contigs_from(b@, k as int).1,
            ),
        ensures
            contigs_from(b@, k as int) == (Seq::<ContigView>::empty(), k as int),
        decreases b@.len() - k,
    {
        match read_contig(s, b, k) {
            Some((x, j)) => {
                let ghost before = acc@;
                acc.push(x);
                assert(contig_views(acc@) =~= contig_views(before).push(x@));
                assert(contig_views(before) + contigs_from(b@, k as int).0 =~= contig_views(acc@)
                    + contigs_from(b@, j as int).0);
                k = j;
            },
            None => {
                break;
            },
        }
    }
    assert(contig_views(acc@) + contigs_from(b@, k as int).0 =~= contig_views(acc@));
    (acc, k)
}

/// Parses a whole report: every contig in it, in order.
///
/// The whole text must be contigs, one after the other; an empty text holds
/// none. Anything else is an error, whose offset is where the first text that
/// is no contig begins.
pub fn parse<'a>(input: &'a str) -> (r: Result<Vec<Contig<'a>>, ParseError>)
    ensures
        match r {
            Ok(contigs) => document(input.spec_bytes()) == Some(contig_views(contigs@)),
            Err(e) => document(input.spec_bytes()) is None && e.offset == contigs_from(
                input.spec_bytes(),
                0,
            ).1,
        },
{
    let b = input.as_bytes();
    let (contigs, end) = read_contigs(input, b, 0);
    if end == b.len() {
        Ok(contigs)
    } else {
        Err(ParseError { offset: end })
    }
}

/// `rest` is what follows the match of `rule` at the start of `b`, and
/// `value` is the value that the rule yields there.
pub open spec fn leaves<V>(rule: Option<(V, int)>, b: Seq<u8>, value: V, rest: Seq<u8>) -> bool {
    match rule {
        Some((v, j)) => v == value && rest == b.subrange(j, b.len() as int),
        None => false,
    }
}

/// Parses one contig at the start of `input`: its accession line, its arrays
/// and its footer. Returns the text after it, and the contig.
pub fn parse_contig_arrays<'a>(input: &'a str) -> (r: Result<(&'a str, Contig<'a>), ParseError>)
    ensures
        match r {
            Ok((rest, c)) => leaves(
                contig_at(input.spec_bytes(), 0),
                input.spec_bytes(),
                c@,
                rest.spec_bytes(),
            ),
            Err(e) => contig_at(input.spec_bytes(), 0) is None && e.offset == 0,
        },
{
    let b = input.as_bytes();
    match read_contig(input, b, 0) {
        Some((c, j)) => Ok((cut(input, j, b.len()), c)),
        None => Err(ParseError { offset: 0 }),
    }
}

/// Parses one CRISPR array at the start of `input`. Returns the text after
/// it, and the array.
pub fn parse_array<'a>(input: &'a str) -> (r: Result<(&'a str, Array<'a>), ParseError>)
    ensures
        match r {
            Ok((rest, a)) => leaves(
                array_at(input.spec_bytes(), 0),
                input.spec_bytes(),
                a@,
                rest.spec_bytes(),
            ),
            Err(e) => array_at(input.spec_bytes(), 0) is None && e.offset == 0,
        },
{
    let b = input.as_bytes();
    match read_array(input, b, 0) {
        Some((a, j)) => Ok((cut(input, j, b.len()), a)),
        None => Err(ParseError { offset: 0 }),
    }
}

/// Parses an array's header at the start of `input`: the array's zero-based
/// order, and its zero-based start and exclusive end.
pub fn parse_crispr_order_and_coordinates<'a>(input: &'a str) -> (r: Result<
    (&'a str, (usize, usize, usize)),
    ParseError,
>)
    ensures
        match r {
            Ok((rest, h)) => leaves(
                header_at(input.spec_bytes(), 0),
                input.spec_bytes(),
                h,
                rest.spec_bytes(),
            ),
            Err(e) => header_at(input.spec_bytes(), 0) is None && e.offset == 0,
        },
{
    let b = input.as_bytes();
    match read_header(b, 0) {
        Some((h, j)) => Ok((cut(input, j, b.len()), h)),
        None => Err(ParseError { offset: 0 }),
    }
}

/// Parses an accession line at the start of `input`, without its line end:
/// the accession and the contig's length in base pairs.
pub fn parse_accession_line<'a>(input: &'a str) -> (r: Result<
    (&'a str, (&'a str, usize)),
    ParseError,
>)
    ensures
        match r {
            Ok((rest, (acc, bp))) => leaves(
                accession_at(input.spec_bytes(), 0),
                input.spec_bytes(),
                (acc.spec_bytes(), bp),
                rest.spec_bytes(),
            ),
            Err(e) => accession_at(input.spec_bytes(), 0) is None && e.offset == 0,
        },
{
    let b = input.as_bytes();
    match read_accession(input, b, 0) {
        Some((fields, j)) => Ok((cut(input, j, b.len()), fields)),
        None => Err(ParseError { offset: 0 }),
    }
}

/// Parses one table row at the start of `input`: a repeat with its spacer
/// where that form matches, else a last repeat.
pub fn parse_repeat_spacer_line<'a>(input: &'a str) -> (r: Result<
    (&'a str, Repeat<'a>),
    ParseError,
>)
    ensures
        match r {
            Ok((rest, x)) => leaves(
                row_at(input.spec_bytes(), 0),
                input.spec_bytes(),
                x@,
                rest.spec_bytes(),
            ),
            Err(e) => row_at(input.spec_bytes(), 0) is None && e.offset == 0,
        },
{
    let b = input.as_bytes();
    match read_row(input, b, 0) {
        Some((x, j)) => Ok((cut(input, j, b.len()), x)),
        None => Err(ParseError { offset: 0 }),
    }
}

} // verus!
