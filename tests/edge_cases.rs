use minced::{
    Array, ParseError, Repeat, RepeatOnly, RepeatSpacer, parse, parse_accession_line, parse_array,
    parse_contig_arrays, parse_crispr_order_and_coordinates, parse_repeat_spacer_line,
};

const REPEAT_29: &str = "CAAGTGCACCAACCAATCTCACCACCTCA";
const SPACER_10: &str = "GGGGGTGCAC";

fn one_contig_report() -> String {
    format!(
        "Sequence 'X' (100 bp)\n\
         \n\
         CRISPR 1   Range: 10 - 50\n\
         POSITION\tREPEAT\t\tSPACER\n\
         --------\t------\t\t------\n\
         10\t\t{}\t{}\t[ 29, 10 ]\n\
         49\t\tA\n\
         --------\t------\t\t------\n\
         Repeats: 2\tAverage Length: 15\t\tAverage Length: 10\n\
         \n\
         Time to find repeats: 1 ms\n\
         \n\
         \n",
        REPEAT_29, SPACER_10
    )
}

#[test]
fn document_with_one_contig_gives_its_fields() {
    let text = one_contig_report();
    let contigs = parse(&text).unwrap();
    assert_eq!(contigs.len(), 1);
    let contig = &contigs[0];
    assert_eq!(contig.accession, "X");
    assert_eq!(contig.bp, 100);
    assert_eq!(contig.arrays.len(), 1);
    let expected = Array {
        order: 0,
        start: 9,
        end: 50,
        repeat_spacers: vec![
            Repeat::WithSpacer(RepeatSpacer {
                repeat: REPEAT_29,
                spacer: SPACER_10,
                start: 9,
                end: 48,
                spacer_start: 38,
                spacer_end: 48,
                repeat_start: 9,
                repeat_end: 38,
            }),
            Repeat::WithoutSpacer(RepeatOnly { repeat: "A", start: 48, end: 49 }),
        ],
    };
    assert_eq!(contig.arrays[0], expected);
}

#[test]
fn empty_text_is_an_empty_report() {
    assert_eq!(parse("").unwrap().len(), 0);
}

#[test]
fn order_is_counted_from_zero() {
    let (_, first) = parse_crispr_order_and_coordinates("CRISPR 1   Range: 10 - 50").unwrap();
    assert_eq!(first.0, 0);
    let (_, fourth) = parse_crispr_order_and_coordinates("CRISPR 4   Range: 157550 - 157915").unwrap();
    assert_eq!(fourth, (3, 157549, 157915));
}

#[test]
fn header_range_becomes_half_open() {
    let (rest, h) = parse_crispr_order_and_coordinates("CRISPR 2\tRange: 4 - 1413\nnext").unwrap();
    assert_eq!(h, (1, 3, 1413));
    assert!(h.1 < h.2);
    assert_eq!(rest, "\nnext");
}

#[test]
fn header_with_zero_order_or_start_is_rejected() {
    assert_eq!(
        parse_crispr_order_and_coordinates("CRISPR 0   Range: 4 - 10"),
        Err(ParseError { offset: 0 })
    );
    assert!(parse_crispr_order_and_coordinates("CRISPR 1   Range: 0 - 10").is_err());
}

#[test]
fn header_number_beyond_usize_is_rejected() {
    assert!(parse_crispr_order_and_coordinates("CRISPR 1   Range: 1 - 99999999999999999999999").is_err());
}

#[test]
fn header_missing_range_word_is_rejected() {
    assert!(parse_crispr_order_and_coordinates("CRISPR 1   range: 1 - 9").is_err());
    assert!(parse_crispr_order_and_coordinates("CRISPR 1Range: 1 - 9").is_err());
}

#[test]
fn pair_row_offsets_follow_position_and_lengths() {
    let (rest, row) = parse_repeat_spacer_line("100 ACGT  GG [ 4, 2 ]\nnext").unwrap();
    assert_eq!(rest, "next");
    assert_eq!(
        row,
        Repeat::WithSpacer(RepeatSpacer {
            repeat: "ACGT",
            spacer: "GG",
            start: 99,
            end: 105,
            spacer_start: 103,
            spacer_end: 105,
            repeat_start: 99,
            repeat_end: 103,
        })
    );
}

#[test]
fn last_row_spans_its_repeat() {
    let (rest, row) = parse_repeat_spacer_line("7\tACGTA\t\n--------").unwrap();
    assert_eq!(rest, "--------");
    assert_eq!(row, Repeat::WithoutSpacer(RepeatOnly { repeat: "ACGTA", start: 6, end: 11 }));
}

#[test]
fn row_without_position_is_rejected() {
    assert!(parse_repeat_spacer_line("\t\tACGT\tGG\n").is_err());
    assert!(parse_repeat_spacer_line("0\tACGT\tGG\n").is_err());
}

#[test]
fn rows_accept_crlf_line_ends() {
    let (rest, row) = parse_repeat_spacer_line("5 AC GT x\r\nz").unwrap();
    assert_eq!(rest, "z");
    assert!(matches!(row, Repeat::WithSpacer(RepeatSpacer { start: 4, end: 8, .. })));
}

#[test]
fn row_with_lone_carriage_return_is_rejected() {
    assert!(parse_repeat_spacer_line("5 AC GT x\ry\n").is_err());
}

#[test]
fn pair_row_never_takes_its_spacer_from_the_next_line() {
    let (rest, row) = parse_repeat_spacer_line("1 A\nC\n").unwrap();
    assert_eq!(row, Repeat::WithoutSpacer(RepeatOnly { repeat: "A", start: 0, end: 1 }));
    assert_eq!(rest, "C\n");
    let (rest, row) = parse_repeat_spacer_line("1 A \t\nCC x\n").unwrap();
    assert_eq!(row, Repeat::WithoutSpacer(RepeatOnly { repeat: "A", start: 0, end: 1 }));
    assert_eq!(rest, "CC x\n");
}

#[test]
fn last_row_must_end_its_line() {
    assert!(parse_repeat_spacer_line("5 AC GT").is_err());
    assert!(parse_repeat_spacer_line("5 AC").is_err());
    let (rest, _) = parse_repeat_spacer_line("5 AC\n\n\n").unwrap();
    assert_eq!(rest, "\n\n");
}

#[test]
fn last_row_closes_the_table() {
    let text = "\nCRISPR 1   Range: 1 - 6\nPOSITION\n--------\n1 AC\n5 GT\n--------\nRepeats: 2\n";
    let (rest, array) = parse_array(text).unwrap();
    assert_eq!(
        array.repeat_spacers,
        vec![Repeat::WithoutSpacer(RepeatOnly { repeat: "AC", start: 0, end: 2 })]
    );
    assert_eq!(rest, "Repeats: 2\n");
    let report = format!(
        "Sequence 'X' (9 bp)\n{}\nTime to find repeats: 1 ms\n\n\n",
        text
    );
    assert!(parse(&report).is_err());
}

#[test]
fn array_of_pair_rows_only_is_valid() {
    let text = "\nCRISPR 3   Range: 1 - 12\nPOSITION\n--------\n1 ACG TTT [ 3, 3 ]\n7 ACG TTT [ 3, 3 ]\n--------\nRepeats: 2\n";
    let (rest, array) = parse_array(text).unwrap();
    assert_eq!(rest, "");
    assert_eq!(array.order, 2);
    assert_eq!(array.repeat_spacers.len(), 2);
    assert!(array.repeat_spacers.iter().all(|r| matches!(r, Repeat::WithSpacer(_))));
}

#[test]
fn array_without_rows_is_rejected() {
    let text = "\nCRISPR 3   Range: 1 - 12\nPOSITION\n--------\n--------\nRepeats: 0\n";
    assert!(parse_array(text).is_err());
}

#[test]
fn array_leading_blank_line_is_optional() {
    let text = "CRISPR 1   Range: 1 - 3\nPOSITION\n--------\n1 ACG \n--------\nRepeats: 1\n";
    let (_, array) = parse_array(text).unwrap();
    assert_eq!((array.start, array.end), (0, 3));
}

#[test]
fn accession_keeps_non_ascii_text() {
    let (rest, (accession, bp)) = parse_accession_line("Sequence 'contig é ∂' (42 bp)\n").unwrap();
    assert_eq!(accession, "contig é ∂");
    assert_eq!(bp, 42);
    assert_eq!(rest, "\n");
}

#[test]
fn accession_may_be_empty() {
    let (_, (accession, bp)) = parse_accession_line("Sequence '' (1 bp)").unwrap();
    assert_eq!(accession, "");
    assert_eq!(bp, 1);
}

#[test]
fn accession_without_closing_quote_is_rejected() {
    assert!(parse_accession_line("Sequence 'X (100 bp)\n").is_err());
    assert_eq!(parse("Sequence 'X (100 bp)\n"), Err(ParseError { offset: 0 }));
}

#[test]
fn accession_with_non_digit_length_is_rejected() {
    assert!(parse_accession_line("Sequence 'X' (+100 bp)").is_err());
    assert!(parse_accession_line("Sequence 'X' (100bp)").is_err());
}

#[test]
fn malformed_row_fails_the_whole_report() {
    let text = one_contig_report().replace("49\t\tA\n", "\t\tA\n");
    assert!(parse(&text).is_err());
}

#[test]
fn trailing_text_fails_the_whole_report() {
    let text = one_contig_report();
    let with_tail = format!("{}garbage", text);
    assert_eq!(parse(&with_tail), Err(ParseError { offset: text.len() }));
}

#[test]
fn contig_needs_its_footer() {
    let text = one_contig_report();
    let cut = &text[..text.len() - 1];
    assert!(parse_contig_arrays(cut).is_err());
    let (rest, contig) = parse_contig_arrays(&text).unwrap();
    assert_eq!(rest, "");
    assert_eq!(contig.accession, "X");
}

#[test]
fn two_contigs_parse_in_order() {
    let first = one_contig_report();
    let second = first.replace("'X' (100 bp)", "'Y' (7 bp)");
    let text = format!("{}{}", first, second);
    let contigs = parse(&text).unwrap();
    let names: Vec<&str> = contigs.iter().map(|c| c.accession).collect();
    assert_eq!(names, vec!["X", "Y"]);
    assert_eq!(contigs[1].bp, 7);
}
