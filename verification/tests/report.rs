use wordcount::{count_buf, format_summary, sum_results, totals_fit, BufferDetails, CountResult, Mode};

fn row(label: Option<&str>, lines: u64, words: u64, chars: u64, bytes: u64) -> CountResult {
    CountResult { summary: label.map(|l| l.to_string()), lines, words, chars, bytes }
}

fn counted(name: Option<&str>, text: &str) -> CountResult {
    count_buf(BufferDetails { filename: name.map(|n| n.to_string()), buffer: text.as_bytes().to_vec() })
        .unwrap()
}

fn default_modes() -> Vec<Mode> {
    vec![Mode::Lines, Mode::Words, Mode::Bytes]
}

#[test]
fn one_unnamed_source_with_default_modes() {
    let results = vec![counted(None, "foo bar\nbaz\n")];
    assert_eq!(results[0], row(None, 2, 3, 12, 12));
    assert_eq!(format_summary(results, default_modes()), " 2  3 12 ");
}

#[test]
fn single_digit_counts_need_no_padding() {
    let results = vec![counted(None, "foo bar\nbaz")];
    assert_eq!(format_summary(results, vec![Mode::Lines, Mode::Words]), "2 3 ");
}

#[test]
fn two_files_give_three_rows() {
    let results = vec![counted(Some("a"), "hi\n"), counted(Some("b"), "there\n")];
    let report = format_summary(results, vec![Mode::Lines, Mode::Bytes]);
    assert_eq!(report, "1 3 a\n1 6 b\n2 9 Total");
    assert_eq!(report.lines().count(), 3);
}

#[test]
fn empty_source_gives_one_row_of_zeros() {
    let results = vec![counted(None, "")];
    assert_eq!(results[0], row(None, 0, 0, 0, 0));
    assert_eq!(format_summary(results, default_modes()), "0 0 0 ");
}

#[test]
fn total_is_the_field_wise_sum() {
    let results = vec![row(Some("x"), 1, 20, 300, 4000), row(Some("y"), 5, 60, 700, 8000), row(None, 9, 9, 9, 9)];
    assert_eq!(sum_results(&results), row(Some("Total"), 15, 89, 1009, 12009));
}

#[test]
fn total_of_nothing_is_zero() {
    assert_eq!(sum_results(&Vec::new()), row(Some("Total"), 0, 0, 0, 0));
}

#[test]
fn total_may_reach_the_largest_number() {
    let results = vec![row(None, u64::MAX - 1, 0, 0, 0), row(None, 1, 0, 0, 0)];
    assert!(totals_fit(&results));
    assert_eq!(sum_results(&results).lines, u64::MAX);
}

#[test]
fn totals_that_exceed_64_bits_do_not_fit() {
    assert!(!totals_fit(&vec![row(None, u64::MAX, 0, 0, 0), row(None, 1, 0, 0, 0)]));
    assert!(!totals_fit(&vec![row(None, 0, u64::MAX, 0, 0), row(None, 0, 1, 0, 0)]));
    assert!(!totals_fit(&vec![row(None, 0, 0, u64::MAX, 0), row(None, 0, 0, 1, 0)]));
    assert!(!totals_fit(&vec![row(None, 0, 0, 0, 1), row(None, 0, 0, 0, 2), row(None, 0, 0, 0, u64::MAX - 2)]));
    assert!(totals_fit(&vec![row(None, 0, 0, 0, 1), row(None, 0, 0, 0, 2), row(None, 0, 0, 0, u64::MAX - 3)]));
    assert!(totals_fit(&Vec::new()));
}

#[test]
fn total_row_appears_only_for_more_than_one_result() {
    let one = format_summary(vec![row(Some("only"), 1, 2, 3, 4)], vec![Mode::Lines]);
    assert_eq!(one, "1 only");
    let two = format_summary(vec![row(Some("p"), 1, 2, 3, 4), row(Some("q"), 1, 2, 3, 4)], vec![Mode::Lines]);
    assert_eq!(two, "1 p\n1 q\n2 Total");
}

#[test]
fn width_is_that_of_the_longest_number_in_the_whole_table() {
    let results = vec![row(Some("small"), 1, 2, 3, 4), row(Some("large"), 5, 6, 7, 123456)];
    let report = format_summary(results, vec![Mode::Lines, Mode::Bytes]);
    assert_eq!(report, "     1      4 small\n     5 123456 large\n     6 123460 Total");
}

#[test]
fn width_counts_only_the_requested_columns() {
    let results = vec![row(Some("f"), 7, 8, 9, 1000000)];
    assert_eq!(format_summary(results, vec![Mode::Lines, Mode::Words]), "7 8 f");
}

#[test]
fn width_grows_with_the_total() {
    let results = vec![row(Some("a"), 6, 0, 0, 0), row(Some("b"), 7, 0, 0, 0)];
    assert_eq!(format_summary(results, vec![Mode::Lines]), " 6 a\n 7 b\n13 Total");
}

#[test]
fn columns_stand_in_canonical_order_whatever_the_flags() {
    let forward = format_summary(vec![row(Some("f"), 1, 22, 333, 4444)], vec![Mode::Lines, Mode::Bytes]);
    let backward = format_summary(vec![row(Some("f"), 1, 22, 333, 4444)], vec![Mode::Bytes, Mode::Lines]);
    assert_eq!(forward, "   1 4444 f");
    assert_eq!(backward, forward);
}

#[test]
fn all_four_columns_in_order() {
    let modes = vec![Mode::Chars, Mode::Bytes, Mode::Words, Mode::Lines];
    assert_eq!(format_summary(vec![row(Some("f"), 1, 22, 333, 4444)], modes), "   1   22  333 4444 f");
}

#[test]
fn repeated_flags_give_one_column() {
    let modes = vec![Mode::Words, Mode::Words, Mode::Words];
    assert_eq!(format_summary(vec![row(None, 1, 22, 333, 4444)], modes), "22 ");
}

#[test]
fn unnamed_source_has_an_empty_label() {
    let report = format_summary(vec![row(None, 3, 0, 0, 0)], vec![Mode::Lines]);
    assert_eq!(report, "3 ");
    assert!(!report.ends_with('\n'));
}

#[test]
fn rows_keep_the_order_of_the_results() {
    let results = vec![row(Some("z"), 3, 0, 0, 0), row(Some("a"), 1, 0, 0, 0), row(Some("m"), 2, 0, 0, 0)];
    assert_eq!(format_summary(results, vec![Mode::Lines]), "3 z\n1 a\n2 m\n6 Total");
}

#[test]
fn largest_numbers_are_written_in_full() {
    let results = vec![row(Some("big"), u64::MAX, 0, 10, 18446744073709551614)];
    let report = format_summary(results, vec![Mode::Lines, Mode::Chars, Mode::Bytes]);
    assert_eq!(report, "18446744073709551615                   10 18446744073709551614 big");
}

#[test]
fn numbers_are_written_as_the_standard_library_writes_them() {
    for n in [0u64, 1, 9, 10, 11, 99, 100, 101, 999, 1000, 12345, 1000000, 9999999999, u64::MAX] {
        let report = format_summary(vec![row(Some("n"), n, 0, 0, 0)], vec![Mode::Lines]);
        assert_eq!(report, format!("{} n", n));
        let padded = format_summary(
            vec![row(Some("n"), n, 0, 0, 0), row(Some("w"), 0, 0, 0, 0)],
            vec![Mode::Lines],
        );
        let width = n.to_string().len();
        assert_eq!(padded, format!("{:>w$} n\n{:>w$} w\n{:>w$} Total", n, 0, n, w = width));
    }
}

#[test]
fn labels_are_copied_unchanged() {
    let results = vec![row(Some("dir/with space/ünï.txt"), 1, 0, 0, 0), row(Some(""), 2, 0, 0, 0)];
    assert_eq!(format_summary(results, vec![Mode::Lines]), "1 dir/with space/ünï.txt\n2 \n3 Total");
}
