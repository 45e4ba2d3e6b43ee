//! The report: the row of totals over several sources, the common width of
//! the columns, and the aligned text.

use crate::count::{CountResult, Tally};
use crate::mode::{canonical_modes, canonical_order, Mode};
use crate::numeral::{decimal, decimal_len, lemma_decimal_len_monotonic, pad_left, push_padded};
use vstd::prelude::*;
use vstd::string::*;

verus! {

/// The models of a sequence of results, in the same order.
pub open spec fn tallies(results: Seq<CountResult>) -> Seq<Tally> {
    Seq::new(results.len(), |i: int| results[i]@)
}

/// The label of the row that holds the sums.
pub open spec fn total_label() -> Seq<char> {
    seq!['T', 'o', 't', 'a', 'l']
}

/// The field-wise sum of the rows, labelled as the total.
pub open spec fn total_row(rows: Seq<Tally>) -> Tally
    decreases rows.len(),
{
    if rows.len() == 0 {
        Tally::zero(Some(total_label()))
    } else {
        total_row(rows.drop_last()).plus(rows.last())
    }
}

/// Whether each of the four sums over the rows is a 64-bit number.
pub open spec fn total_fits(rows: Seq<Tally>) -> bool {
    total_row(rows).fits()
}

/// The sum of one count over the rows.
pub open spec fn metric_sum(rows: Seq<Tally>, mode: Mode) -> nat
    decreases rows.len(),
{
    if rows.len() == 0 {
        0
    } else {
        metric_sum(rows.drop_last(), mode) + rows.last().get(mode)
    }
}

/// The rows of the report: one per result in the given order and, where
/// there is more than one result, the row of their totals after them.
pub open spec fn displayed_rows(results: Seq<Tally>) -> Seq<Tally> {
    if results.len() > 1 {
        results.push(total_row(results))
    } else {
        results
    }
}

/// The greater of two numbers.
pub open spec fn larger(a: nat, b: nat) -> nat {
    if a >= b {
        a
    } else {
        b
    }
}

/// The length of the longest numeral among the counts of `row` that the
/// columns select; 0 without columns.
pub open spec fn row_width(row: Tally, columns: Seq<Mode>) -> nat
    decreases columns.len(),
{
    if columns.len() == 0 {
        0
    } else {
        larger(row_width(row, columns.drop_last()), decimal(row.get(columns.last())).len())
    }
}

/// The length of the longest numeral among all counts that the columns
/// select in all rows: one width for the whole table.
pub open spec fn column_width(rows: Seq<Tally>, columns: Seq<Mode>) -> nat
    decreases rows.len(),
{
    if rows.len() == 0 {
        0
    } else {
        larger(column_width(rows.drop_last(), columns), row_width(rows.last(), columns))
    }
}

/// The greatest of the counts of `row` that the columns select; 0 without
/// columns.
pub open spec fn largest_in_row(row: Tally, columns: Seq<Mode>) -> nat
    decreases columns.len(),
{
    if columns.len() == 0 {
        0
    } else {
        larger(largest_in_row(row, columns.drop_last()), row.get(columns.last()))
    }
}

/// The greatest of all counts that the columns select in all rows.
pub open spec fn largest_count(rows: Seq<Tally>, columns: Seq<Mode>) -> nat
    decreases rows.len(),
{
    if rows.len() == 0 {
        0
    } else {
        larger(largest_count(rows.drop_last(), columns), largest_in_row(rows.last(), columns))
    }
}

/// The parts in order, with `separator` between each two of them.
pub open spec fn join(parts: Seq<Seq<char>>, separator: Seq<char>) -> Seq<char>
    decreases parts.len(),
{
    if parts.len() == 0 {
        Seq::empty()
    } else if parts.len() == 1 {
        parts[0]
    } else {
        join(parts.drop_last(), separator) + separator + parts.last()
    }
}

/// The numerals of the selected counts of `row`, each padded to `width`.
pub open spec fn row_cells(row: Tally, columns: Seq<Mode>, width: nat) -> Seq<Seq<char>> {
    Seq::new(columns.len(), |j: int| pad_left(decimal(row.get(columns[j])), width))
}

/// The characters of a row's label; none for a row without label.
pub open spec fn label_text(label: Option<Seq<char>>) -> Seq<char> {
    match label {
        Some(text) => text,
        None => Seq::empty(),
    }
}

/// One line of the report: the cells joined by single spaces, one more
/// space, and the label.
pub open spec fn row_text(row: Tally, columns: Seq<Mode>, width: nat) -> Seq<char> {
    join(row_cells(row, columns, width), seq![' ']) + seq![' '] + label_text(row.label)
}

/// The lines of the given rows, in order.
pub open spec fn row_texts(rows: Seq<Tally>, columns: Seq<Mode>, width: nat) -> Seq<Seq<char>> {
    Seq::new(rows.len(), |i: int| row_text(rows[i], columns, width))
}

/// The whole report for the given results and requested modes: the lines of
/// the displayed rows joined by line feeds, with no line feed at the end.
pub open spec fn summary_text(results: Seq<Tally>, modes: Seq<Mode>) -> Seq<char> {
    let rows = displayed_rows(results);
    let columns = canonical_modes(modes);
    join(row_texts(rows, columns, column_width(rows, columns)), seq!['\n'])
}

/// The total row holds, for every count on its own, the sum of that count
/// over all rows, and carries the total's label.
pub proof fn lemma_total_is_fieldwise_sum(rows: Seq<Tally>, mode: Mode)
    ensures
        total_row(rows).get(mode) == metric_sum(rows, mode),
        total_row(rows).label == Some(total_label()),
    decreases rows.len(),
{
    if rows.len() > 0 {
        lemma_total_is_fieldwise_sum(rows.drop_last(), mode);
    }
}

/// The rows of a report are the results in their order; where there is more
/// than one result the row of totals follows them, once, and otherwise there
/// is no such row.
pub proof fn lemma_total_row_is_last(results: Seq<Tally>)
    ensures
        results.len() <= 1 ==> displayed_rows(results) == results,
        results.len() > 1 ==> displayed_rows(results).len() == results.len() + 1,
        results.len() > 1 ==> displayed_rows(results).drop_last() == results,
        results.len() > 1 ==> displayed_rows(results).last() == total_row(results),
{
    if results.len() > 1 {
        assert(displayed_rows(results).drop_last() =~= results);
    }
}

/// In one row the longest numeral is that of the greatest count.
proof fn lemma_row_width_of_largest(row: Tally, columns: Seq<Mode>)
    requires
        columns.len() > 0,
    ensures
        row_width(row, columns) == decimal(largest_in_row(row, columns)).len(),
    decreases columns.len(),
{
    let front = columns.drop_last();
    let count = row.get(columns.last());
    if front.len() > 0 {
        lemma_row_width_of_largest(row, front);
        if largest_in_row(row, front) <= count {
            lemma_decimal_len_monotonic(largest_in_row(row, front), count);
        } else {
            lemma_decimal_len_monotonic(count, largest_in_row(row, front));
        }
    } else {
        assert(row_width(row, front) == 0);
        assert(largest_in_row(row, front) == 0);
    }
}

/// The width of the table is the length of the numeral of the greatest
/// count that is displayed, in whichever row and column it stands.
pub proof fn lemma_column_width_of_largest(rows: Seq<Tally>, columns: Seq<Mode>)
    requires
        rows.len() > 0,
        columns.len() > 0,
    ensures
        column_width(rows, columns) == decimal(largest_count(rows, columns)).len(),
    decreases rows.len(),
{
    let front = rows.drop_last();
    let last = largest_in_row(rows.last(), columns);
    lemma_row_width_of_largest(rows.last(), columns);
    if front.len() > 0 {
        lemma_column_width_of_largest(front, columns);
        if largest_count(front, columns) <= last {
            lemma_decimal_len_monotonic(largest_count(front, columns), last);
        } else {
            lemma_decimal_len_monotonic(last, largest_count(front, columns));
        }
    } else {
        assert(column_width(front, columns) == 0);
        assert(largest_count(front, columns) == 0);
    }
}

/// No numeral in a row is longer than the width of the row.
proof fn lemma_row_width_covers(row: Tally, columns: Seq<Mode>, j: int)
    requires
        0 <= j < columns.len(),
    ensures
        decimal(row.get(columns[j])).len() <= row_width(row, columns),
    decreases columns.len(),
{
    if j < columns.len() - 1 {
        lemma_row_width_covers(row, columns.drop_last(), j);
    }
}

/// No numeral in the table is longer than the width of the table, so that
/// every cell, in every row, is exactly as wide as the table's width.
pub proof fn lemma_column_width_covers(rows: Seq<Tally>, columns: Seq<Mode>, i: int, j: int)
    requires
        0 <= i < rows.len(),
        0 <= j < columns.len(),
    ensures
        decimal(rows[i].get(columns[j])).len() <= column_width(rows, columns),
        row_cells(rows[i], columns, column_width(rows, columns))[j].len() == column_width(
            rows,
            columns,
        ),
    decreases rows.len(),
{
    if i < rows.len() - 1 {
        lemma_column_width_covers(rows.drop_last(), columns, i, j);
    } else {
        lemma_row_width_covers(rows[i], columns, j);
    }
}

/// The sums over the first rows are no greater than over all of them.
proof fn lemma_total_monotonic(rows: Seq<Tally>, k: int)
    requires
        0 <= k <= rows.len(),
    ensures
        total_row(rows.take(k)).lines <= total_row(rows).lines,
        total_row(rows.take(k)).words <= total_row(rows).words,
        total_row(rows.take(k)).chars <= total_row(rows).chars,
        total_row(rows.take(k)).bytes <= total_row(rows).bytes,
    decreases rows.len() - k,
{
    if k == rows.len() {
        assert(rows.take(k) =~= rows);
    } else {
        lemma_total_monotonic(rows.drop_last(), k);
        assert(rows.drop_last().take(k) =~= rows.take(k));
    }
}

/// The field-wise sum over the first `k + 1` rows is that over the first
/// `k` rows with row `k` added.
proof fn lemma_total_step(rows: Seq<Tally>, k: int)
    requires
        0 <= k < rows.len(),
    ensures
        total_row(rows.take(k + 1)) == total_row(rows.take(k)).plus(rows[k]),
{
    assert(rows.take(k + 1).drop_last() =~= rows.take(k));
}

/// Joining one part more appends the separator, unless the part is the
/// first, and then the part.
proof fn lemma_join_step(parts: Seq<Seq<char>>, separator: Seq<char>, k: int)
    requires
        0 <= k < parts.len(),
    ensures
        join(parts.take(k + 1), separator) == if k == 0 {
            parts[k]
        } else {
            join(parts.take(k), separator) + separator + parts[k]
        },
{
    assert(parts.take(k + 1).drop_last() =~= parts.take(k));
}

/// Whether the four sums over the results can be held in 64 bits, which is
/// what [`sum_results`] asks of its input.
pub fn totals_fit(results: &Vec<CountResult>) -> (fits: bool)
    ensures
        fits == total_fits(tallies(results@)),
{
    let ghost rows = tallies(results@);
    let mut lines: u64 = 0;
    let mut words: u64 = 0;
    let mut chars: u64 = 0;
    let mut bytes: u64 = 0;
    let mut i: usize = 0;
    while i < results.len()
        invariant
            i <= results.len(),
            rows == tallies(results@),
            lines == total_row(rows.take(i as int)).lines,
            words == total_row(rows.take(i as int)).words,
            chars == total_row(rows.take(i as int)).chars,
            bytes == total_row(rows.take(i as int)).bytes,
        decreases results.len() - i,
    {
        proof {
            lemma_total_step(rows, i as int);
            lemma_total_monotonic(rows, i as int + 1);
        }
        let result = &results[i];
        match (
            lines.checked_add(result.lines),
            words.checked_add(result.words),
            chars.checked_add(result.chars),
            bytes.checked_add(result.bytes),
        ) {
            (Some(l), Some(w), Some(c), Some(b)) => {
                lines = l;
                words = w;
                chars = c;
                bytes = b;
            },
            _ => {
                return false;
            },
        }
        i += 1;
    }
    assert(rows.take(i as int) =~= rows);
    true
}

/// The row of totals: each count is the sum of that count over all results,
/// and the label is `Total`.
pub fn sum_results(results: &Vec<CountResult>) -> (total: CountResult)
    requires
        total_fits(tallies(results@)),
    ensures
        total@ == total_row(tallies(results@)),
{
    let ghost rows = tallies(results@);
    let label: String = String::from_str("Total");
    proof {
        reveal_strlit("Total");
        assert(label@ =~= total_label());
    }
    let mut total = CountResult { summary: Some(label), lines: 0, words: 0, chars: 0, bytes: 0 };
    let mut i: usize = 0;
    while i < results.len()
        invariant
            i <= results.len(),
            rows == tallies(results@),
            total_fits(rows),
            total@ == total_row(rows.take(i as int)),
        decreases results.len() - i,
    {
        proof {
            lemma_total_step(rows, i as int);
            lemma_total_monotonic(rows, i as int + 1);
        }
        let result = &results[i];
        total.lines = total.lines + result.lines;
        total.words = total.words + result.words;
        total.chars = total.chars + result.chars;
        total.bytes = total.bytes + result.bytes;
        i += 1;
    }
    assert(rows.take(i as int) =~= rows);
    total
}

/// The length of the longest numeral among the selected counts of a result.
fn widest_in_row(result: &CountResult, columns: &Vec<Mode>) -> (width: usize)
    ensures
        width == row_width(result@, columns@),
{
    let mut width: usize = 0;
    let mut j: usize = 0;
    while j < columns.len()
        invariant
            j <= columns.len(),
            width == row_width(result@, columns@.take(j as int)),
        decreases columns.len() - j,
    {
        assert(columns@.take(j + 1).drop_last() =~= columns@.take(j as int));
        let len = decimal_len(result.result_from_mode(&columns[j]));
        if len > width {
            width = len;
        }
        j += 1;
    }
    assert(columns@.take(j as int) =~= columns@);
    width
}

/// The length of the longest numeral among the selected counts of all
/// results.
fn widest(results: &Vec<CountResult>, columns: &Vec<Mode>) -> (width: usize)
    ensures
        width == column_width(tallies(results@), columns@),
{
    let ghost rows = tallies(results@);
    let mut width: usize = 0;
    let mut i: usize = 0;
    while i < results.len()
        invariant
            i <= results.len(),
            rows == tallies(results@),
            width == column_width(rows.take(i as int), columns@),
        decreases results.len() - i,
    {
        assert(rows.take(i + 1).drop_last() =~= rows.take(i as int));
        let in_row = widest_in_row(&results[i], columns);
        if in_row > width {
            width = in_row;
        }
        i += 1;
    }
    assert(rows.take(i as int) =~= rows);
    width
}

/// Appends the line of one result.
fn push_row(out: &mut String, result: &CountResult, columns: &Vec<Mode>, width: usize)
    ensures
        final(out)@ == old(out)@ + row_text(result@, columns@, width as nat),
{
    let ghost cells = row_cells(result@, columns@, width as nat);
    let ghost space = seq![' '];
    proof {
        reveal_strlit(" ");
        assert(" "@ =~= space);
    }
    let mut j: usize = 0;
    while j < columns.len()
        invariant
            j <= columns.len(),
            cells == row_cells(result@, columns@, width as nat),
            space == seq![' '],
            " "@ == space,
            out@ == old(out)@ + join(cells.take(j as int), space),
        decreases columns.len() - j,
    {
        proof {
            lemma_join_step(cells, space, j as int);
        }
        if j > 0 {
            out.append(" ");
        }
        push_padded(out, result.result_from_mode(&columns[j]), width);
        j += 1;
        assert(out@ =~= old(out)@ + join(cells.take(j as int), space));
    }
    assert(cells.take(j as int) =~= cells);
    out.append(" ");
    match &result.summary {
        Some(label) => {
            out.append(label.as_str());
        },
        None => {},
    }
    assert(out@ =~= old(out)@ + row_text(result@, columns@, width as nat));
}

/// The report for the given results, in their order, with the requested
/// modes as columns in canonical order.
///
/// Where there is more than one result, a row labelled `Total` with the
/// field-wise sums follows them. Every count is right-aligned in one common
/// width, that of the longest numeral in the whole table. Each line ends
/// with a space and the label of its row. The lines are separated by line
/// feeds, and no line feed follows the last one.
///
/// There must be a result and a mode, and the totals, where they are
/// displayed, must be 64-bit numbers: see [`totals_fit`].
pub fn format_summary(results: Vec<CountResult>, modes: Vec<Mode>) -> (summary: String)
    requires
        results.len() > 0,
        modes.len() > 0,
        results.len() > 1 ==> total_fits(tallies(results@)),
    ensures
        summary@ == summary_text(tallies(results@), modes@),
{
    let ghost given = tallies(results@);
    let columns = canonical_order(&modes);
    let mut results = results;
    if results.len() > 1 {
        let total = sum_results(&results);
        results.push(total);
    }
    let ghost rows = tallies(results@);
    assert(rows =~= displayed_rows(given));
    let width = widest(&results, &columns);
    let ghost lines = row_texts(rows, columns@, width as nat);
    let ghost feed = seq!['\n'];
    proof {
        reveal_strlit("\n");
        assert("\n"@ =~= feed);
    }
    let mut summary = String::new();
    let mut i: usize = 0;
    while i < results.len()
        invariant
            i <= results.len(),
            rows == tallies(results@),
            lines == row_texts(rows, columns@, width as nat),
            feed == seq!['\n'],
            "\n"@ == feed,
            summary@ == join(lines.take(i as int), feed),
        decreases results.len() - i,
    {
        proof {
            lemma_join_step(lines, feed, i as int);
        }
        if i > 0 {
            summary.append("\n");
        }
        push_row(&mut summary, &results[i], &columns, width);
        i += 1;
        assert(summary@ =~= join(lines.take(i as int), feed));
    }
    assert(lines.take(i as int) =~= lines);
    summary
}

} // verus!
