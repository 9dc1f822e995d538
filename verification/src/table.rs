//! Plain-text tables: the first column is aligned left, the others right.
use crate::error::{self, BillError};
use crate::text;
use vstd::prelude::*;
use vstd::utf8::*;

verus! {

/// The larger of two widths.
pub open spec fn wider(left: nat, right: nat) -> nat {
    if left >= right {
        left
    } else {
        right
    }
}

/// How many bytes a text takes.
pub open spec fn byte_len(cell: Seq<char>) -> nat {
    encode_utf8(cell).len()
}

/// The contents of the rows of a table.
pub open spec fn row_texts(rows: Seq<Vec<String>>) -> Seq<Seq<Seq<char>>> {
    rows.map_values(|row: Vec<String>| text::texts(row@))
}

/// The contents of a header line.
pub open spec fn header_texts(headers: Seq<&str>) -> Seq<Seq<char>> {
    headers.map_values(|header: &str| header@)
}

/// The width of a column: the bytes of its longest cell, the header included.
pub open spec fn column_width(
    headers: Seq<Seq<char>>,
    rows: Seq<Seq<Seq<char>>>,
    column: int,
) -> nat
    decreases rows.len(),
{
    if rows.len() == 0 {
        byte_len(headers[column])
    } else {
        wider(column_width(headers, rows.drop_last(), column), byte_len(rows.last()[column]))
    }
}

/// The widths of all columns.
pub open spec fn column_widths(headers: Seq<Seq<char>>, rows: Seq<Seq<Seq<char>>>) -> Seq<nat> {
    Seq::new(headers.len(), |column: int| column_width(headers, rows, column))
}

/// The blanks that bring a cell to a width; a cell that is as wide already needs none.
pub open spec fn padding(cell: Seq<char>, width: nat) -> Seq<char> {
    text::run(
        ' ',
        if width >= cell.len() {
            (width - cell.len()) as nat
        } else {
            0
        },
    )
}

/// A cell brought to its column's width.
pub open spec fn aligned(cell: Seq<char>, width: nat, column: int) -> Seq<char> {
    if column == 0 {
        cell + padding(cell, width)
    } else {
        padding(cell, width) + cell
    }
}

/// The cells of a line, each brought to its column's width.
pub open spec fn aligned_cells(cells: Seq<Seq<char>>, widths: Seq<nat>) -> Seq<Seq<char>> {
    Seq::new(
        if cells.len() <= widths.len() {
            cells.len()
        } else {
            widths.len()
        },
        |column: int| aligned(cells[column], widths[column], column),
    )
}

/// One line of a table.
pub open spec fn line_text(cells: Seq<Seq<char>>, widths: Seq<nat>) -> Seq<char> {
    text::joined(aligned_cells(cells, widths), " | "@).push('\n')
}

/// The line under the headers.
pub open spec fn rule_text(widths: Seq<nat>) -> Seq<char> {
    text::joined(widths.map_values(|width: nat| text::run('-', width)), "-+-"@).push('\n')
}

/// The lines of the rows.
pub open spec fn body_text(rows: Seq<Seq<Seq<char>>>, widths: Seq<nat>) -> Seq<char>
    decreases rows.len(),
{
    if rows.len() == 0 {
        Seq::empty()
    } else {
        body_text(rows.drop_last(), widths) + line_text(rows.last(), widths)
    }
}

/// Whether every row has one cell for each header.
pub open spec fn is_rectangular(headers: Seq<Seq<char>>, rows: Seq<Seq<Seq<char>>>) -> bool {
    forall|i: int| 0 <= i < rows.len() ==> (#[trigger] rows[i]).len() == headers.len()
}

/// A whole table.
pub open spec fn table_text(headers: Seq<Seq<char>>, rows: Seq<Seq<Seq<char>>>) -> Seq<char> {
    let widths = column_widths(headers, rows);
    line_text(headers, widths) + rule_text(widths) + body_text(rows, widths)
}

/// The view of a list of widths.
pub open spec fn width_values(widths: Seq<usize>) -> Seq<nat> {
    widths.map_values(|width: usize| width as nat)
}

fn widest(headers: &Vec<String>, rows: &[Vec<String>]) -> (widths: Vec<usize>)
    requires
        is_rectangular(text::texts(headers@), row_texts(rows@)),
    ensures
        width_values(widths@) == column_widths(text::texts(headers@), row_texts(rows@)),
{
    let mut widths: Vec<usize> = Vec::new();
    let ghost heads = text::texts(headers@);
    let ghost body = row_texts(rows@);
    let mut column: usize = 0;
    while column < headers.len()
        invariant
            column <= headers.len(),
            widths.len() == column,
            heads == text::texts(headers@),
            body == row_texts(rows@),
            is_rectangular(heads, body),
            forall|c: int| 0 <= c < column ==> #[trigger] widths@[c] as nat == column_width(heads, body, c),
        decreases headers.len() - column,
    {
        let mut width: usize = headers[column].as_str().as_bytes().len();
        let mut index: usize = 0;
        assert(heads[column as int] == headers@[column as int]@);
        assert(body.take(0) =~= Seq::<Seq<Seq<char>>>::empty());
        while index < rows.len()
            invariant
                index <= rows.len(),
                column < headers.len(),
                heads == text::texts(headers@),
                body == row_texts(rows@),
                is_rectangular(heads, body),
                width as nat == column_width(heads, body.take(index as int), column as int),
            decreases rows.len() - index,
        {
            assert(body.take(index + 1).drop_last() =~= body.take(index as int));
            assert(body.take(index + 1).last() == body[index as int]);
            assert(body[index as int] == text::texts(rows@[index as int]@));
            assert(body[index as int].len() == heads.len());
            assert(body[index as int][column as int] == rows@[index as int]@[column as int]@);
            let bytes: usize = rows[index][column].as_str().as_bytes().len();
            if width < bytes {
                width = bytes;
            }
            index = index + 1;
        }
        assert(body.take(index as int) =~= body);
        widths.push(width);
        column = column + 1;
    }
    assert(width_values(widths@) =~= column_widths(heads, body));
    widths
}

/// Appends one line of a table.
pub fn push_table_row(output: &mut String, cells: &Vec<String>, widths: &Vec<usize>)
    ensures
        final(output)@ == old(output)@ + line_text(text::texts(cells@), width_values(widths@)),
{
    let mut rendered: Vec<String> = Vec::new();
    let ghost contents = text::texts(cells@);
    let ghost values = width_values(widths@);
    let mut column: usize = 0;
    while column < cells.len() && column < widths.len()
        invariant
            column <= cells.len(),
            column <= widths.len(),
            contents == text::texts(cells@),
            values == width_values(widths@),
            text::texts(rendered@) == aligned_cells(contents, values).take(column as int),
        decreases cells.len() - column,
    {
        let cell = cells[column].as_str();
        let width: usize = widths[column];
        let taken: usize = text::width_of(cell);
        let blanks: usize = if width >= taken {
            width - taken
        } else {
            0
        };
        let mut piece = String::new();
        if column == 0 {
            piece.append(cell);
            text::push_run(&mut piece, ' ', blanks);
        } else {
            text::push_run(&mut piece, ' ', blanks);
            piece.append(cell);
        }
        assert(piece@ =~= aligned(contents[column as int], values[column as int], column as int));
        let ghost before = rendered@;
        rendered.push(piece);
        assert(text::texts(rendered@) =~= text::texts(before).push(piece@));
        assert(aligned_cells(contents, values).take(column + 1) =~= aligned_cells(
            contents,
            values,
        ).take(column as int).push(piece@));
        column = column + 1;
    }
    assert(aligned_cells(contents, values).take(column as int) =~= aligned_cells(contents, values));
    let line = text::join(&rendered, " | ");
    output.append(line.as_str());
    output.push('\n');
    assert(output@ =~= old(output)@ + line_text(contents, values));
}

fn push_rule(output: &mut String, widths: &Vec<usize>)
    ensures
        final(output)@ == old(output)@ + rule_text(width_values(widths@)),
{
    let mut dashes: Vec<String> = Vec::new();
    let ghost runs = width_values(widths@).map_values(|width: nat| text::run('-', width));
    let mut column: usize = 0;
    while column < widths.len()
        invariant
            column <= widths.len(),
            runs == width_values(widths@).map_values(|width: nat| text::run('-', width)),
            text::texts(dashes@) == runs.take(column as int),
        decreases widths.len() - column,
    {
        let mut dash = String::new();
        text::push_run(&mut dash, '-', widths[column]);
        assert(dash@ =~= runs[column as int]);
        let ghost before = dashes@;
        dashes.push(dash);
        assert(text::texts(dashes@) =~= text::texts(before).push(dash@));
        assert(runs.take(column + 1) =~= runs.take(column as int).push(dash@));
        column = column + 1;
    }
    assert(runs.take(column as int) =~= runs);
    let line = text::join(&dashes, "-+-");
    output.append(line.as_str());
    output.push('\n');
    assert(output@ =~= old(output)@ + rule_text(width_values(widths@)));
}

/// Draws a table. A table needs a column, and each row a cell for every column.
pub fn render_table(headers: &[&str], rows: &[Vec<String>]) -> (table: Result<String, BillError>)
    ensures
        ({
            let heads = header_texts(headers@);
            let body = row_texts(rows@);
            match table {
                Ok(drawn) => heads.len() > 0 && is_rectangular(heads, body) && drawn@ == table_text(
                    heads,
                    body,
                ),
                Err(failure) => if heads.len() == 0 {
                    failure@ == error::render_error_view("table has no columns"@)
                } else {
                    !is_rectangular(heads, body) && failure@ == error::render_error_view(
                        "table row has the wrong column count"@,
                    )
                },
            }
        }),
{
    let ghost heads = header_texts(headers@);
    let ghost body = row_texts(rows@);
    if headers.len() == 0 {
        return Err(error::render_error("table has no columns"));
    }
    let mut index: usize = 0;
    while index < rows.len()
        invariant
            index <= rows.len(),
            heads == header_texts(headers@),
            headers@.len() > 0,
            body == row_texts(rows@),
            forall|i: int| 0 <= i < index ==> (#[trigger] body[i]).len() == heads.len(),
        decreases rows.len() - index,
    {
        assert(body[index as int] == text::texts(rows@[index as int]@));
        if rows[index].len() != headers.len() {
            return Err(error::render_error("table row has the wrong column count"));
        }
        index = index + 1;
    }
    let mut cells: Vec<String> = Vec::new();
    let mut column: usize = 0;
    while column < headers.len()
        invariant
            column <= headers.len(),
            heads == header_texts(headers@),
            text::texts(cells@) == heads.take(column as int),
        decreases headers.len() - column,
    {
        let ghost before = cells@;
        let cell = headers[column].to_owned();
        cells.push(cell);
        assert(text::texts(cells@) =~= text::texts(before).push(cell@));
        assert(heads.take(column + 1) =~= heads.take(column as int).push(cell@));
        column = column + 1;
    }
    assert(heads.take(column as int) =~= heads);
    let widths = widest(&cells, rows);
    let ghost values = width_values(widths@);
    let mut output = String::new();
    push_table_row(&mut output, &cells, &widths);
    push_rule(&mut output, &widths);
    assert(output@ =~= line_text(heads, values) + rule_text(values));
    let ghost top = output@;
    let mut next: usize = 0;
    assert(body.take(0) =~= Seq::<Seq<Seq<char>>>::empty());
    assert(output@ =~= top + body_text(body.take(0), values));
    while next < rows.len()
        invariant
            next <= rows.len(),
            body == row_texts(rows@),
            values == width_values(widths@),
            output@ == top + body_text(body.take(next as int), values),
        decreases rows.len() - next,
    {
        assert(body[next as int] == text::texts(rows@[next as int]@));
        assert(body.take(next + 1).drop_last() =~= body.take(next as int));
        push_table_row(&mut output, &rows[next], &widths);
        assert(output@ =~= top + body_text(body.take(next + 1), values));
        next = next + 1;
    }
    assert(body.take(next as int) =~= body);
    Ok(output)
}

/// A text has no more characters than bytes.
pub proof fn lemma_chars_within_bytes(cell: Seq<char>)
    ensures
        cell.len() <= byte_len(cell),
    decreases cell.len(),
{
    if cell.len() > 0 {
        lemma_chars_within_bytes(cell.drop_first());
    }
}

proof fn lemma_cell_within(
    headers: Seq<Seq<char>>,
    rows: Seq<Seq<Seq<char>>>,
    column: int,
    row: int,
)
    requires
        0 <= row < rows.len(),
    ensures
        byte_len(rows[row][column]) <= column_width(headers, rows, column),
    decreases rows.len(),
{
    if row < rows.len() - 1 {
        lemma_cell_within(headers, rows.drop_last(), column, row);
    }
}

proof fn lemma_header_within(headers: Seq<Seq<char>>, rows: Seq<Seq<Seq<char>>>, column: int)
    ensures
        byte_len(headers[column]) <= column_width(headers, rows, column),
    decreases rows.len(),
{
    if rows.len() > 0 {
        lemma_header_within(headers, rows.drop_last(), column);
    }
}

proof fn lemma_joined_len(
    left: Seq<Seq<char>>,
    right: Seq<Seq<char>>,
    left_separator: Seq<char>,
    right_separator: Seq<char>,
)
    requires
        left.len() == right.len(),
        left_separator.len() == right_separator.len(),
        forall|i: int| 0 <= i < left.len() ==> (#[trigger] left[i]).len() == right[i].len(),
    ensures
        text::joined(left, left_separator).len() == text::joined(right, right_separator).len(),
    decreases left.len(),
{
    if left.len() > 1 {
        lemma_joined_len(left.drop_last(), right.drop_last(), left_separator, right_separator);
        assert(left.last() == left[left.len() - 1]);
    }
}

proof fn lemma_line_len(cells: Seq<Seq<char>>, widths: Seq<nat>)
    requires
        cells.len() == widths.len(),
        forall|i: int| 0 <= i < cells.len() ==> byte_len(#[trigger] cells[i]) <= widths[i],
    ensures
        line_text(cells, widths).len() == rule_text(widths).len(),
{
    let left = aligned_cells(cells, widths);
    let right = widths.map_values(|width: nat| text::run('-', width));
    reveal_strlit(" | ");
    reveal_strlit("-+-");
    assert forall|i: int| 0 <= i < left.len() implies (#[trigger] left[i]).len()
        == right[i].len() by {
        lemma_chars_within_bytes(cells[i]);
    }
    lemma_joined_len(left, right, " | "@, "-+-"@);
}

/// The lines of a table are equally long: each cell is brought to the width of its column.
pub proof fn law_lines_align(headers: Seq<Seq<char>>, rows: Seq<Seq<Seq<char>>>)
    requires
        is_rectangular(headers, rows),
    ensures
        ({
            let widths = column_widths(headers, rows);
            &&& line_text(headers, widths).len() == rule_text(widths).len()
            &&& forall|i: int|
                0 <= i < rows.len() ==> line_text(#[trigger] rows[i], widths).len() == rule_text(
                    widths,
                ).len()
        }),
{
    let widths = column_widths(headers, rows);
    assert forall|column: int| 0 <= column < headers.len() implies byte_len(
        #[trigger] headers[column],
    ) <= widths[column] by {
        lemma_header_within(headers, rows, column);
    }
    lemma_line_len(headers, widths);
    assert forall|i: int| 0 <= i < rows.len() implies line_text(#[trigger] rows[i], widths).len()
        == rule_text(widths).len() by {
        assert forall|column: int| 0 <= column < rows[i].len() implies byte_len(
            #[trigger] rows[i][column],
        ) <= widths[column] by {
            lemma_cell_within(headers, rows, column, i);
        }
        lemma_line_len(rows[i], widths);
    }
}

/// A column is as wide as the longest of its header and its cells, counted in bytes: no narrower than
/// any of them and no wider than all.
pub proof fn law_column_widths(headers: Seq<Seq<char>>, rows: Seq<Seq<Seq<char>>>, column: int)
    requires
        0 <= column < headers.len(),
    ensures
        ({
            let width = column_widths(headers, rows)[column];
            &&& column_widths(headers, rows).len() == headers.len()
            &&& encode_utf8(headers[column]).len() <= width
            &&& forall|i: int|
                0 <= i < rows.len() ==> encode_utf8((#[trigger] rows[i])[column]).len() <= width
            &&& encode_utf8(headers[column]).len() == width || exists|i: int|
                0 <= i < rows.len() && encode_utf8((#[trigger] rows[i])[column]).len() == width
        }),
{
    lemma_header_within(headers, rows, column);
    assert forall|i: int| 0 <= i < rows.len() implies encode_utf8(
        (#[trigger] rows[i])[column],
    ).len() <= column_width(headers, rows, column) by {
        lemma_cell_within(headers, rows, column, i);
    }
    lemma_width_reached(headers, rows, column);
}

proof fn lemma_width_reached(headers: Seq<Seq<char>>, rows: Seq<Seq<Seq<char>>>, column: int)
    ensures
        encode_utf8(headers[column]).len() == column_width(headers, rows, column) || exists|i: int|
            0 <= i < rows.len() && encode_utf8((#[trigger] rows[i])[column]).len() == column_width(
                headers,
                rows,
                column,
            ),
    decreases rows.len(),
{
    if rows.len() > 0 {
        let shorter = rows.drop_last();
        let width = column_width(headers, rows, column);
        lemma_width_reached(headers, shorter, column);
        if encode_utf8(rows.last()[column]).len() == width {
            assert(rows[rows.len() - 1] == rows.last());
        } else if encode_utf8(headers[column]).len() != width {
            let i = choose|i: int|
                0 <= i < shorter.len() && encode_utf8((#[trigger] shorter[i])[column]).len()
                    == column_width(headers, shorter, column);
            assert(rows[i] == shorter[i]);
        }
    }
}

/// A cell that is as wide as its column or wider is drawn as it is. Any other is brought to exactly
/// that width with blanks: behind the cell in the first column, before it in all others.
pub proof fn law_aligned_cells(cell: Seq<char>, width: nat, column: int)
    ensures
        cell.len() >= width ==> aligned(cell, width, column) == cell,
        cell.len() < width ==> {
            let drawn = aligned(cell, width, column);
            &&& drawn.len() == width
            &&& column == 0 ==> {
                &&& drawn.take(cell.len() as int) == cell
                &&& forall|i: int| cell.len() <= i < width ==> #[trigger] drawn[i] == ' '
            }
            &&& column != 0 ==> {
                &&& drawn.skip(width - cell.len()) == cell
                &&& forall|i: int| 0 <= i < width - cell.len() ==> #[trigger] drawn[i] == ' '
            }
        },
{
    let drawn = aligned(cell, width, column);
    if cell.len() >= width {
        assert(drawn =~= cell);
    } else {
        let blanks = padding(cell, width);
        assert(blanks.len() == width - cell.len());
        if column == 0 {
            assert(drawn.take(cell.len() as int) =~= cell);
        } else {
            assert(drawn.skip(width - cell.len()) =~= cell);
        }
    }
}

/// A line has its cells one after another, each brought to the width of its column, with ` | ` between
/// two of them, and ends with a line feed.
pub proof fn law_table_lines(
    cells: Seq<Seq<char>>,
    widths: Seq<nat>,
    cell: Seq<char>,
    width: nat,
)
    requires
        cells.len() == widths.len(),
    ensures
        cells.len() == 0 ==> line_text(cells.push(cell), widths.push(width)) == aligned(
            cell,
            width,
            0,
        ) + seq!['\n'],
        cells.len() > 0 ==> line_text(cells.push(cell), widths.push(width)) == line_text(
            cells,
            widths,
        ).drop_last() + " | "@ + aligned(cell, width, cells.len() as int) + seq!['\n'],
        line_text(cells, widths).last() == '\n',
{
    let more = aligned_cells(cells.push(cell), widths.push(width));
    let before = aligned_cells(cells, widths);
    let drawn = aligned(cell, width, cells.len() as int);
    assert(more =~= before.push(drawn));
    assert(more.drop_last() =~= before);
    assert(line_text(cells, widths).drop_last() =~= text::joined(before, " | "@));
    if cells.len() == 0 {
        assert(line_text(cells.push(cell), widths.push(width)) =~= aligned(cell, width, 0) + seq![
            '\n',
        ]);
    } else {
        assert(text::joined(more, " | "@) =~= text::joined(before, " | "@) + " | "@ + drawn);
        assert(line_text(cells.push(cell), widths.push(width)) =~= line_text(
            cells,
            widths,
        ).drop_last() + " | "@ + drawn + seq!['\n']);
    }
}

/// The line under the headers has as many hyphens for each column as that is wide, with `-+-` between
/// two columns, and ends with a line feed.
pub proof fn law_table_rules(widths: Seq<nat>, width: nat)
    ensures
        widths.len() == 0 ==> rule_text(widths.push(width)) == Seq::new(width, |i: int| '-')
            + seq!['\n'],
        widths.len() > 0 ==> rule_text(widths.push(width)) == rule_text(widths).drop_last() + "-+-"@
            + Seq::new(width, |i: int| '-') + seq!['\n'],
        rule_text(widths).last() == '\n',
{
    let more = widths.push(width).map_values(|width: nat| text::run('-', width));
    let before = widths.map_values(|width: nat| text::run('-', width));
    let drawn = Seq::new(width, |i: int| '-');
    assert(text::run('-', width) =~= drawn);
    assert(more =~= before.push(drawn));
    assert(more.drop_last() =~= before);
    assert(rule_text(widths).drop_last() =~= text::joined(before, "-+-"@));
    if widths.len() == 0 {
        assert(rule_text(widths.push(width)) =~= drawn + seq!['\n']);
    } else {
        assert(text::joined(more, "-+-"@) =~= text::joined(before, "-+-"@) + "-+-"@ + drawn);
        assert(rule_text(widths.push(width)) =~= rule_text(widths).drop_last() + "-+-"@ + drawn
            + seq!['\n']);
    }
}

/// A table has the line of its headers, the line under them, and one line for each row in the order of
/// the rows, all drawn with the widths of its columns.
pub proof fn law_tables(headers: Seq<Seq<char>>, rows: Seq<Seq<Seq<char>>>, widths: Seq<nat>)
    requires
        widths == column_widths(headers, rows),
    ensures
        table_text(headers, rows) == seq![line_text(headers, widths), rule_text(widths)].flatten()
            + rows.map_values(|row: Seq<Seq<char>>| line_text(row, widths)).flatten(),
{
    let top = seq![line_text(headers, widths), rule_text(widths)];
    assert(top.flatten() == line_text(headers, widths) + rule_text(widths)) by {
        reveal_with_fuel(Seq::flatten, 3);
        assert(top.drop_first() =~= seq![rule_text(widths)]);
        assert(top.drop_first().drop_first() =~= Seq::<Seq<char>>::empty());
        assert(top.flatten() =~= line_text(headers, widths) + rule_text(widths));
    }
    lemma_body_lines(rows, widths);
}

proof fn lemma_body_lines(rows: Seq<Seq<Seq<char>>>, widths: Seq<nat>)
    ensures
        body_text(rows, widths) == rows.map_values(
            |row: Seq<Seq<char>>| line_text(row, widths),
        ).flatten(),
    decreases rows.len(),
{
    let lines = rows.map_values(|row: Seq<Seq<char>>| line_text(row, widths));
    if rows.len() > 0 {
        let shorter = rows.drop_last();
        lemma_body_lines(shorter, widths);
        assert(lines.drop_last() =~= shorter.map_values(
            |row: Seq<Seq<char>>| line_text(row, widths),
        ));
        lines.lemma_flatten_and_flatten_alt_are_equivalent();
        lines.drop_last().lemma_flatten_and_flatten_alt_are_equivalent();
        assert(lines.last() == line_text(rows.last(), widths));
        assert(lines.flatten_alt() =~= lines.drop_last().flatten_alt() + lines.last());
    } else {
        assert(body_text(rows, widths) =~= lines.flatten());
    }
}

/// Headers and rows stand in a table as they are given, cell by cell.
pub proof fn law_table_contents(headers: Seq<&str>, rows: Seq<Vec<String>>, row: int, column: int)
    requires
        0 <= row < rows.len(),
        0 <= column < rows[row]@.len(),
    ensures
        header_texts(headers).len() == headers.len(),
        forall|i: int| 0 <= i < headers.len() ==> #[trigger] header_texts(headers)[i] == headers[i]@,
        row_texts(rows).len() == rows.len(),
        row_texts(rows)[row].len() == rows[row]@.len(),
        row_texts(rows)[row][column] == rows[row]@[column]@,
{
}

} // verus!
