//! The table and its rendering.

use crate::cell::{char_text, CellValue};
use crate::measure::{display_width, text_width};
use vstd::prelude::*;

verus! {

/// `n` copies of `c`.
pub open spec fn repeated(c: char, n: nat) -> Seq<char> {
    Seq::new(n, |_i: int| c)
}

/// The texts of a sequence of strings.
pub open spec fn views(v: Seq<String>) -> Seq<Seq<char>> {
    v.map_values(|s: String| s@)
}

/// The text of each cell of a row, at `places` fractional digits.
pub open spec fn texts_of(cells: Seq<CellValue>, places: nat) -> Seq<Seq<char>> {
    cells.map_values(|c: CellValue| c.text(places))
}

/// The display width of each text.
pub open spec fn widths_of(texts: Seq<Seq<char>>) -> Seq<usize> {
    texts.map_values(|t: Seq<char>| display_width(t))
}

/// Column widths `ws` after one more line is taken into account: a column
/// grows to the width of the line's cell in it, where the line has one there
/// and it is wider.
pub open spec fn widen(ws: Seq<usize>, line: Seq<Seq<char>>) -> Seq<usize> {
    Seq::new(
        ws.len(),
        |i: int|
            if i < line.len() && display_width(line[i]) > ws[i] {
                display_width(line[i])
            } else {
                ws[i]
            },
    )
}

/// Column widths `ws` after every line of `lines` is taken into account.
pub open spec fn widen_all(ws: Seq<usize>, lines: Seq<Seq<Seq<char>>>) -> Seq<usize>
    decreases lines.len(),
{
    if lines.len() == 0 {
        ws
    } else {
        widen(widen_all(ws, lines.drop_last()), lines.last())
    }
}

/// The width of each column: the widest of its header and of the cells that
/// the lines have in it. There is one column for each header.
pub open spec fn column_widths(headers: Seq<Seq<char>>, lines: Seq<Seq<Seq<char>>>) -> Seq<usize> {
    widen_all(widths_of(headers), lines)
}

/// The columns between the outer borders: each column with a space on either
/// side, and one divider between neighbours.
pub open spec fn inner_width(ws: Seq<usize>) -> nat
    decreases ws.len(),
{
    if ws.len() == 0 {
        0
    } else if ws.len() == 1 {
        (ws[0] + 2) as nat
    } else {
        (inner_width(ws.drop_last()) + ws.last() + 3) as nat
    }
}

/// `inner_width`, held at `usize::MAX` (a frame that wide could not be built
/// in memory anyway).
pub open spec fn frame_width(ws: Seq<usize>) -> nat {
    if inner_width(ws) > usize::MAX {
        usize::MAX as nat
    } else {
        inner_width(ws)
    }
}

/// The runs of horizontal line under each column, joined by `mid`.
pub open spec fn separator_body(ws: Seq<usize>, mid: char) -> Seq<char>
    decreases ws.len(),
{
    if ws.len() == 0 {
        Seq::empty()
    } else if ws.len() == 1 {
        repeated('─', (ws[0] + 2) as nat)
    } else {
        separator_body(ws.drop_last(), mid) + seq![mid] + repeated('─', (ws.last() + 2) as nat)
    }
}

/// A dividing line, ended by a newline.
pub open spec fn separator_line(ws: Seq<usize>, left: char, mid: char, right: char) -> Seq<char> {
    seq![left] + separator_body(ws, mid) + seq![right, '\n']
}

/// One cell of a row: a space, the text, spaces up to the column's width as
/// the text shows on screen, a space and a bar.
pub open spec fn cell_piece(value: Seq<char>, width: usize) -> Seq<char> {
    let shown = display_width(value);
    seq![' '] + value + repeated(' ', if width > shown { (width - shown) as nat } else { 0 }) + seq![
        ' ',
        '│',
    ]
}

/// The first `n` cells of a row.
pub open spec fn row_body(values: Seq<Seq<char>>, ws: Seq<usize>, n: nat) -> Seq<char>
    decreases n,
{
    if n == 0 {
        Seq::empty()
    } else {
        row_body(values, ws, (n - 1) as nat) + cell_piece(values[n - 1], ws[n - 1])
    }
}

/// The number of cells a row shows: as many as it has, and no more than there
/// are columns.
pub open spec fn shown_cells(values: Seq<Seq<char>>, ws: Seq<usize>) -> nat {
    if values.len() < ws.len() {
        values.len()
    } else {
        ws.len()
    }
}

/// A row of the table, ended by a newline.
pub open spec fn row_line(values: Seq<Seq<char>>, ws: Seq<usize>) -> Seq<char> {
    seq!['│'] + row_body(values, ws, shown_cells(values, ws)) + seq!['\n']
}

/// The rows of `lines`, in order.
pub open spec fn rows_block(lines: Seq<Seq<Seq<char>>>, ws: Seq<usize>) -> Seq<char>
    decreases lines.len(),
{
    if lines.len() == 0 {
        Seq::empty()
    } else {
        rows_block(lines.drop_last(), ws) + row_line(lines.last(), ws)
    }
}

/// The title between two bars, centred on `width` columns by its character
/// count; the odd space goes to the right. A longer title is not cut.
pub open spec fn title_line(title: Seq<char>, width: nat) -> Seq<char> {
    let pad: nat = if width > title.len() { (width - title.len()) as nat } else { 0 };
    seq!['│'] + repeated(' ', pad / 2) + title + repeated(' ', (pad - pad / 2) as nat) + seq![
        '│',
        '\n',
    ]
}

/// Every line that the column widths are taken over: the data rows, then the
/// summary where there is one.
pub open spec fn measured_lines(body: Seq<Seq<Seq<char>>>, summary: Option<Seq<Seq<char>>>) -> Seq<
    Seq<Seq<char>>,
> {
    match summary {
        Some(s) => body.push(s),
        None => body,
    }
}

/// The whole table, from cell texts.
pub open spec fn table_text(
    title: Seq<char>,
    headers: Seq<Seq<char>>,
    body: Seq<Seq<Seq<char>>>,
    summary: Option<Seq<Seq<char>>>,
) -> Seq<char> {
    let ws = column_widths(headers, measured_lines(body, summary));
    let width = frame_width(ws);
    seq!['╭'] + repeated('─', width) + seq!['╮', '\n'] + title_line(title, width) + separator_line(
        ws,
        '├',
        '┬',
        '┤',
    ) + row_line(headers, ws) + separator_line(ws, '├', '┼', '┤') + rows_block(body, ws) + (
    match summary {
        Some(s) => separator_line(ws, '├', '┼', '┤') + row_line(s, ws),
        None => Seq::empty(),
    }) + separator_line(ws, '╰', '┴', '╯')
}

/// What a table holds.
pub struct TableModel {
    pub title: Seq<char>,
    pub headers: Seq<Seq<char>>,
    pub rows: Seq<Seq<CellValue>>,
    pub summary: Option<Seq<CellValue>>,
    pub decimal_places: nat,
}

impl TableModel {
    /// The cell texts of the data rows.
    pub open spec fn body_texts(self) -> Seq<Seq<Seq<char>>> {
        self.rows.map_values(|r: Seq<CellValue>| texts_of(r, self.decimal_places))
    }

    /// The cell texts of the summary row, where there is one.
    pub open spec fn summary_texts(self) -> Option<Seq<Seq<char>>> {
        match self.summary {
            Some(s) => Some(texts_of(s, self.decimal_places)),
            None => None,
        }
    }

    /// The width of each column.
    pub open spec fn widths(self) -> Seq<usize> {
        column_widths(self.headers, measured_lines(self.body_texts(), self.summary_texts()))
    }

    /// The rendered table.
    pub open spec fn rendered(self) -> Seq<char> {
        table_text(self.title, self.headers, self.body_texts(), self.summary_texts())
    }
}

proof fn lemma_widen_all_widest(ws: Seq<usize>, lines: Seq<Seq<Seq<char>>>, i: int)
    requires
        0 <= i < ws.len(),
    ensures
        widen_all(ws, lines).len() == ws.len(),
        widen_all(ws, lines)[i] >= ws[i],
        forall|k: int|
            0 <= k < lines.len() && i < lines[k].len() ==> widen_all(ws, lines)[i] >= display_width(
                #[trigger] lines[k][i],
            ),
        widen_all(ws, lines)[i] == ws[i] || exists|k: int|
            0 <= k < lines.len() && i < lines[k].len() && widen_all(ws, lines)[i] == display_width(
                #[trigger] lines[k][i],
            ),
    decreases lines.len(),
{
    if lines.len() > 0 {
        let rest = lines.drop_last();
        let last = lines.len() - 1;
        lemma_widen_all_widest(ws, rest, i);
        assert forall|k: int| 0 <= k < last implies #[trigger] lines[k] == rest[k] by {}
        let r = widen_all(ws, lines);
        if r[i] != ws[i] && r[i] != widen_all(ws, rest)[i] {
            assert(i < lines[last].len() && r[i] == display_width(lines[last][i]));
        } else if r[i] != ws[i] {
            let k = choose|k: int|
                0 <= k < rest.len() && i < rest[k].len() && widen_all(ws, rest)[i] == display_width(
                    #[trigger] rest[k][i],
                );
            assert(lines[k] == rest[k]);
        }
    }
}

/// A column is exactly as wide as the widest of its header and of the cells
/// that the lines have in it, each measured by display width.
pub proof fn column_width_is_widest_cell(headers: Seq<Seq<char>>, lines: Seq<Seq<Seq<char>>>, i: int)
    requires
        0 <= i < headers.len(),
    ensures
        column_widths(headers, lines).len() == headers.len(),
        column_widths(headers, lines)[i] >= display_width(headers[i]),
        forall|k: int|
            0 <= k < lines.len() && i < lines[k].len() ==> column_widths(headers, lines)[i]
                >= display_width(#[trigger] lines[k][i]),
        column_widths(headers, lines)[i] == display_width(headers[i]) || exists|k: int|
            0 <= k < lines.len() && i < lines[k].len() && column_widths(headers, lines)[i]
                == display_width(#[trigger] lines[k][i]),
{
    lemma_widen_all_widest(widths_of(headers), lines, i);
}

/// Two sets of lines of the same shape whose cells show equally wide, cell
/// by cell (a cell and its coloured copy, say).
pub open spec fn equally_wide(a: Seq<Seq<Seq<char>>>, b: Seq<Seq<Seq<char>>>) -> bool {
    &&& a.len() == b.len()
    &&& forall|k: int| 0 <= k < a.len() ==> (#[trigger] a[k]).len() == b[k].len()
    &&& forall|k: int, i: int|
        0 <= k < a.len() && 0 <= i < a[k].len() ==> display_width(#[trigger] a[k][i])
            == display_width(b[k][i])
}

proof fn lemma_widen_all_equally_wide(ws: Seq<usize>, a: Seq<Seq<Seq<char>>>, b: Seq<Seq<Seq<char>>>)
    requires
        equally_wide(a, b),
    ensures
        widen_all(ws, a) == widen_all(ws, b),
    decreases a.len(),
{
    if a.len() > 0 {
        let last = a.len() - 1;
        assert forall|k: int| 0 <= k < last implies #[trigger] a.drop_last()[k] == a[k]
            && b.drop_last()[k] == b[k] by {}
        assert(equally_wide(a.drop_last(), b.drop_last()));
        lemma_widen_all_equally_wide(ws, a.drop_last(), b.drop_last());
        let prev = widen_all(ws, a.drop_last());
        assert forall|i: int| 0 <= i < a[last].len() implies display_width(#[trigger] a[last][i])
            == display_width(b[last][i]) by {}
        assert(widen(prev, a.last()) =~= widen(prev, b.last()));
    }
}

/// Column widths go by display width alone: headers and lines whose cells
/// show equally wide, cell by cell, give the same widths. With
/// `control_sequences_take_no_width`, colouring the text of a cell leaves
/// every column width, and so every cell's padding, as it was.
pub proof fn widths_go_by_display_width(
    headers: Seq<Seq<char>>,
    other_headers: Seq<Seq<char>>,
    lines: Seq<Seq<Seq<char>>>,
    other_lines: Seq<Seq<Seq<char>>>,
)
    requires
        widths_of(headers) == widths_of(other_headers),
        equally_wide(lines, other_lines),
    ensures
        column_widths(headers, lines) == column_widths(other_headers, other_lines),
{
    lemma_widen_all_equally_wide(widths_of(headers), lines, other_lines);
}

proof fn lemma_row_body_prefix(values: Seq<Seq<char>>, ws: Seq<usize>, m: int, n: nat)
    requires
        n <= m <= ws.len(),
    ensures
        row_body(values, ws, n) == row_body(values, ws.take(m), n),
    decreases n,
{
    if n > 0 {
        lemma_row_body_prefix(values, ws, m, (n - 1) as nat);
    }
}

/// A row with fewer cells than there are columns shows its own cells and
/// nothing more: the columns beyond them play no part in its line.
pub proof fn short_row_shows_only_its_cells(values: Seq<Seq<char>>, ws: Seq<usize>)
    requires
        values.len() <= ws.len(),
    ensures
        row_line(values, ws) == seq!['│'] + row_body(values, ws, values.len()) + seq!['\n'],
        row_line(values, ws) == row_line(values, ws.take(values.len() as int)),
{
    lemma_row_body_prefix(values, ws, values.len() as int, values.len());
}

/// Rendering reads the table and nothing else: two renderings of a table
/// that was not changed in between are the same text.
pub proof fn rendering_is_repeatable(t: TableModel, first: Seq<char>, second: Seq<char>)
    requires
        first == t.rendered(),
        second == t.rendered(),
    ensures
        first == second,
{
}

/// Appends `n` copies of `c`.
fn append_repeated(out: &mut String, c: char, n: usize)
    ensures
        final(out)@ == old(out)@ + repeated(c, n as nat),
{
    let piece = char_text(c);
    let mut i: usize = 0;
    while i < n
        invariant
            i <= n,
            piece@ == seq![c],
            out@ == old(out)@ + repeated(c, i as nat),
        decreases n - i,
    {
        out.append(piece.as_str());
        proof {
            assert(repeated(c, i as nat) + seq![c] =~= repeated(c, (i + 1) as nat));
        }
        i = i + 1;
    }
}

/// A dividing line across the columns of widths `widths`: `left`, a run of
/// horizontal line under each column (its width and the two spaces), `mid`
/// between the runs, `right`, and a newline.
pub fn format_separator(widths: &[usize], left: char, mid: char, right: char) -> (r: String)
    ensures
        r@ == separator_line(widths@, left, mid, right),
{
    let mut line = char_text(left);
    let n = widths.len();
    let mut i: usize = 0;
    while i < n
        invariant
            i <= n,
            n == widths@.len(),
            line@ == seq![left] + separator_body(widths@.take(i as int), mid),
        decreases n - i,
    {
        if i > 0 {
            line.append(char_text(mid).as_str());
        }
        append_repeated(&mut line, '─', widths[i]);
        append_repeated(&mut line, '─', 2);
        proof {
            let ws = widths@.take(i + 1);
            assert(ws.drop_last() =~= widths@.take(i as int));
            assert(repeated('─', widths[i as int] as nat) + repeated('─', 2) =~= repeated(
                '─',
                (widths[i as int] + 2) as nat,
            ));
            if i == 0 {
                assert(separator_body(widths@.take(0), mid) =~= Seq::<char>::empty());
            }
            assert(line@ =~= seq![left] + separator_body(ws, mid));
        }
        i = i + 1;
    }
    line.append(char_text(right).as_str());
    line.append(char_text('\n').as_str());
    proof {
        assert(widths@.take(n as int) =~= widths@);
        assert(line@ =~= separator_line(widths@, left, mid, right));
    }
    line
}

/// A row: a bar, then for each cell that has a column a space, the text
/// padded with spaces up to the column's width as it shows on screen, a space
/// and a bar; then a newline. Cells beyond the last column, and columns beyond
/// the last cell, are left out.
pub fn format_row(values: &[String], widths: &[usize]) -> (r: String)
    ensures
        r@ == row_line(views(values@), widths@),
{
    let ghost texts = views(values@);
    let n: usize = if values.len() < widths.len() {
        values.len()
    } else {
        widths.len()
    };
    let mut line = char_text('│');
    let mut i: usize = 0;
    while i < n
        invariant
            i <= n,
            n == shown_cells(texts, widths@),
            n <= values@.len(),
            n <= widths@.len(),
            texts == views(values@),
            line@ == seq!['│'] + row_body(texts, widths@, i as nat),
        decreases n - i,
    {
        let value = values[i].as_str();
        let shown = text_width(value);
        let pad: usize = if widths[i] > shown {
            widths[i] - shown
        } else {
            0
        };
        let ghost before = line@;
        line.append(char_text(' ').as_str());
        line.append(value);
        append_repeated(&mut line, ' ', pad);
        line.append(char_text(' ').as_str());
        line.append(char_text('│').as_str());
        proof {
            assert(texts[i as int] == values@[i as int]@);
            assert(line@ =~= before + cell_piece(texts[i as int], widths@[i as int]));
        }
        i = i + 1;
    }
    line.append(char_text('\n').as_str());
    proof {
        assert(line@ =~= row_line(texts, widths@));
    }
    line
}

/// The text of each cell, at `places` fractional digits.
fn cell_texts(cells: &Vec<CellValue>, places: usize) -> (r: Vec<String>)
    ensures
        views(r@) == texts_of(cells@, places as nat),
{
    let mut out: Vec<String> = Vec::new();
    let mut i: usize = 0;
    while i < cells.len()
        invariant
            i <= cells@.len(),
            out@.len() == i,
            views(out@) == texts_of(cells@.take(i as int), places as nat),
        decreases cells@.len() - i,
    {
        let t = cells[i].to_string_with_precision(places);
        let ghost prev = out@;
        out.push(t);
        proof {
            assert forall|j: int| 0 <= j < i + 1 implies #[trigger] views(out@)[j] == texts_of(
                cells@.take(i + 1),
                places as nat,
            )[j] by {
                if j < i {
                    assert(out@[j] == prev[j]);
                    assert(views(prev)[j] == texts_of(cells@.take(i as int), places as nat)[j]);
                }
            }
            assert(views(out@) =~= texts_of(cells@.take(i + 1), places as nat));
        }
        i = i + 1;
    }
    proof {
        assert(cells@.take(cells@.len() as int) =~= cells@);
    }
    out
}

/// The display width of each header.
fn header_widths(headers: &Vec<String>) -> (r: Vec<usize>)
    ensures
        r@ == widths_of(views(headers@)),
{
    let mut out: Vec<usize> = Vec::new();
    let mut i: usize = 0;
    while i < headers.len()
        invariant
            i <= headers@.len(),
            out@ == widths_of(views(headers@.take(i as int))),
        decreases headers@.len() - i,
    {
        let w = text_width(headers[i].as_str());
        out.push(w);
        proof {
            assert(out@ =~= widths_of(views(headers@.take(i + 1))));
        }
        i = i + 1;
    }
    proof {
        assert(headers@.take(headers@.len() as int) =~= headers@);
    }
    out
}

/// Widens each column to the width of the line's cell in it, where wider.
fn widen_with(widths: &mut Vec<usize>, texts: &Vec<String>)
    ensures
        final(widths)@ == widen(old(widths)@, views(texts@)),
{
    let ghost goal = widen(widths@, views(texts@));
    let n = widths.len();
    let mut i: usize = 0;
    while i < n
        invariant
            i <= n,
            n == widths@.len(),
            n == old(widths)@.len(),
            goal == widen(old(widths)@, views(texts@)),
            forall|j: int| 0 <= j < i ==> widths@[j] == #[trigger] goal[j],
            forall|j: int| i <= j < n ==> widths@[j] == #[trigger] old(widths)@[j],
        decreases n - i,
    {
        proof {
            assert(widths@[i as int] == old(widths)@[i as int]);
            if i < texts@.len() {
                assert(views(texts@)[i as int] == texts@[i as int]@);
            }
        }
        let ghost before = widths@;
        if i < texts.len() {
            let w = text_width(texts[i].as_str());
            if w > widths[i] {
                widths.set(i, w);
            }
        }
        proof {
            assert(widths@[i as int] == goal[i as int]);
            assert forall|j: int| 0 <= j < i + 1 implies widths@[j] == #[trigger] goal[j] by {
                if j < i {
                    assert(widths@[j] == before[j]);
                }
            }
            assert forall|j: int| i + 1 <= j < n implies widths@[j] == #[trigger] old(widths)@[j] by {
                assert(widths@[j] == before[j]);
            }
        }
        i = i + 1;
    }
    proof {
        assert(widths@ =~= goal);
    }
}

/// `frame_width` of `widths`.
fn frame_width_of(widths: &[usize]) -> (r: usize)
    ensures
        r == frame_width(widths@),
{
    let mut total: usize = 0;
    let mut i: usize = 0;
    while i < widths.len()
        invariant
            i <= widths@.len(),
            total == frame_width(widths@.take(i as int)),
        decreases widths@.len() - i,
    {
        let extra: u128 = if i == 0 {
            widths[i] as u128 + 2
        } else {
            widths[i] as u128 + 3
        };
        let sum: u128 = total as u128 + extra;
        proof {
            assert(widths@.take(i + 1).drop_last() =~= widths@.take(i as int));
        }
        total = if sum > usize::MAX as u128 {
            usize::MAX
        } else {
            sum as usize
        };
        i = i + 1;
    }
    proof {
        assert(widths@.take(widths@.len() as int) =~= widths@);
    }
    total
}

/// The title line: the title centred between two bars on `width` columns.
fn title_text(title: &str, width: usize) -> (r: String)
    ensures
        r@ == title_line(title@, width as nat),
{
    let len = title.unicode_len();
    let pad: usize = if width > len {
        width - len
    } else {
        0
    };
    let mut out = char_text('│');
    append_repeated(&mut out, ' ', pad / 2);
    out.append(title);
    append_repeated(&mut out, ' ', pad - pad / 2);
    out.append(char_text('│').as_str());
    out.append(char_text('\n').as_str());
    proof {
        assert(out@ =~= title_line(title@, width as nat));
    }
    out
}

/// A table with a title, headers, rows, an optional summary row, and the
/// number of fractional digits that numbers are shown with.
pub struct AsciiTable {
    title: String,
    headers: Vec<String>,
    rows: Vec<Vec<CellValue>>,
    summary: Option<Vec<CellValue>>,
    decimal_places: usize,
}

impl View for AsciiTable {
    type V = TableModel;

    closed spec fn view(&self) -> TableModel {
        TableModel {
            title: self.title@,
            headers: views(self.headers@),
            rows: self.rows@.map_values(|r: Vec<CellValue>| r@),
            summary: match self.summary {
                Some(s) => Some(s@),
                None => None,
            },
            decimal_places: self.decimal_places as nat,
        }
    }
}

impl AsciiTable {
    /// An empty table with the given title, showing two fractional digits.
    pub fn new(title: &str) -> (r: AsciiTable)
        ensures
            r@ == (TableModel {
                title: title@,
                headers: Seq::empty(),
                rows: Seq::empty(),
                summary: None,
                decimal_places: 2,
            }),
    {
        let r = AsciiTable {
            title: String::from_str(title),
            headers: Vec::new(),
            rows: Vec::new(),
            summary: None,
            decimal_places: 2,
        };
        proof {
            assert(r@.headers =~= Seq::<Seq<char>>::empty());
            assert(r@.rows =~= Seq::<Seq<CellValue>>::empty());
        }
        r
    }

    pub fn headers(&self) -> (r: &[String])
        ensures
            views(r@) == self@.headers,
    {
        self.headers.as_slice()
    }

    pub fn rows(&self) -> (r: &[Vec<CellValue>])
        ensures
            r@.map_values(|v: Vec<CellValue>| v@) == self@.rows,
    {
        self.rows.as_slice()
    }

    pub fn summary(&self) -> (r: Option<&[CellValue]>)
        ensures
            r matches Some(s) ==> self@.summary == Some(s@),
            r is None ==> self@.summary is None,
    {
        match &self.summary {
            Some(s) => Some(s.as_slice()),
            None => None,
        }
    }

    /// Replaces the headers, which set the columns.
    pub fn set_headers(&mut self, headers: Vec<&str>)
        ensures
            final(self)@ == (TableModel {
                headers: headers@.map_values(|h: &str| h@),
                ..old(self)@
            }),
    {
        let mut names: Vec<String> = Vec::new();
        let mut i: usize = 0;
        while i < headers.len()
            invariant
                i <= headers@.len(),
                names@.len() == i,
                views(names@) == headers@.take(i as int).map_values(|h: &str| h@),
            decreases headers@.len() - i,
        {
            let ghost prev = names@;
            names.push(String::from_str(headers[i]));
            proof {
                assert forall|j: int| 0 <= j < i + 1 implies #[trigger] views(names@)[j]
                    == headers@.take(i + 1).map_values(|h: &str| h@)[j] by {
                    if j < i {
                        assert(names@[j] == prev[j]);
                        assert(views(prev)[j] == headers@.take(i as int).map_values(|h: &str| h@)[j]);
                    }
                }
                assert(views(names@) =~= headers@.take(i + 1).map_values(|h: &str| h@));
            }
            i = i + 1;
        }
        proof {
            assert(headers@.take(headers@.len() as int) =~= headers@);
        }
        self.headers = names;
        proof {
            assert(self@ =~= (TableModel { headers: headers@.map_values(|h: &str| h@), ..old(self)@ }));
        }
    }

    /// Appends a data row.
    pub fn add_row(&mut self, row: Vec<CellValue>)
        ensures
            final(self)@ == (TableModel { rows: old(self)@.rows.push(row@), ..old(self)@ }),
    {
        self.rows.push(row);
        proof {
            assert(self@.rows =~= old(self)@.rows.push(row@));
        }
    }

    /// Sets the summary row.
    pub fn set_summary(&mut self, summary: Vec<CellValue>)
        ensures
            final(self)@ == (TableModel { summary: Some(summary@), ..old(self)@ }),
    {
        self.summary = Some(summary);
    }

    /// Sets how many fractional digits numbers are shown with.
    pub fn set_decimal_places(&mut self, places: usize)
        ensures
            final(self)@ == (TableModel { decimal_places: places as nat, ..old(self)@ }),
    {
        self.decimal_places = places;
    }

    /// The column widths: for each header, the widest display width among
    /// the header, the rows' cells and the summary's cell in its column.
    pub fn column_widths(&self) -> (r: Vec<usize>)
        ensures
            r@ == self@.widths(),
    {
        let ghost m = self@;
        let places = self.decimal_places;
        let mut widths = header_widths(&self.headers);
        let mut k: usize = 0;
        while k < self.rows.len()
            invariant
                m == self@,
                places == self.decimal_places,
                k <= self.rows@.len(),
                widths@ == widen_all(widths_of(m.headers), m.body_texts().take(k as int)),
            decreases self.rows@.len() - k,
        {
            let texts = cell_texts(&self.rows[k], places);
            widen_with(&mut widths, &texts);
            proof {
                let lines = m.body_texts().take(k + 1);
                assert(lines.drop_last() =~= m.body_texts().take(k as int));
                assert(m.rows.len() == self.rows@.len());
                assert(m.rows[k as int] == self.rows@[k as int]@);
                assert(m.decimal_places == places as nat);
                assert(m.body_texts().len() == m.rows.len());
                assert(m.body_texts()[k as int] == texts_of(m.rows[k as int], places as nat));
                assert(lines.last() == texts_of(self.rows@[k as int]@, places as nat));
            }
            k = k + 1;
        }
        proof {
            assert(m.body_texts().take(self.rows@.len() as int) =~= m.body_texts());
        }
        match &self.summary {
            Some(s) => {
                let texts = cell_texts(s, places);
                widen_with(&mut widths, &texts);
                proof {
                    let lines = measured_lines(m.body_texts(), m.summary_texts());
                    assert(lines.drop_last() =~= m.body_texts());
                }
            },
            None => {},
        }
        widths
    }

    /// The whole table as text: top border, title, headers, data rows, the
    /// summary row where there is one, and bottom border.
    pub fn render_to_string(&self) -> (r: String)
        ensures
            r@ == self@.rendered(),
    {
        let ghost m = self@;
        let places = self.decimal_places;
        let widths = self.column_widths();
        let ws = widths.as_slice();
        let width = frame_width_of(ws);
        let mut out = char_text('╭');
        append_repeated(&mut out, '─', width);
        out.append(char_text('╮').as_str());
        out.append(char_text('\n').as_str());
        out.append(title_text(self.title.as_str(), width).as_str());
        out.append(format_separator(ws, '├', '┬', '┤').as_str());
        out.append(format_row(self.headers.as_slice(), ws).as_str());
        out.append(format_separator(ws, '├', '┼', '┤').as_str());
        let ghost head = out@;
        let mut k: usize = 0;
        while k < self.rows.len()
            invariant
                m == self@,
                places == self.decimal_places,
                k <= self.rows@.len(),
                ws@ == m.widths(),
                out@ == head + rows_block(m.body_texts().take(k as int), ws@),
            decreases self.rows@.len() - k,
        {
            let texts = cell_texts(&self.rows[k], places);
            out.append(format_row(texts.as_slice(), ws).as_str());
            proof {
                let lines = m.body_texts().take(k + 1);
                assert(lines.drop_last() =~= m.body_texts().take(k as int));
                assert(m.rows.len() == self.rows@.len());
                assert(m.rows[k as int] == self.rows@[k as int]@);
                assert(m.decimal_places == places as nat);
                assert(m.body_texts().len() == m.rows.len());
                assert(m.body_texts()[k as int] == texts_of(m.rows[k as int], places as nat));
                assert(lines.last() == texts_of(self.rows@[k as int]@, places as nat));
            }
            k = k + 1;
        }
        proof {
            assert(m.body_texts().take(self.rows@.len() as int) =~= m.body_texts());
        }
        match &self.summary {
            Some(s) => {
                let texts = cell_texts(s, places);
                out.append(format_separator(ws, '├', '┼', '┤').as_str());
                out.append(format_row(texts.as_slice(), ws).as_str());
            },
            None => {},
        }
        out.append(format_separator(ws, '╰', '┴', '╯').as_str());
        proof {
            assert(out@ =~= m.rendered());
        }
        out
    }
}

} // verus!
