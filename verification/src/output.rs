//! Human-readable output: a small table writer and the shared styles.
//!
//! Every table here is a handful of left-aligned columns with a styled header.
//! Padding is computed on the text and the colour goes on afterwards, so a
//! coloured cell takes no more room than a plain one.
use owo_colors::OwoColorize;
use vstd::prelude::*;
use vstd::string::*;

use crate::text;
use crate::text::cat3;

verus! {

/// The gap between columns. Two spaces reads as a column boundary without a
/// separator character, which keeps output pasteable.
pub const GUTTER: &'static str = "  ";

/// How a text is shown.
#[derive(Clone, Copy, PartialEq, Eq, Structural, Debug)]
pub enum Style {
    Plain,
    Bold,
    Dimmed,
    Green,
    Red,
}

pub fn header_style() -> (r: Style)
    ensures
        r == Style::Bold,
{
    Style::Bold
}

/// Anything the index states as fact: dates, revisions, counts.
pub fn plain() -> (r: Style)
    ensures
        r == Style::Plain,
{
    Style::Plain
}

/// Something still true at the newest revision — a current version, a package
/// that has not left nixpkgs.
pub fn current() -> (r: Style)
    ensures
        r == Style::Green,
{
    Style::Green
}

/// Something that has ended: a version that was superseded, a package that is
/// gone.
pub fn ended() -> (r: Style)
    ensures
        r == Style::Red,
{
    Style::Red
}

/// Supporting detail — labels, counts, the parts of a line that qualify the
/// answer rather than being it.
pub fn muted() -> (r: Style)
    ensures
        r == Style::Dimmed,
{
    Style::Dimmed
}

/// The escape sequence a styled text opens with.
pub open spec fn escape_of(style: Style) -> Seq<char> {
    match style {
        Style::Plain => Seq::empty(),
        Style::Bold => "\x1b[1m"@,
        Style::Dimmed => "\x1b[2m"@,
        Style::Green => "\x1b[32m"@,
        Style::Red => "\x1b[31m"@,
    }
}

/// A text as it is shown in a style: between the style's escape sequence and
/// the one that ends it, or bare when the style is plain.
pub open spec fn painted(text: Seq<char>, style: Style) -> Seq<char> {
    if style == Style::Plain {
        text
    } else {
        escape_of(style) + text + "\x1b[0m"@
    }
}

/// Formats `owo_colors::OwoColorize::style` of a text and a `Style::new()`,
/// which writes the text alone.
#[verifier::external_body]
fn paint_plain(text: &str) -> (r: String)
    ensures
        r@ == text@,
{
    format!("{}", text.style(owo_colors::Style::new()))
}

/// Formats `owo_colors::OwoColorize::style` of a text and a `Style::bold`,
/// which writes the text between the escape sequence for bold and the one that
/// ends a style.
#[verifier::external_body]
fn paint_bold(text: &str) -> (r: String)
    ensures
        r@ == "\x1b[1m"@ + text@ + "\x1b[0m"@,
{
    format!("{}", text.style(owo_colors::Style::new().bold()))
}

/// Formats `owo_colors::OwoColorize::style` of a text and a `Style::dimmed`,
/// which writes the text between the escape sequence for dim and the one that
/// ends a style.
#[verifier::external_body]
fn paint_dimmed(text: &str) -> (r: String)
    ensures
        r@ == "\x1b[2m"@ + text@ + "\x1b[0m"@,
{
    format!("{}", text.style(owo_colors::Style::new().dimmed()))
}

/// Formats `owo_colors::OwoColorize::style` of a text and a `Style::green`,
/// which writes the text between the escape sequence for green and the one that
/// ends a style.
#[verifier::external_body]
fn paint_green(text: &str) -> (r: String)
    ensures
        r@ == "\x1b[32m"@ + text@ + "\x1b[0m"@,
{
    format!("{}", text.style(owo_colors::Style::new().green()))
}

/// Formats `owo_colors::OwoColorize::style` of a text and a `Style::red`,
/// which writes the text between the escape sequence for red and the one that
/// ends a style.
#[verifier::external_body]
fn paint_red(text: &str) -> (r: String)
    ensures
        r@ == "\x1b[31m"@ + text@ + "\x1b[0m"@,
{
    format!("{}", text.style(owo_colors::Style::new().red()))
}

/// Show a text in a style.
pub fn paint(text: &str, style: Style) -> (r: String)
    ensures
        r@ == painted(text@, style),
{
    match style {
        Style::Plain => paint_plain(text),
        Style::Bold => paint_bold(text),
        Style::Dimmed => paint_dimmed(text),
        Style::Green => paint_green(text),
        Style::Red => paint_red(text),
    }
}

/// A text and the style it is shown in.
pub struct Cell {
    text: String,
    style: Style,
}

pub struct CellView {
    pub text: Seq<char>,
    pub style: Style,
}

impl DeepView for Cell {
    type V = CellView;

    closed spec fn deep_view(&self) -> CellView {
        CellView { text: self.text@, style: self.style }
    }
}

impl Cell {
    pub fn new(text: String, style: Style) -> (r: Cell)
        ensures
            r.deep_view() == (CellView { text: text@, style }),
    {
        Cell { text, style }
    }
}

/// A left-aligned table whose column widths come from its contents.
pub struct Table {
    headers: Vec<String>,
    rows: Vec<Vec<Cell>>,
}

pub struct TableView {
    pub headers: Seq<Seq<char>>,
    pub rows: Seq<Seq<CellView>>,
}

impl View for Table {
    type V = TableView;

    closed spec fn view(&self) -> TableView {
        TableView { headers: self.headers.deep_view(), rows: self.rows.deep_view() }
    }
}

impl TableView {
    /// Every row has a cell for every header.
    pub open spec fn well_formed(self) -> bool {
        forall|i: int| 0 <= i < self.rows.len() ==> (#[trigger] self.rows[i]).len() == self.headers.len()
    }
}

/// The larger of two numbers.
pub open spec fn larger(a: nat, b: nat) -> nat {
    if a <= b {
        b
    } else {
        a
    }
}

/// How wide the widest text of a column is, over some of the rows and the
/// header.
pub open spec fn widest(header: Seq<char>, rows: Seq<Seq<CellView>>, column: int) -> nat
    decreases rows.len(),
{
    if rows.len() == 0 {
        header.len()
    } else {
        larger(widest(header, rows.drop_last(), column), rows.last()[column].text.len())
    }
}

/// How wide a column is.
pub open spec fn width_of(table: TableView, column: int) -> nat {
    widest(table.headers[column], table.rows, column)
}

pub open spec fn spaces(n: int) -> Seq<char> {
    Seq::new(
        if n > 0 {
            n as nat
        } else {
            0
        },
        |i: int| ' ',
    )
}

/// A text filled up with spaces to a width, except in the last column where
/// trailing spaces are only something for a reader to select by accident.
pub open spec fn padded(text: Seq<char>, width: nat, last: bool) -> Seq<char> {
    if last {
        text
    } else {
        text + spaces(width - text.len())
    }
}

/// A cell as a line shows it. The spaces after it stay out of the style, and
/// an empty text has no style at all.
pub open spec fn cell_shown(cell: CellView, width: nat, last: bool) -> Seq<char> {
    let shown = if cell.text.len() == 0 {
        Seq::empty()
    } else {
        painted(cell.text, cell.style)
    };
    if last {
        shown
    } else {
        shown + spaces(width - cell.text.len())
    }
}

/// The header line: the headers in their columns, styled as a whole.
pub open spec fn header_line(table: TableView) -> Seq<char> {
    let n = table.headers.len();
    painted(
        text::trimmed(
            text::joined(
                Seq::new(n, |i: int| padded(table.headers[i], width_of(table, i), i == n - 1)),
                GUTTER@,
            ),
        ),
        Style::Bold,
    )
}

/// The line of one row: its cells in their columns.
pub open spec fn row_line(table: TableView, row: Seq<CellView>) -> Seq<char> {
    let n = row.len();
    text::trimmed(
        text::joined(
            Seq::new(n, |i: int| cell_shown(row[i], width_of(table, i), i == n - 1)),
            GUTTER@,
        ),
    )
}

/// The lines a table prints: a header and a line per row, or nothing at all
/// when there are no rows — a bare header row claims a shape the caller has no
/// data for.
pub open spec fn lines_of(table: TableView) -> Seq<Seq<char>> {
    if table.rows.len() == 0 {
        Seq::empty()
    } else {
        seq![header_line(table)] + table.rows.map_values(
            |row: Seq<CellView>| row_line(table, row),
        )
    }
}

fn append_spaces(out: &mut String, from: usize, to: usize)
    ensures
        final(out)@ == old(out)@ + spaces(to - from),
{
    let mut i: usize = from;
    let ghost start = out@;
    assert(start + spaces(0) =~= start);
    proof {
        reveal_strlit(" ");
    }
    if from >= to {
        assert(spaces(to - from) =~= spaces(0));
        return ;
    }
    while i < to
        invariant
            from <= i <= to,
            " "@ == seq![' '],
            out@ == start + spaces(i - from),
        decreases to - i,
    {
        out.append(" ");
        assert(start + spaces(i - from) + seq![' '] =~= start + spaces(i + 1 - from));
        i = i + 1;
    }
}

/// Pad `text` to `width`, except in the last column where trailing spaces are
/// only something for a reader to select by accident.
pub fn pad(text: &str, width: usize, last: bool) -> (r: String)
    ensures
        r@ == padded(text@, width as nat, last),
{
    let mut out: String = text.to_string();
    if !last {
        let len: usize = text::chars_of(text).len();
        append_spaces(&mut out, len, width);
    }
    out
}

fn show_cell(cell: &Cell, width: usize, last: bool) -> (r: String)
    ensures
        r@ == cell_shown(cell.deep_view(), width as nat, last),
{
    let len: usize = text::chars_of(cell.text.as_str()).len();
    let mut out: String = if len == 0 {
        String::new()
    } else {
        paint(cell.text.as_str(), cell.style)
    };
    if !last {
        append_spaces(&mut out, len, width);
    }
    out
}

impl Table {
    pub fn new(headers: &[&str]) -> (r: Table)
        ensures
            r@.headers == headers@.map_values(|header: &str| header@),
            r@.rows == Seq::<Seq<CellView>>::empty(),
            r@.well_formed(),
    {
        let mut out: Vec<String> = Vec::new();
        let ghost all = headers@.map_values(|header: &str| header@);
        let mut i: usize = 0;
        while i < headers.len()
            invariant
                i <= headers.len(),
                all == headers@.map_values(|header: &str| header@),
                out.deep_view() == all.take(i as int),
            decreases headers.len() - i,
        {
            let ghost before = out.deep_view();
            out.push(headers[i].to_string());
            assert(out.deep_view() =~= before.push(all[i as int]));
            assert(out.deep_view() =~= all.take(i + 1));
            i = i + 1;
        }
        assert(all.take(i as int) =~= all);
        let table: Table = Table { headers: out, rows: Vec::new() };
        assert(table@.rows =~= Seq::<Seq<CellView>>::empty());
        table
    }

    /// Add a row, which has a cell for every header.
    pub fn row(&mut self, cells: Vec<Cell>)
        requires
            old(self)@.well_formed(),
            cells.len() == old(self)@.headers.len(),
        ensures
            final(self)@.headers == old(self)@.headers,
            final(self)@.rows == old(self)@.rows.push(cells.deep_view()),
            final(self)@.well_formed(),
    {
        let ghost before = self@.rows;
        self.rows.push(cells);
        assert(self@.rows =~= before.push(cells.deep_view()));
    }

    fn width(&self, column: usize) -> (r: usize)
        requires
            self@.well_formed(),
            column < self@.headers.len(),
        ensures
            r == width_of(self@, column as int),
    {
        let ghost header = self@.headers[column as int];
        let ghost rows = self@.rows;
        let mut r: usize = text::chars_of(self.headers[column].as_str()).len();
        let mut i: usize = 0;
        while i < self.rows.len()
            invariant
                i <= self.rows.len(),
                rows == self@.rows,
                column < self@.headers.len(),
                self@.well_formed(),
                r == widest(header, rows.take(i as int), column as int),
            decreases self.rows.len() - i,
        {
            assert(rows[i as int].len() == self@.headers.len());
            assert(rows.take(i + 1).drop_last() =~= rows.take(i as int));
            assert(rows.take(i + 1).last()[column as int].text
                == self.rows@[i as int]@[column as int].text@);
            let here: usize = text::chars_of(self.rows[i][column].text.as_str()).len();
            if here > r {
                r = here;
            }
            i = i + 1;
        }
        assert(rows.take(i as int) =~= rows);
        r
    }

    fn widths(&self) -> (r: Vec<usize>)
        requires
            self@.well_formed(),
        ensures
            r.len() == self@.headers.len(),
            forall|i: int| 0 <= i < r.len() ==> #[trigger] r@[i] == width_of(self@, i),
    {
        let mut out: Vec<usize> = Vec::new();
        while out.len() < self.headers.len()
            invariant
                self@.well_formed(),
                out.len() <= self@.headers.len(),
                forall|i: int| 0 <= i < out.len() ==> #[trigger] out@[i] == width_of(self@, i),
            decreases self.headers.len() - out.len(),
        {
            let width: usize = self.width(out.len());
            out.push(width);
        }
        out
    }

    /// The lines the table prints, or none when there are no rows.
    pub fn print(&self) -> (r: Vec<String>)
        requires
            self@.well_formed(),
        ensures
            r.deep_view() == lines_of(self@),
    {
        let mut lines: Vec<String> = Vec::new();
        if self.rows.len() == 0 {
            assert(lines.deep_view() =~= Seq::<Seq<char>>::empty());
            return lines;
        }
        let widths: Vec<usize> = self.widths();
        lines.push(self.show_header(&widths));
        let ghost table = self@;
        let ghost shown = table.rows.map_values(|row: Seq<CellView>| row_line(table, row));
        let mut i: usize = 0;
        assert(lines.deep_view() =~= seq![header_line(table)] + shown.take(0));
        while i < self.rows.len()
            invariant
                i <= self.rows.len(),
                table == self@,
                self@.well_formed(),
                widths.len() == self@.headers.len(),
                forall|j: int|
                    0 <= j < widths.len() ==> #[trigger] widths@[j] == width_of(self@, j),
                shown == table.rows.map_values(|row: Seq<CellView>| row_line(table, row)),
                lines.deep_view() == seq![header_line(table)] + shown.take(i as int),
            decreases self.rows.len() - i,
        {
            assert(self@.rows[i as int].len() == self@.headers.len());
            assert(self.rows@[i as int].deep_view() == self@.rows[i as int]);
            let ghost before = lines.deep_view();
            lines.push(self.show_row(&self.rows[i], &widths));
            assert(lines.deep_view() =~= before.push(shown[i as int]));
            assert(lines.deep_view() =~= seq![header_line(table)] + shown.take(i + 1));
            i = i + 1;
        }
        assert(shown.take(i as int) =~= shown);
        lines
    }

    fn show_header(&self, widths: &Vec<usize>) -> (r: String)
        requires
            widths.len() == self@.headers.len(),
            forall|j: int| 0 <= j < widths.len() ==> #[trigger] widths@[j] == width_of(self@, j),
        ensures
            r@ == header_line(self@),
    {
        let ghost n = self@.headers.len();
        let ghost all = Seq::new(
            n,
            |i: int| padded(self@.headers[i], width_of(self@, i), i == n - 1),
        );
        let mut parts: Vec<String> = Vec::new();
        let mut i: usize = 0;
        while i < self.headers.len()
            invariant
                i <= self.headers.len(),
                n == self@.headers.len(),
                widths.len() == n,
                forall|j: int|
                    0 <= j < widths.len() ==> #[trigger] widths@[j] == width_of(self@, j),
                all == Seq::new(
                    n,
                    |i: int| padded(self@.headers[i], width_of(self@, i), i == n - 1),
                ),
                parts.deep_view() == all.take(i as int),
            decreases self.headers.len() - i,
        {
            let ghost before = parts.deep_view();
            assert(self@.headers[i as int] == self.headers@[i as int]@);
            parts.push(pad(self.headers[i].as_str(), widths[i], i == self.headers.len() - 1));
            assert(parts.deep_view() =~= before.push(all[i as int]));
            assert(parts.deep_view() =~= all.take(i + 1));
            i = i + 1;
        }
        assert(all.take(i as int) =~= all);
        let line: String = text::join(&parts, GUTTER);
        paint(text::trim_end(line.as_str()), header_style())
    }

    fn show_row(&self, row: &Vec<Cell>, widths: &Vec<usize>) -> (r: String)
        requires
            row.len() == self@.headers.len(),
            widths.len() == self@.headers.len(),
            forall|j: int| 0 <= j < widths.len() ==> #[trigger] widths@[j] == width_of(self@, j),
        ensures
            r@ == row_line(self@, row.deep_view()),
    {
        let ghost n = row.deep_view().len();
        let ghost cells = row.deep_view();
        let ghost all = Seq::new(
            n,
            |i: int| cell_shown(cells[i], width_of(self@, i), i == n - 1),
        );
        let mut parts: Vec<String> = Vec::new();
        let mut i: usize = 0;
        while i < row.len()
            invariant
                i <= row.len(),
                n == row.len(),
                cells == row.deep_view(),
                widths.len() == n,
                forall|j: int|
                    0 <= j < widths.len() ==> #[trigger] widths@[j] == width_of(self@, j),
                all == Seq::new(
                    n,
                    |i: int| cell_shown(cells[i], width_of(self@, i), i == n - 1),
                ),
                parts.deep_view() == all.take(i as int),
            decreases row.len() - i,
        {
            let ghost before = parts.deep_view();
            assert(cells[i as int] == row@[i as int].deep_view());
            parts.push(show_cell(&row[i], widths[i], i == row.len() - 1));
            assert(parts.deep_view() =~= before.push(all[i as int]));
            assert(parts.deep_view() =~= all.take(i + 1));
            i = i + 1;
        }
        assert(all.take(i as int) =~= all);
        let line: String = text::join(&parts, GUTTER);
        text::trim_end(line.as_str()).to_string()
    }
}

/// A table prints a line per row under its header, and nothing without rows.
pub proof fn tables_print_a_line_per_row(table: TableView, row: int)
    ensures
        table.rows.len() == 0 ==> lines_of(table).len() == 0,
        table.rows.len() > 0 ==> lines_of(table).len() == table.rows.len() + 1,
        0 <= row < table.rows.len() ==> lines_of(table)[row + 1] == row_line(
            table,
            table.rows[row],
        ),
{
}

/// A column is as wide as its widest text: no header and no cell is wider,
/// and one of them is just as wide.
pub proof fn columns_fit_their_texts(table: TableView, column: int)
    requires
        0 <= column < table.headers.len(),
    ensures
        table.headers[column].len() <= width_of(table, column),
        forall|i: int|
            0 <= i < table.rows.len() ==> (#[trigger] table.rows[i])[column].text.len() <= width_of(
                table,
                column,
            ),
        width_of(table, column) == table.headers[column].len() || exists|i: int|
            0 <= i < table.rows.len() && (#[trigger] table.rows[i])[column].text.len() == width_of(
                table,
                column,
            ),
{
    lemma_widest(table.headers[column], table.rows, column);
}

proof fn lemma_widest(header: Seq<char>, rows: Seq<Seq<CellView>>, column: int)
    ensures
        header.len() <= widest(header, rows, column),
        forall|i: int|
            0 <= i < rows.len() ==> (#[trigger] rows[i])[column].text.len() <= widest(
                header,
                rows,
                column,
            ),
        widest(header, rows, column) == header.len() || exists|i: int|
            0 <= i < rows.len() && (#[trigger] rows[i])[column].text.len() == widest(
                header,
                rows,
                column,
            ),
    decreases rows.len(),
{
    if rows.len() > 0 {
        let fewer = rows.drop_last();
        lemma_widest(header, fewer, column);
        let w = widest(header, rows, column);
        let v = widest(header, fewer, column);
        assert forall|i: int| 0 <= i < rows.len() implies (#[trigger] rows[i])[column].text.len()
            <= w by {
            if i < fewer.len() {
                assert(rows[i] == fewer[i]);
            }
        }
        if w != v {
            assert(rows[rows.len() - 1][column].text.len() == w);
        } else if w != header.len() {
            let i = choose|i: int|
                0 <= i < fewer.len() && (#[trigger] fewer[i])[column].text.len() == v;
            assert(rows[i][column].text.len() == w);
        }
    }
}

/// Every cell but the last of a line takes up just its column's width: the
/// text shown and the spaces after it, escape sequences not counted.
pub proof fn cells_line_up(table: TableView, row: int, column: int)
    requires
        table.well_formed(),
        0 <= row < table.rows.len(),
        0 <= column < table.headers.len() - 1,
    ensures
        padded(table.headers[column], width_of(table, column), false).len() == width_of(
            table,
            column,
        ),
        table.rows[row][column].text.len() + spaces(
            width_of(table, column) - table.rows[row][column].text.len(),
        ).len() == width_of(table, column),
{
    columns_fit_their_texts(table, column);
}

/// `n` of something, pluralised.
pub open spec fn counted(n: nat, singular: Seq<char>) -> Seq<char> {
    if n == 1 {
        text::decimal(n) + " "@ + singular
    } else {
        text::decimal(n) + " "@ + singular + "s"@
    }
}

/// `n` of something, pluralised.
pub(crate) fn count_text(n: u64, singular: &str) -> (r: String)
    ensures
        r@ == counted(n as nat, singular@),
{
    let mut out: String = cat3(text::decimal_text(n).as_str(), " ", singular);
    if n != 1 {
        out.append("s");
    }
    out
}

/// `n` of something, pluralised: "1 revision", "3 revisions".
pub fn plural(n: usize, singular: &str) -> (r: String)
    ensures
        r@ == counted(n as nat, singular@),
{
    count_text(n as u64, singular)
}

/// A quotient rounded to the nearest whole number, halves to the even one.
pub open spec fn half_even(n: nat, d: nat) -> nat {
    let q = n / d;
    let r = n % d;
    if 2 * r > d || (2 * r == d && q % 2 == 1) {
        q + 1
    } else {
        q
    }
}

/// How far apart double-precision numbers lie around a whole number.
pub open spec fn spacing(n: nat) -> nat
    decreases n,
{
    if n < 0x20_0000_0000_0000 {
        1
    } else {
        2 * spacing(n / 2)
    }
}

/// A whole number at double precision.
pub open spec fn at_double_precision(n: nat) -> nat {
    half_even(n, spacing(n)) * spacing(n)
}

/// The number of bytes in a unit: 1024 to the power of its place.
pub open spec fn unit_size(unit: nat) -> nat
    decreases unit,
{
    if unit == 0 {
        1
    } else {
        1024 * unit_size((unit - 1) as nat)
    }
}

pub open spec fn unit_name(unit: nat) -> Seq<char> {
    if unit == 0 {
        "B"@
    } else if unit == 1 {
        "KiB"@
    } else if unit == 2 {
        "MiB"@
    } else if unit == 3 {
        "GiB"@
    } else if unit == 4 {
        "TiB"@
    } else {
        "PiB"@
    }
}

/// The place of the first unit, from `from` on, that a number of bytes is less
/// than 1024 of, or the last place when there is none.
pub open spec fn unit_for(n: nat, from: nat) -> nat
    decreases 5 - from,
{
    if from >= 5 || n < unit_size(from + 1) {
        from
    } else {
        unit_for(n, from + 1)
    }
}

/// A number of tenths with its one decimal.
pub open spec fn tenths_shown(tenths: nat) -> Seq<char> {
    text::decimal(tenths / 10) + "."@ + text::decimal(tenths % 10)
}

/// A byte count for a human. Whole bytes are exact; anything scaled is an
/// approximation, taken at double precision, and gets one decimal. Counts of
/// 1024 of the largest unit and more stay in that unit.
pub open spec fn bytes_shown(n: int) -> Seq<char> {
    if n < 1024 {
        text::signed_decimal(n) + " B"@
    } else {
        let size = at_double_precision(n as nat);
        let unit = unit_for(size, 0);
        tenths_shown(half_even(size * 10, unit_size(unit))) + " "@ + unit_name(unit)
    }
}

fn round_half_even(n: u128, d: u128) -> (r: u128)
    requires
        0 < d <= 0x1_0000_0000_0000_0000_0000,
    ensures
        r == half_even(n as nat, d as nat),
{
    let q: u128 = n / d;
    let rest: u128 = n % d;
    if 2 * rest > d || (2 * rest == d && q % 2 == 1) {
        proof {
            assert(q < u128::MAX) by (nonlinear_arith)
                requires
                    q == n / d,
                    rest == n % d,
                    rest > 0,
                    d > 0,
                    n <= u128::MAX,
            ;
        }
        q + 1
    } else {
        q
    }
}

fn spacing_of(n: u128) -> (r: u128)
    ensures
        r == spacing(n as nat),
        0 < r,
        r == 1 || r <= n,
    decreases n,
{
    if n < 0x20_0000_0000_0000 {
        1
    } else {
        2 * spacing_of(n / 2)
    }
}

fn name_of_unit(unit: usize) -> (r: &'static str)
    ensures
        r@ == unit_name(unit as nat),
{
    if unit == 0 {
        "B"
    } else if unit == 1 {
        "KiB"
    } else if unit == 2 {
        "MiB"
    } else if unit == 3 {
        "GiB"
    } else if unit == 4 {
        "TiB"
    } else {
        "PiB"
    }
}

proof fn lemma_unit_sizes()
    ensures
        unit_size(0) == 1,
        unit_size(1) == 1024,
        unit_size(2) == 1024 * 1024,
        unit_size(3) == 1024 * 1024 * 1024,
        unit_size(4) == 1024 * 1024 * 1024 * 1024,
        unit_size(5) == 1024 * 1024 * 1024 * 1024 * 1024,
        unit_size(6) == 1024 * 1024 * 1024 * 1024 * 1024 * 1024,
{
    reveal_with_fuel(unit_size, 7);
}

/// Rounding moves a number by no more than half of what it is rounded to.
pub proof fn rounding_stays_near(n: nat, d: nat)
    requires
        d > 0,
    ensures
        2 * n <= 2 * (half_even(n, d) * d) + d,
        2 * (half_even(n, d) * d) <= 2 * n + d,
{
    let q = n / d;
    let r = n % d;
    assert(n == q * d + r) by {
        vstd::arithmetic::div_mod::lemma_fundamental_div_mod(n as int, d as int);
        vstd::arithmetic::mul::lemma_mul_is_commutative(q as int, d as int);
    }
    vstd::arithmetic::div_mod::lemma_mod_bound(n as int, d as int);
    assert((q + 1) * d == q * d + d) by (nonlinear_arith);
}

proof fn lemma_spacing(n: nat)
    ensures
        spacing(n) == 1 || spacing(n) * 0x10_0000_0000_0000 <= n,
        spacing(n) > 0,
    decreases n,
{
    if n >= 0x20_0000_0000_0000 {
        lemma_spacing(n / 2);
    }
}

/// Counts of bytes below 2 to the power of 53 are taken just as they are.
pub proof fn small_counts_are_exact(n: nat)
    requires
        n < 0x20_0000_0000_0000,
    ensures
        at_double_precision(n) == n,
{
    assert(n / 1 == n && n % 1 == 0);
    let step = spacing(n);
    assert(half_even(n, step) == n);
    assert(n * step == n) by (nonlinear_arith)
        requires
            step == 1,
    ;
}

proof fn lemma_unit_for(size: nat)
    requires
        1024 <= size,
    ensures
        1 <= unit_for(size, 0) <= 5,
        0 < unit_size(unit_for(size, 0)) <= size,
        size < unit_size(6) ==> size < 1024 * unit_size(unit_for(size, 0)),
        size >= unit_size(6) ==> unit_for(size, 0) == 5,
{
    lemma_unit_sizes();
    reveal_with_fuel(unit_for, 7);
}

proof fn lemma_at_least_a_unit(n: nat)
    requires
        1024 <= n,
    ensures
        at_double_precision(n) >= 1024,
{
    lemma_spacing(n);
    rounding_stays_near(n, spacing(n));
}

/// The number a count of 1 KiB or more is shown with is 1.0 at least, and
/// below 1024 of the largest unit no more than 1024.0.
pub proof fn scaled_numbers_stay_small(n: nat)
    requires
        1024 <= n,
    ensures
        half_even(at_double_precision(n) * 10, unit_size(unit_for(at_double_precision(n), 0)))
            >= 10,
        at_double_precision(n) < unit_size(6) ==> half_even(
            at_double_precision(n) * 10,
            unit_size(unit_for(at_double_precision(n), 0)),
        ) <= 10240,
{
    let size = at_double_precision(n);
    lemma_at_least_a_unit(n);
    lemma_unit_for(size);
    let d = unit_size(unit_for(size, 0));
    rounding_stays_near(size * 10, d);
    let t = half_even(size * 10, d);
    assert(t >= 10) by (nonlinear_arith)
        requires
            2 * (size * 10) <= 2 * (t * d) + d,
            d <= size,
            d > 0,
    ;
    if size < unit_size(6) {
        assert(t <= 10240) by (nonlinear_arith)
            requires
                2 * (t * d) <= 2 * (size * 10) + d,
                size < 1024 * d,
                d > 0,
        ;
    }
}

/// The tenths a count is shown with, in the unit it is shown with, are the
/// count: they miss it by half a tenth of the unit at most.
pub proof fn shown_numbers_denote_the_count(n: nat)
    requires
        1024 <= n,
    ensures
        ({
            let size = at_double_precision(n);
            let unit = unit_size(unit_for(size, 0));
            let tenths = half_even(size * 10, unit);
            &&& 2 * (size * 10) <= 2 * (tenths * unit) + unit
            &&& 2 * (tenths * unit) <= 2 * (size * 10) + unit
        }),
{
    let size = at_double_precision(n);
    lemma_at_least_a_unit(n);
    lemma_unit_for(size);
    rounding_stays_near(size * 10, unit_size(unit_for(size, 0)));
}

proof fn lemma_tenths_fit(size: nat)
    requires
        1024 <= size <= 0x1_0000_0000_0000_0000,
    ensures
        half_even(size * 10, unit_size(unit_for(size, 0))) <= 163840,
{
    lemma_unit_sizes();
    lemma_unit_for(size);
    let d = unit_size(unit_for(size, 0));
    assert(size <= 16384 * d);
    rounding_stays_near(size * 10, d);
    let t = half_even(size * 10, d);
    assert(t <= 163840) by (nonlinear_arith)
        requires
            2 * (t * d) <= 2 * (size * 10) + d,
            size <= 16384 * d,
            d > 0,
    ;
}

/// A byte count for a human: "532 B", "48.2 KiB", "1.5 GiB".
pub fn bytes(n: i64) -> (r: String)
    ensures
        r@ == bytes_shown(n as int),
{
    if n < 1024 {
        let mut out: String = text::signed_text(n);
        out.append(" B");
        return out;
    }
    let step: u128 = spacing_of(n as u128);
    proof {
        lemma_unit_sizes();
        lemma_spacing(n as nat);
        rounding_stays_near(n as nat, step as nat);
    }
    let rounded: u128 = round_half_even(n as u128, step);
    let ghost size_is = at_double_precision(n as nat);
    assert(rounded * step == size_is);
    assert(size_is <= 0x1_0000_0000_0000_0000);
    let size: u128 = rounded * step;
    let mut unit: usize = 0;
    let mut divisor: u128 = 1;
    while unit < 5 && size >= divisor * 1024
        invariant
            unit <= 5,
            size == size_is,
            divisor == unit_size(unit as nat),
            divisor <= 0x4_0000_0000_0000,
            unit_for(size_is, 0) == unit_for(size_is, unit as nat),
        decreases 5 - unit,
    {
        divisor = divisor * 1024;
        unit = unit + 1;
        proof {
            lemma_unit_sizes();
        }
    }
    let tenths: u128 = round_half_even(size * 10, divisor);
    proof {
        lemma_tenths_fit(size_is);
    }
    let mut out: String = text::decimal_text((tenths / 10) as u64);
    out.append(".");
    out.append(text::decimal_text((tenths % 10) as u64).as_str());
    out.append(" ");
    out.append(name_of_unit(unit));
    out
}

} // verus!
