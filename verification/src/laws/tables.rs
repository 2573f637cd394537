//! How tables are laid out, and the small rules of what is printed.
use vstd::prelude::*;
use vstd::utf8::*;

use crate::index;
use crate::output;
use crate::store;
use crate::text;

verus! {

/// Whether a column is as wide as the widest text in it, its header among
/// them.
pub open spec fn is_width(table: output::TableView, column: int, width: nat) -> bool {
    &&& table.headers[column].len() <= width
    &&& forall|i: int|
        0 <= i < table.rows.len() ==> (#[trigger] table.rows[i])[column].text.len() <= width
    &&& table.headers[column].len() == width || exists|i: int|
        0 <= i < table.rows.len() && (#[trigger] table.rows[i])[column].text.len() == width
}

/// Whether text is followed by as many spaces as fill up a width; by none in
/// the last column.
pub open spec fn is_filled(
    part: Seq<char>,
    shown: Seq<char>,
    room: nat,
    width: nat,
    last: bool,
) -> bool {
    &&& part.len() == shown.len() + if last {
        0
    } else {
        width - room
    }
    &&& part.take(shown.len() as int) == shown
    &&& forall|i: int| shown.len() <= i < part.len() ==> #[trigger] part[i] == ' '
}

/// A cell's text in its style; nothing where there is no text.
pub open spec fn styled(cell: output::CellView) -> Seq<char> {
    if cell.text.len() == 0 {
        Seq::empty()
    } else {
        match cell.style {
            output::Style::Plain => cell.text,
            output::Style::Bold => "\x1b[1m"@ + cell.text + "\x1b[0m"@,
            output::Style::Dimmed => "\x1b[2m"@ + cell.text + "\x1b[0m"@,
            output::Style::Green => "\x1b[32m"@ + cell.text + "\x1b[0m"@,
            output::Style::Red => "\x1b[31m"@ + cell.text + "\x1b[0m"@,
        }
    }
}

/// Whether the parts of a line are the cells of a row, each filled up to its
/// column's width.
pub open spec fn are_cells_of(table: output::TableView, r: int, parts: Seq<Seq<char>>) -> bool {
    &&& parts.len() == table.headers.len()
    &&& forall|c: int|
        0 <= c < parts.len() ==> is_cell_of(table, r, c, #[trigger] parts[c])
}

/// Whether a part is the cell of a row and a column.
pub open spec fn is_cell_of(table: output::TableView, r: int, c: int, part: Seq<char>) -> bool {
    exists|width: nat| #[trigger]
        is_width(table, c, width) && is_filled(
            part,
            styled(table.rows[r][c]),
            table.rows[r][c].text.len(),
            width,
            c == table.headers.len() - 1,
        )
}

/// Whether the parts of a line are the headers, each filled up to its column's
/// width.
pub open spec fn are_headers_of(table: output::TableView, parts: Seq<Seq<char>>) -> bool {
    &&& parts.len() == table.headers.len()
    &&& forall|c: int| 0 <= c < parts.len() ==> is_header_of(table, c, #[trigger] parts[c])
}

/// Whether a part is the header of a column.
pub open spec fn is_header_of(table: output::TableView, c: int, part: Seq<char>) -> bool {
    exists|width: nat| #[trigger]
        is_width(table, c, width) && is_filled(
            part,
            table.headers[c],
            table.headers[c].len(),
            width,
            c == table.headers.len() - 1,
        )
}

proof fn lemma_width(table: output::TableView, c: int)
    requires
        0 <= c < table.headers.len(),
    ensures
        is_width(table, c, output::width_of(table, c)),
{
    output::columns_fit_their_texts(table, c);
}

proof fn lemma_filled(shown: Seq<char>, room: nat, width: nat, last: bool)
    requires
        room <= width,
    ensures
        is_filled(
            if last {
                shown
            } else {
                shown + output::spaces(width - room)
            },
            shown,
            room,
            width,
            last,
        ),
{
    let part = if last {
        shown
    } else {
        shown + output::spaces(width - room)
    };
    assert(part.take(shown.len() as int) =~= shown);
}

/// A table without rows prints nothing. Else a line of headers comes first, in
/// bold, and then a line for each row. Columns stand two spaces apart, each
/// cell filled up to the widest text of its column, and no line ends in white
/// space that the last cells do not need.
pub proof fn tables_line_their_columns_up(table: output::TableView, r: int)
    requires
        table.well_formed(),
    ensures
        table.rows.len() == 0 ==> output::lines_of(table).len() == 0,
        table.rows.len() > 0 ==> output::lines_of(table).len() == table.rows.len() + 1,
        table.rows.len() > 0 ==> exists|parts: Seq<Seq<char>>| #[trigger]
            are_headers_of(table, parts) && output::lines_of(table)[0] == "\x1b[1m"@ + text::trimmed(
                text::joined(parts, "  "@),
            ) + "\x1b[0m"@,
        0 <= r < table.rows.len() ==> exists|parts: Seq<Seq<char>>| #[trigger]
            are_cells_of(table, r, parts) && output::lines_of(table)[r + 1] == text::trimmed(
                text::joined(parts, "  "@),
            ),
{
    let n = table.headers.len();
    if table.rows.len() > 0 {
        let parts = Seq::new(
            n,
            |i: int| output::padded(table.headers[i], output::width_of(table, i), i == n - 1),
        );
        assert forall|c: int| 0 <= c < parts.len() implies is_header_of(
            table,
            c,
            #[trigger] parts[c],
        ) by {
            lemma_width(table, c);
            lemma_filled(
                table.headers[c],
                table.headers[c].len(),
                output::width_of(table, c),
                c == n - 1,
            );
            assert(is_width(table, c, output::width_of(table, c)));
        }
        assert(are_headers_of(table, parts));
        assert(output::lines_of(table)[0] == output::header_line(table));
    }
    if 0 <= r < table.rows.len() {
        let row = table.rows[r];
        let parts = Seq::new(
            row.len(),
            |i: int| output::cell_shown(row[i], output::width_of(table, i), i == row.len() - 1),
        );
        assert forall|c: int| 0 <= c < parts.len() implies is_cell_of(
            table,
            r,
            c,
            #[trigger] parts[c],
        ) by {
            lemma_width(table, c);
            lemma_filled(styled(row[c]), row[c].text.len(), output::width_of(table, c), c == n - 1);
            assert(is_width(table, c, output::width_of(table, c)));
        }
        assert(are_cells_of(table, r, parts));
        output::tables_print_a_line_per_row(table, r);
    }
}

/// White space is the space, the tab and what ends lines and pages, and the
/// spaces of other widths.
pub proof fn spaces_are_those_of_every_script(c: char)
    ensures
        text::is_space(c) <==> seq![
            '\u{9}', '\u{a}', '\u{b}', '\u{c}', '\u{d}', ' ', '\u{85}', '\u{a0}', '\u{1680}',
            '\u{2000}', '\u{2001}', '\u{2002}', '\u{2003}', '\u{2004}', '\u{2005}', '\u{2006}',
            '\u{2007}', '\u{2008}', '\u{2009}', '\u{200a}', '\u{2028}', '\u{2029}', '\u{202f}',
            '\u{205f}', '\u{3000}',
        ].contains(c),
{
    let all = seq![
        '\u{9}', '\u{a}', '\u{b}', '\u{c}', '\u{d}', ' ', '\u{85}', '\u{a0}', '\u{1680}',
        '\u{2000}', '\u{2001}', '\u{2002}', '\u{2003}', '\u{2004}', '\u{2005}', '\u{2006}',
        '\u{2007}', '\u{2008}', '\u{2009}', '\u{200a}', '\u{2028}', '\u{2029}', '\u{202f}',
        '\u{205f}', '\u{3000}',
    ];
    if text::is_space(c) {
        let n = c as int;
        let at = if 9 <= n <= 13 {
            n - 9
        } else if n == 32 {
            5
        } else if n == 0x85 {
            6
        } else if n == 0xa0 {
            7
        } else if n == 0x1680 {
            8
        } else if 0x2000 <= n <= 0x200a {
            n - 0x2000 + 9
        } else if n == 0x2028 {
            20
        } else if n == 0x2029 {
            21
        } else if n == 0x202f {
            22
        } else if n == 0x205f {
            23
        } else {
            24
        };
        assert(all[at] as int == n);
        assert(all[at] == c);
    }
    if all.contains(c) {
        let i = choose|i: int| 0 <= i < all.len() && all[i] == c;
        assert(text::is_space(all[i]));
    }
}

/// The short hash of a revision is the first twelve characters of its hash.
pub proof fn short_hashes_are_twelve_characters(rev: Seq<char>)
    requires
        is_ascii_chars(rev),
        rev.len() >= 12,
    ensures
        index::short_hash(rev) == rev.take(12),
{
    index::short_hash_is_a_prefix(rev);
}

/// A count of paths is shown as it is recorded; one below zero as the machine
/// reads its bits without a sign.
pub proof fn recorded_counts_are_read_unsigned(n: i64)
    ensures
        n >= 0 ==> store::count_in(n) == n,
        n < 0 ==> store::count_in(n) == n + 18_446_744_073_709_551_616,
{
}

} // verus!
