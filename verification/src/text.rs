//! The textual form of a bitmap: one line per row, `#` for a set cell and
//! `.` for a clear one, lines separated by a newline, none after the last.

use crate::model::BitmapView;
use vstd::prelude::*;

verus! {

/// The character that stands for a cell.
pub open spec fn cell_char(cell: bool) -> char {
    if cell {
        '#'
    } else {
        '.'
    }
}

/// Whether a character stands for a cell.
pub open spec fn is_cell_char(c: char) -> bool {
    c == '.' || c == '#'
}

/// The cell that a character stands for.
pub open spec fn char_cell(c: char) -> bool {
    c == '#'
}

/// The characters of one row.
pub open spec fn row_text(row: Seq<bool>) -> Seq<char> {
    Seq::new(row.len(), |x: int| cell_char(row[x]))
}

/// The cells of one line.
pub open spec fn line_cells(line: Seq<char>) -> Seq<bool> {
    Seq::new(line.len(), |x: int| char_cell(line[x]))
}

/// The lines of a text: the pieces between its newlines. There is always at
/// least one line; the empty text has one empty line, and a text that ends
/// in a newline has an empty last line.
pub open spec fn split_lines(text: Seq<char>) -> Seq<Seq<char>>
    decreases text.len(),
{
    if text.len() == 0 {
        seq![Seq::empty()]
    } else {
        let before = split_lines(text.drop_last());
        if text.last() == '\n' {
            before.push(Seq::empty())
        } else {
            before.drop_last().push(before.last().push(text.last()))
        }
    }
}

/// The text made of the given lines with a newline between each two.
pub open spec fn join_lines(lines: Seq<Seq<char>>) -> Seq<char>
    decreases lines.len(),
{
    if lines.len() == 0 {
        Seq::empty()
    } else if lines.len() == 1 {
        lines[0]
    } else {
        join_lines(lines.drop_last()) + seq!['\n'] + lines.last()
    }
}

/// Whether a piece of text holds no newline.
pub open spec fn is_plain(line: Seq<char>) -> bool {
    forall|x: int| 0 <= x < line.len() ==> #[trigger] line[x] != '\n'
}

/// Some line is not as long as the first one.
pub open spec fn ragged(lines: Seq<Seq<char>>) -> bool {
    exists|y: int| 0 <= y < lines.len() && (#[trigger] lines[y]).len() != lines[0].len()
}

/// Some line holds a character that stands for no cell.
pub open spec fn has_foreign_char(lines: Seq<Seq<char>>) -> bool {
    exists|y: int, x: int|
        0 <= y < lines.len() && 0 <= x < lines[y].len() && !is_cell_char(#[trigger] lines[y][x])
}

/// The text of a bitmap.
pub open spec fn render_text(bitmap: BitmapView) -> Seq<char> {
    join_lines(Seq::new(bitmap.rows.len(), |y: int| row_text(bitmap.rows[y])))
}

/// The bitmap that a text describes, if it describes one. The width is the
/// length of the first line and every line is a row. The empty text
/// describes the bitmap without rows or columns.
pub open spec fn parse_text(text: Seq<char>) -> Option<BitmapView> {
    let lines = split_lines(text);
    if ragged(lines) || has_foreign_char(lines) {
        None
    } else if text.len() == 0 {
        Some(BitmapView { width: 0, rows: Seq::empty() })
    } else {
        Some(
            BitmapView {
                width: lines[0].len(),
                rows: Seq::new(lines.len(), |y: int| line_cells(lines[y])),
            },
        )
    }
}

/// A text has at least one line.
pub proof fn lemma_split_lines_len(text: Seq<char>)
    ensures
        split_lines(text).len() >= 1,
    decreases text.len(),
{
    if text.len() > 0 {
        lemma_split_lines_len(text.drop_last());
    }
}

/// Joining the lines of a text gives the text back.
pub proof fn lemma_join_split(text: Seq<char>)
    ensures
        join_lines(split_lines(text)) == text,
    decreases text.len(),
{
    if text.len() > 0 {
        let shorter = text.drop_last();
        let before = split_lines(shorter);
        let lines = split_lines(text);
        lemma_split_lines_len(shorter);
        lemma_join_split(shorter);
        assert(text =~= shorter.push(text.last()));
        if text.last() == '\n' {
            assert(lines.drop_last() =~= before);
        } else if before.len() > 1 {
            assert(lines.drop_last() =~= before.drop_last());
        }
    }
}

/// No line of a text holds a newline.
pub proof fn lemma_split_lines_plain(text: Seq<char>)
    ensures
        forall|y: int|
            0 <= y < split_lines(text).len() ==> is_plain(#[trigger] split_lines(text)[y]),
    decreases text.len(),
{
    if text.len() > 0 {
        lemma_split_lines_len(text.drop_last());
        lemma_split_lines_plain(text.drop_last());
    }
}

/// Text without a newline, added to the end of a text, lengthens its last
/// line.
proof fn lemma_split_extended(text: Seq<char>, tail: Seq<char>)
    requires
        is_plain(tail),
    ensures
        split_lines(text + tail) == split_lines(text).drop_last().push(
            split_lines(text).last() + tail,
        ),
    decreases tail.len(),
{
    let lines = split_lines(text);
    lemma_split_lines_len(text);
    if tail.len() > 0 {
        let shorter = tail.drop_last();
        assert((text + tail).drop_last() =~= text + shorter);
        lemma_split_extended(text, shorter);
        assert((lines.last() + shorter).push(tail.last()) =~= lines.last() + tail);
    }
}

/// The lines of a text that was joined from lines without newlines are
/// those lines.
pub proof fn lemma_split_join(lines: Seq<Seq<char>>)
    requires
        lines.len() >= 1,
        forall|y: int| 0 <= y < lines.len() ==> is_plain(#[trigger] lines[y]),
    ensures
        split_lines(join_lines(lines)) == lines,
    decreases lines.len(),
{
    let empty = Seq::<char>::empty();
    if lines.len() == 1 {
        lemma_split_extended(empty, lines[0]);
    } else {
        let before = lines.drop_last();
        let broken = join_lines(before) + seq!['\n'];
        lemma_split_join(before);
        assert(broken.drop_last() =~= join_lines(before));
        lemma_split_extended(broken, lines.last());
    }
}

/// Rendering the bitmap that a text describes gives the text back.
pub proof fn lemma_render_parsed(text: Seq<char>)
    requires
        parse_text(text) is Some,
    ensures
        render_text(parse_text(text).unwrap()) == text,
{
    if text.len() > 0 {
        let lines = split_lines(text);
        let bitmap = parse_text(text).unwrap();
        let rendered = Seq::new(bitmap.rows.len(), |y: int| row_text(bitmap.rows[y]));
        assert forall|y: int| 0 <= y < lines.len() implies #[trigger] rendered[y] == lines[y] by {
            assert(rendered[y] =~= lines[y]);
        }
        assert(rendered =~= lines);
        lemma_join_split(text);
    }
}

/// Whether some text describes a bitmap. Without rows a bitmap has a text
/// of its own only if it has no columns either, and with a single row only
/// if that row has a cell: in both cases the text is empty, and the empty
/// text describes the bitmap without rows or columns.
pub open spec fn is_textual(bitmap: BitmapView) -> bool {
    &&& bitmap.wf()
    &&& bitmap.height() == 0 ==> bitmap.width == 0
    &&& bitmap.height() == 1 ==> bitmap.width > 0
}

/// The bitmap that a text describes is one that a text describes.
pub proof fn lemma_parsed_is_textual(text: Seq<char>)
    requires
        parse_text(text) is Some,
    ensures
        is_textual(parse_text(text).unwrap()),
{
    if text.len() > 0 && split_lines(text).len() == 1 {
        lemma_join_split(text);
    }
}

/// Parsing the text of a bitmap that some text describes gives the bitmap
/// back.
pub proof fn lemma_parse_rendered(bitmap: BitmapView)
    requires
        is_textual(bitmap),
    ensures
        parse_text(render_text(bitmap)) == Some(bitmap),
{
    if bitmap.height() == 0 {
        assert(bitmap.rows =~= Seq::empty());
    } else {
        let lines = Seq::new(bitmap.rows.len(), |y: int| row_text(bitmap.rows[y]));
        lemma_split_join(lines);
        let parsed = parse_text(render_text(bitmap)).unwrap();
        assert forall|y: int| 0 <= y < lines.len() implies #[trigger] parsed.rows[y]
            == bitmap.rows[y] by {
            assert(parsed.rows[y] =~= bitmap.rows[y]);
        }
        assert(parsed.rows =~= bitmap.rows);
    }
}

} // verus!
