//! The bitmap itself: cells stored row by row in one vector, read and
//! written by coordinate, rendered to text and parsed from it.

use crate::model::BitmapView;
use crate::text::{
    char_cell, has_foreign_char, is_cell_char, join_lines, lemma_split_lines_len, parse_text,
    ragged, render_text, row_text, split_lines,
};
use core::str::FromStr;
use vstd::prelude::*;
use vstd::string::StringExecFns;

verus! {

/// A coordinate lay outside the bitmap.
#[derive(Debug, PartialEq, Eq)]
pub struct OutOfBoundsError;

/// A text described no bitmap: its lines differed in length, or it held a
/// character other than `.`, `#` and the newline.
#[derive(Debug, PartialEq, Eq)]
pub struct ParseBitmapError;

/// A fixed-size grid of boolean cells, addressed by column `x` and row `y`.
///
/// The cells are stored row-major: the cell `(x, y)` is at position
/// `y * width + x` of the backing vector, whose length is `width * height`
/// from construction on.
pub struct Bitmap {
    width: usize,
    height: usize,
    data: Vec<bool>,
}

/// The position of the cell `(x, y)` in the backing vector of a bitmap of
/// the given width.
spec fn cell_index(width: int, x: int, y: int) -> int {
    y * width + x
}

/// A cell's position lies inside the backing vector.
proof fn lemma_cell_index_bounds(width: int, height: int, x: int, y: int)
    requires
        0 <= x < width,
        0 <= y < height,
    ensures
        0 <= y * width,
        0 <= cell_index(width, x, y) < width * height,
        width * height == height * width,
{
    assert(0 <= y * width && (y + 1) * width <= height * width && (y + 1) * width == y * width
        + width && height * width == width * height) by (nonlinear_arith)
        requires
            0 <= y < height,
            0 < width,
    ;
}

/// Two cells of a bitmap share a position only if they are the same cell.
proof fn lemma_cell_index_injective(width: int, x1: int, y1: int, x2: int, y2: int)
    requires
        0 <= x1 < width,
        0 <= x2 < width,
        cell_index(width, x1, y1) == cell_index(width, x2, y2),
    ensures
        x1 == x2,
        y1 == y2,
{
    assert(y1 == y2) by (nonlinear_arith)
        requires
            0 <= x1 < width,
            0 <= x2 < width,
            y1 * width + x1 == y2 * width + x2,
    ;
}

/// The lines held by a vector, each as a sequence of characters.
spec fn lines_view(lines: Vec<Vec<char>>) -> Seq<Seq<char>> {
    Seq::new(lines@.len(), |y: int| lines@[y]@)
}

/// Splits a string at its newlines.
fn lines_of(s: &str) -> (lines: Vec<Vec<char>>)
    ensures
        lines_view(lines) == split_lines(s@),
{
    let mut lines: Vec<Vec<char>> = Vec::new();
    let mut line: Vec<char> = Vec::new();
    for c in it: s.chars()
        invariant
            it.seq() == s@,
            split_lines(s@.take(it.index())) == lines_view(lines).push(line@),
    {
        proof {
            let seen = s@.take(it.index() + 1);
            assert(seen.drop_last() =~= s@.take(it.index()));
        }
        if c == '\n' {
            lines.push(line);
            line = Vec::new();
        } else {
            line.push(c);
        }
    }
    lines.push(line);
    proof {
        assert(s@.take(s@.len() as int) =~= s@);
    }
    lines
}

impl View for Bitmap {
    type V = BitmapView;

    closed spec fn view(&self) -> BitmapView {
        BitmapView {
            width: self.width as nat,
            rows: Seq::new(
                self.height as nat,
                |y: int|
                    Seq::new(
                        self.width as nat,
                        |x: int| self.data@[cell_index(self.width as int, x, y)],
                    ),
            ),
        }
    }
}

impl Bitmap {
    #[verifier::type_invariant]
    spec fn inv(&self) -> bool {
        self.data@.len() == self.width * self.height
    }

    /// A bitmap of the given size with every cell clear.
    pub fn new(width: usize, height: usize) -> (bitmap: Bitmap)
        requires
            width * height <= usize::MAX,
        ensures
            bitmap@ == BitmapView::blank(width as nat, height as nat),
            forall|x: int, y: int| bitmap@.contains(x, y) ==> !(#[trigger] bitmap@.get(x, y)),
    {
        let bitmap = Bitmap { width, height, data: vec![false; width * height] };
        proof {
            assert forall|x: int, y: int| 0 <= x < width && 0 <= y < height implies !(
                #[trigger] bitmap@.rows[y][x]
            ) by {
                lemma_cell_index_bounds(width as int, height as int, x, y);
            }
            assert(bitmap@.rows =~~= BitmapView::blank(width as nat, height as nat).rows);
        }
        bitmap
    }

    /// The view of a bitmap is a well-formed grid whose sides fit in
    /// `usize`.
    pub proof fn lemma_view_wf(&self)
        ensures
            self@.wf(),
            self@.width <= usize::MAX,
            self@.height() <= usize::MAX,
    {
    }

    /// The number of columns.
    pub fn width(&self) -> (width: usize)
        ensures
            width == self@.width,
    {
        self.width
    }

    /// The number of rows.
    pub fn height(&self) -> (height: usize)
        ensures
            height == self@.height(),
    {
        self.height
    }

    /// The cell in column `x` of row `y`, or an error where there is no
    /// such cell.
    pub fn get(&self, x: usize, y: usize) -> (r: Result<bool, OutOfBoundsError>)
        ensures
            r is Ok <==> self@.contains(x as int, y as int),
            r matches Ok(cell) ==> cell == self@.get(x as int, y as int),
    {
        if x >= self.width || y >= self.height {
            return Err(OutOfBoundsError);
        }
        proof {
            use_type_invariant(self);
            assert(self.data.len() == self.width * self.height);
            lemma_cell_index_bounds(self.width as int, self.height as int, x as int, y as int);
        }
        Ok(self.data[y * self.width + x])
    }

    /// Stores `value` in the cell in column `x` of row `y` and leaves every
    /// other cell as it was. Where there is no such cell, nothing changes
    /// and an error is returned.
    pub fn set(&mut self, x: usize, y: usize, value: bool) -> (r: Result<(), OutOfBoundsError>)
        ensures
            r is Ok <==> old(self)@.contains(x as int, y as int),
            r is Ok ==> final(self)@ == old(self)@.set(x as int, y as int, value),
            r is Err ==> final(self)@ == old(self)@,
    {
        if x >= self.width || y >= self.height {
            return Err(OutOfBoundsError);
        }
        proof {
            use_type_invariant(&*self);
            assert(self.data.len() == self.width * self.height);
            lemma_cell_index_bounds(self.width as int, self.height as int, x as int, y as int);
        }
        let index: usize = y * self.width + x;
        self.data[index] = value;
        proof {
            let width = self.width as int;
            let before = old(self)@.set(x as int, y as int, value);
            assert forall|yy: int, xx: int|
                0 <= yy < self.height && 0 <= xx < self.width implies #[trigger] self@.rows[yy][xx]
                == before.rows[yy][xx] by {
                lemma_cell_index_bounds(width, self.height as int, xx, yy);
                if cell_index(width, xx, yy) == cell_index(width, x as int, y as int) {
                    lemma_cell_index_injective(width, xx, yy, x as int, y as int);
                }
            }
            assert(self@.rows =~~= before.rows);
        }
        Ok(())
    }

    /// The text of the bitmap: one line of `width` characters for each row,
    /// `#` for a set cell and `.` for a clear one, with a newline between
    /// each two lines and none after the last.
    pub fn render(&self) -> (out: String)
        ensures
            out@ == render_text(self@),
    {
        proof {
            use_type_invariant(self);
        }
        let ghost lines = Seq::new(self@.rows.len(), |y: int| row_text(self@.rows[y]));
        let mut out = String::new();
        for y in 0..self.height
            invariant
                self.data.len() == self.width * self.height,
                lines == Seq::new(self@.rows.len(), |y: int| row_text(self@.rows[y])),
                out@ == join_lines(lines.take(y as int)) + (if 0 < y < self.height {
                    seq!['\n']
                } else {
                    Seq::empty()
                }),
        {
            let ghost start = out@;
            for x in 0..self.width
                invariant
                    y < self.height,
                    self.data.len() == self.width * self.height,
                    lines == Seq::new(self@.rows.len(), |y: int| row_text(self@.rows[y])),
                    out@ == start + lines[y as int].take(x as int),
            {
                proof {
                    lemma_cell_index_bounds(
                        self.width as int,
                        self.height as int,
                        x as int,
                        y as int,
                    );
                }
                let cell = self.data[y * self.width + x];
                out.append(if cell { "#" } else { "." });
                proof {
                    reveal_strlit("#");
                    reveal_strlit(".");
                }
            }
            proof {
                reveal_strlit("\n");
                assert(lines.take(y + 1).drop_last() =~= lines.take(y as int));
            }
            if y != self.height - 1 {
                out.append("\n");
            }
        }
        proof {
            assert(lines.take(self.height as int) =~= lines);
        }
        out
    }
}

impl FromStr for Bitmap {
    type Err = ParseBitmapError;

    /// The bitmap that a text describes. The text is split at its
    /// newlines; the first line gives the width, every line must be as long
    /// as the first and hold only `.` (a clear cell) and `#` (a set cell),
    /// and each line becomes a row. The empty text gives the bitmap without
    /// rows or columns.
    fn from_str(s: &str) -> (r: Result<Bitmap, ParseBitmapError>)
        ensures
            r is Err <==> ragged(split_lines(s@)) || has_foreign_char(split_lines(s@)),
            r matches Ok(bitmap) ==> parse_text(s@) == Some(bitmap@),
    {
        let lines = lines_of(s);
        proof {
            lemma_split_lines_len(s@);
        }
        let ghost text_lines = split_lines(s@);
        let height = if s.is_empty() {
            0
        } else {
            lines.len()
        };
        let width = lines[0].len();
        let mut data: Vec<bool> = Vec::new();
        assert(data@.len() == 0 * width);
        for y in 0..lines.len()
            invariant
                text_lines == split_lines(s@),
                text_lines == lines_view(lines),
                text_lines.len() >= 1,
                width == text_lines[0].len(),
                data@.len() == y * width,
                forall|yy: int| 0 <= yy < y ==> (#[trigger] text_lines[yy]).len() == width,
                forall|yy: int, xx: int|
                    0 <= yy < y && 0 <= xx < width ==> is_cell_char(#[trigger] text_lines[yy][xx])
                        && data@[cell_index(width as int, xx, yy)] == char_cell(
                        text_lines[yy][xx],
                    ),
        {
            let line = &lines[y];
            assert(line@ == text_lines[y as int]);
            if line.len() != width {
                return Err(ParseBitmapError);
            }
            for x in 0..width
                invariant
                    y < lines.len(),
                    text_lines == split_lines(s@),
                    text_lines == lines_view(lines),
                    line@ == text_lines[y as int],
                    line@.len() == width,
                    data@.len() == y * width + x,
                    forall|yy: int, xx: int|
                        0 <= yy < y && 0 <= xx < width ==> is_cell_char(
                            #[trigger] text_lines[yy][xx],
                        ) && data@[cell_index(width as int, xx, yy)] == char_cell(
                            text_lines[yy][xx],
                        ),
                    forall|xx: int|
                        0 <= xx < x ==> is_cell_char(#[trigger] text_lines[y as int][xx])
                            && data@[cell_index(width as int, xx, y as int)] == char_cell(
                            text_lines[y as int][xx],
                        ),
            {
                let c = line[x];
                let ghost before = data@;
                if c == '#' {
                    data.push(true);
                } else if c == '.' {
                    data.push(false);
                } else {
                    return Err(ParseBitmapError);
                }
                proof {
                    assert forall|yy: int, xx: int|
                        0 <= yy < y && 0 <= xx < width implies data@[cell_index(
                        width as int,
                        xx,
                        yy,
                    )] == before[cell_index(width as int, xx, yy)] by {
                        lemma_cell_index_bounds(width as int, y as int, xx, yy);
                    }
                }
            }
            proof {
                assert((y + 1) * width == y * width + width) by (nonlinear_arith);
            }
        }
        proof {
            if s@.len() == 0 {
                assert(data@.len() == 0) by (nonlinear_arith)
                    requires
                        data@.len() == lines.len() * width,
                        width == 0,
                ;
            }
            assert(data@.len() == width * height) by (nonlinear_arith)
                requires
                    data@.len() == lines.len() * width,
                    height == lines.len() || (height == 0 && data@.len() == 0),
            ;
        }
        let bitmap = Bitmap { width, height, data };
        proof {
            let parsed = parse_text(s@).unwrap();
            assert(bitmap@.rows =~~= parsed.rows);
        }
        Ok(bitmap)
    }
}

} // verus!
