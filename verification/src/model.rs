//! The mathematical model of a bitmap: a width and a sequence of rows.

use vstd::prelude::*;

verus! {

/// A bitmap as a mathematical value. `rows[y][x]` is the cell in column `x`
/// of row `y`. The width is kept beside the rows because a bitmap without
/// rows still has one.
pub struct BitmapView {
    pub width: nat,
    pub rows: Seq<Seq<bool>>,
}

impl BitmapView {
    /// The bitmap of the given size with every cell clear.
    pub open spec fn blank(width: nat, height: nat) -> BitmapView {
        BitmapView { width, rows: Seq::new(height, |y: int| Seq::new(width, |x: int| false)) }
    }

    /// The number of rows.
    pub open spec fn height(self) -> nat {
        self.rows.len()
    }

    /// Every row has exactly `width` cells.
    pub open spec fn wf(self) -> bool {
        forall|y: int| 0 <= y < self.rows.len() ==> (#[trigger] self.rows[y]).len() == self.width
    }

    /// Whether `(x, y)` addresses a cell.
    pub open spec fn contains(self, x: int, y: int) -> bool {
        0 <= x < self.width && 0 <= y < self.height()
    }

    /// The cell in column `x` of row `y`.
    pub open spec fn get(self, x: int, y: int) -> bool
        recommends
            self.contains(x, y),
    {
        self.rows[y][x]
    }

    /// The bitmap that differs from this one in the cell `(x, y)` alone,
    /// which holds `value`.
    pub open spec fn set(self, x: int, y: int, value: bool) -> BitmapView
        recommends
            self.contains(x, y),
    {
        BitmapView { width: self.width, rows: self.rows.update(y, self.rows[y].update(x, value)) }
    }
}

/// A blank bitmap has the size it was asked for, and every cell of it is
/// clear.
pub proof fn lemma_blank_is_clear(width: nat, height: nat)
    ensures
        BitmapView::blank(width, height).wf(),
        BitmapView::blank(width, height).width == width,
        BitmapView::blank(width, height).height() == height,
        forall|x: int, y: int|
            BitmapView::blank(width, height).contains(x, y) ==> !(#[trigger] BitmapView::blank(
                width,
                height,
            ).get(x, y)),
{
}

/// A cell that was written holds the written value, and the write changes
/// neither another cell nor the size of the bitmap.
pub proof fn lemma_set_then_get(bitmap: BitmapView, x: int, y: int, value: bool)
    requires
        bitmap.wf(),
        bitmap.contains(x, y),
    ensures
        bitmap.set(x, y, value).wf(),
        bitmap.set(x, y, value).width == bitmap.width,
        bitmap.set(x, y, value).height() == bitmap.height(),
        bitmap.set(x, y, value).get(x, y) == value,
        forall|x2: int, y2: int|
            bitmap.contains(x2, y2) && (x2 != x || y2 != y) ==> #[trigger] bitmap.set(
                x,
                y,
                value,
            ).get(x2, y2) == bitmap.get(x2, y2),
{
}

} // verus!
