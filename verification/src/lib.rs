//! A fixed-size two-dimensional grid of boolean cells, with a textual form
//! made of `.` and `#` characters.
//!
//! [`Bitmap`] is the grid; [`BitmapView`] is its mathematical model, over
//! which every contract is stated; the module [`text`] defines the textual
//! form and proves that parsing and rendering agree.

pub mod grid;
pub mod model;
pub mod text;

pub use grid::{Bitmap, OutOfBoundsError, ParseBitmapError};
pub use model::BitmapView;
