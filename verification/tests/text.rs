use bitmap::{Bitmap, ParseBitmapError};
use std::str::FromStr;

const LETTER_A: &str = "\
...#...
..#.#..
.#####.
#.....#";

#[test]
fn parse_a_four_line_block() {
    let bitmap = Bitmap::from_str(LETTER_A).unwrap();
    assert_eq!(bitmap.width(), 7);
    assert_eq!(bitmap.height(), 4);
    assert_eq!(bitmap.get(3, 0), Ok(true));
    assert_eq!(bitmap.get(0, 0), Ok(false));
    assert_eq!(bitmap.get(0, 3), Ok(true));
    assert_eq!(bitmap.get(6, 3), Ok(true));
    assert_eq!(bitmap.get(1, 3), Ok(false));
    assert_eq!(bitmap.render(), LETTER_A);
}

#[test]
fn parse_through_the_str_method() {
    let bitmap: Bitmap = "#.\n.#".parse().unwrap();
    assert_eq!(bitmap.get(0, 0), Ok(true));
    assert_eq!(bitmap.get(1, 0), Ok(false));
    assert_eq!(bitmap.get(0, 1), Ok(false));
    assert_eq!(bitmap.get(1, 1), Ok(true));
}

#[test]
fn parse_reads_lines_as_rows_and_characters_as_columns() {
    let bitmap = Bitmap::from_str("#..\n...").unwrap();
    assert_eq!(bitmap.width(), 3);
    assert_eq!(bitmap.height(), 2);
    assert_eq!(bitmap.get(0, 0), Ok(true));
    assert_eq!(bitmap.get(2, 1), Ok(false));
    for y in 0..2 {
        for x in 0..3 {
            assert_eq!(bitmap.get(x, y), Ok((x, y) == (0, 0)));
        }
    }
}

#[test]
fn parse_rejects_a_shorter_line() {
    assert_eq!(Bitmap::from_str("##\n#").err(), Some(ParseBitmapError));
}

#[test]
fn parse_rejects_a_longer_line() {
    assert_eq!(Bitmap::from_str("#\n##").err(), Some(ParseBitmapError));
    assert_eq!(Bitmap::from_str("\n#").err(), Some(ParseBitmapError));
}

#[test]
fn parse_rejects_a_trailing_newline() {
    assert_eq!(Bitmap::from_str("##\n##\n").err(), Some(ParseBitmapError));
}

#[test]
fn parse_rejects_a_foreign_character() {
    assert_eq!(Bitmap::from_str("#x").err(), Some(ParseBitmapError));
    assert_eq!(Bitmap::from_str("# ").err(), Some(ParseBitmapError));
    assert_eq!(Bitmap::from_str("..\n.\u{e9}").err(), Some(ParseBitmapError));
    assert_eq!(Bitmap::from_str("#\r\n#").err(), Some(ParseBitmapError));
}

#[test]
fn parse_the_empty_text() {
    let bitmap = Bitmap::from_str("").unwrap();
    assert_eq!(bitmap.width(), 0);
    assert_eq!(bitmap.height(), 0);
    assert_eq!(bitmap.render(), "");
}

#[test]
fn parse_empty_lines() {
    let bitmap = Bitmap::from_str("\n\n").unwrap();
    assert_eq!(bitmap.width(), 0);
    assert_eq!(bitmap.height(), 3);
    assert_eq!(bitmap.render(), "\n\n");
}

#[test]
fn parse_a_single_line() {
    let bitmap = Bitmap::from_str("#.#").unwrap();
    assert_eq!(bitmap.width(), 3);
    assert_eq!(bitmap.height(), 1);
    assert_eq!(bitmap.render(), "#.#");
}

#[test]
fn render_then_parse_then_render() {
    for text in ["", "#", ".", "\n", "#.\n.#", "....\n####\n.#.#", LETTER_A] {
        let bitmap = Bitmap::from_str(text).unwrap();
        assert_eq!(bitmap.render(), text);
    }
}

#[test]
fn render_a_blank_bitmap() {
    assert_eq!(Bitmap::new(4, 5).render(), "....\n....\n....\n....\n....");
    assert_eq!(Bitmap::new(1, 1).render(), ".");
}

#[test]
fn render_has_no_trailing_newline() {
    let mut bitmap = Bitmap::new(2, 2);
    assert_eq!(bitmap.set(1, 1, true), Ok(()));
    assert_eq!(bitmap.render(), "..\n.#");
}

#[test]
fn render_after_a_write() {
    let mut bitmap = Bitmap::new(4, 5);
    assert_eq!(bitmap.set(2, 4, true), Ok(()));
    assert_eq!(bitmap.render(), "....\n....\n....\n....\n..#.");
}

#[test]
fn render_a_bitmap_without_cells() {
    assert_eq!(Bitmap::new(0, 0).render(), "");
    assert_eq!(Bitmap::new(3, 0).render(), "");
    assert_eq!(Bitmap::new(0, 1).render(), "");
    assert_eq!(Bitmap::new(0, 3).render(), "\n\n");
}

#[test]
fn parse_what_was_rendered() {
    let mut bitmap = Bitmap::new(3, 2);
    assert_eq!(bitmap.set(0, 0, true), Ok(()));
    assert_eq!(bitmap.set(2, 1, true), Ok(()));
    let again = Bitmap::from_str(&bitmap.render()).unwrap();
    assert_eq!(again.width(), 3);
    assert_eq!(again.height(), 2);
    for y in 0..2 {
        for x in 0..3 {
            assert_eq!(again.get(x, y), bitmap.get(x, y));
        }
    }
}
