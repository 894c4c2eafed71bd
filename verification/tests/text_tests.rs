use boxflow::text::{text_step, MeasuredText, MeasuredWord, TextLayoutInfo};

fn word(start: usize, end: usize, width: i64, height: i64) -> MeasuredWord {
    MeasuredWord { start, end, width, height }
}

fn measured(text: &[u8], words: Vec<MeasuredWord>) -> MeasuredText {
    MeasuredText { text: text.to_vec(), words }
}

fn info(text: &[u8], words: Vec<MeasuredWord>, max_width: i64) -> TextLayoutInfo {
    TextLayoutInfo { text: measured(text, words), size: 16, max_width }
}

#[test]
fn fill_line_takes_words_that_fit() {
    let t = info(b"a b c", vec![word(0, 1, 20, 10), word(2, 3, 20, 10), word(4, 5, 20, 10)], 1000);
    let (len, width, height) = t.fill_line(1000, 0);
    assert_eq!(len, 5);
    assert_eq!(width, 60);
    assert_eq!(height, 10);
}

#[test]
fn fill_line_stops_at_budget() {
    let t = info(b"aa bb cc", vec![word(0, 2, 30, 10), word(3, 5, 30, 10), word(6, 8, 30, 10)], 0);
    let (len, width, _height) = t.fill_line(70, 0);
    // Two words fit in 70 units; the third would exceed it.
    assert_eq!(len, 5);
    assert_eq!(width, 60);
}

#[test]
fn fill_line_zero_when_first_word_overflows() {
    let t = info(b"wide", vec![word(0, 4, 90, 10)], 0);
    let (len, width, height) = t.fill_line(50, 0);
    assert_eq!((len, width, height), (0, 0, 0));
}

#[test]
fn fill_line_forced_places_overwide_word() {
    let t = info(b"wide", vec![word(0, 4, 90, 10)], 0);
    let (len, width, height) = t.fill_line_forced(0);
    assert_eq!((len, width, height), (4, 90, 10));
}

#[test]
fn advance_past_whitespace_lands_on_next_word() {
    let t = info(b"a  b", vec![word(0, 1, 20, 10), word(3, 4, 20, 10)], 0);
    assert_eq!(t.advance_past_whitespace(1), 3);
    assert_eq!(t.advance_past_whitespace(0), 0);
}

#[test]
fn advance_past_whitespace_reaches_end_after_last_word() {
    let t = info(b"a  ", vec![word(0, 1, 20, 10)], 0);
    assert_eq!(t.advance_past_whitespace(1), 3);
}

#[test]
fn forward_progress_until_end() {
    // The offset strictly increases on every step, for any width budget,
    // including a single word wider than the whole budget.
    let t = info(
        b"aa bb ccccc dd",
        vec![word(0, 2, 30, 10), word(3, 5, 30, 10), word(6, 11, 90, 10), word(12, 14, 30, 10)],
        50,
    );
    let len = t.text.text.len();
    let mut offset = 0usize;
    let mut steps = 0usize;
    while offset < len {
        let (_committed, _start, end, _w, _h) = text_step(&t, 50, 0, offset);
        assert!(end > offset, "offset must strictly increase");
        offset = end;
        steps += 1;
        assert!(steps <= len, "line breaking must terminate");
    }
    assert_eq!(offset, len);
}

#[test]
fn forward_progress_with_trailing_whitespace() {
    let t = info(b"a   ", vec![word(0, 1, 20, 10)], 100);
    let (_c, _s, end, w, _h) = text_step(&t, 100, 0, 0);
    assert_eq!(end, 1);
    assert_eq!(w, 20);
    // From inside the trailing whitespace the step jumps to the end.
    let (_c2, _s2, end2, w2, _h2) = text_step(&t, 100, 20, 1);
    assert_eq!(end2, 4);
    assert_eq!(w2, 0);
}
