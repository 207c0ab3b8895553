use say::display::Display;

#[test]
fn first_word_frame_highlights_word() {
    let mut d = Display::new("Hello big world", true, false);
    assert_eq!(d.start_sequence(), "\x1b[?25l");
    let out = d.on_word(6, 3);
    assert_eq!(out, "\x1b[2KHello \x1b[7mbig\x1b[0m world\n");
}

#[test]
fn later_frames_move_back_up() {
    let mut d = Display::new("Hello big world", true, true);
    let _ = d.on_word(0, 5);
    let out = d.on_word(10, 5);
    assert_eq!(out, "\x1b[2A\r\x1b[2KHello big \x1b[7mworld\x1b[0m\n");
}

#[test]
fn progress_only_frame_has_no_text() {
    let mut d = Display::new("abc", false, true);
    assert_eq!(d.start_sequence(), "");
    assert_eq!(d.on_word(0, 1), "");
    assert_eq!(d.on_word(1, 1), "\x1b[1A\r");
    assert!(d.shows_progress());
    assert_eq!(d.total_utf16(), 3);
}

#[test]
fn frame_with_non_ascii_word() {
    let mut d = Display::new("a \u{1f9ea} \u{e9}t\u{e9}", true, false);
    assert_eq!(d.total_utf16(), 8);
    let out = d.on_word(2, 2);
    assert_eq!(out, "\x1b[2Ka \x1b[7m\u{1f9ea}\x1b[0m \u{e9}t\u{e9}\n");
    let out = d.on_word(5, 3);
    assert_eq!(out, "\x1b[1A\r\x1b[2Ka \u{1f9ea} \x1b[7m\u{e9}t\u{e9}\x1b[0m\n");
}

#[test]
fn word_past_end_highlights_nothing() {
    let mut d = Display::new("ab", true, false);
    assert_eq!(d.on_word(5, 3), "\x1b[2Kab\x1b[7m\x1b[0m\n");
}

#[test]
fn finish_draws_text_and_full_bar() {
    let mut d = Display::new("Hi", true, true);
    let _ = d.on_word(0, 2);
    let out = d.finish();
    let bar = "\u{2588}".repeat(30);
    assert_eq!(
        out,
        format!("\x1b[2A\r\x1b[2KHi\n\x1b[2K  [\x1b[32m{}\x1b[0m] 100%\n\x1b[?25h", bar)
    );
    assert_eq!(d.end_sequence(), "\x1b[?25h");
}

#[test]
fn finish_before_any_word_has_no_cursor_move() {
    let d = Display::new("Hi", false, false);
    assert_eq!(d.finish(), "");
    assert_eq!(d.end_sequence(), "");
}
