use say::vterm::{Overwrite, VTerm};

#[test]
fn basic_text() {
    let mut v = VTerm::new();
    v.feed(b"Hello world");
    assert_eq!(v.screen_text(), "Hello world");
    assert!(v.overwrites.is_empty());
}

#[test]
fn newline() {
    let mut v = VTerm::new();
    v.feed(b"line one\nline two");
    assert_eq!(v.screen_text(), "line one\nline two");
    assert!(v.overwrites.is_empty());
}

#[test]
fn detects_overwrite() {
    let mut v = VTerm::new();
    v.feed(b"ABCD");
    v.feed(b"\rXX");
    assert_eq!(v.overwrites.len(), 2);
    assert_eq!(v.overwrites[0].old, 'A');
    assert_eq!(v.overwrites[0].new, 'X');
}

#[test]
fn cursor_up_preserves_col_from_bar() {
    let mut v = VTerm::new();
    v.feed(b"Hello");
    v.feed(b"\n\n\nbar");
    // cursor-up 3 keeps col=3 (from "bar"), so writing overwrites "lo"
    v.feed(b"\x1b[3A");
    v.feed(b" world");
    assert!(!v.overwrites.is_empty(), "cursor-up without col fix causes overwrite");
}

#[test]
fn cursor_up_with_explicit_col_ok() {
    let mut v = VTerm::new();
    v.feed(b"Hello");
    v.feed(b"\n\n\nbar");
    v.feed(b"\x1b[3A\x1b[6G");
    v.feed(b" world");
    assert_eq!(v.screen_text(), "Hello world\n\n\nbar");
    assert!(v.overwrites.is_empty());
}

#[test]
fn cursor_up_with_cr_causes_overwrite() {
    let mut v = VTerm::new();
    v.feed(b"Hello");
    v.feed(b"\n\n\nbar");
    v.feed(b"\x1b[3A\r");
    v.feed(b"XX");
    assert!(!v.overwrites.is_empty(), "\\r after cursor-up should cause overwrite");
}

#[test]
fn column_restore_no_overwrite() {
    let mut v = VTerm::new();
    v.feed(b"Hello");
    v.feed(b"\n\n\nbar");
    v.feed(b"\x1b[3A\x1b[6G");
    v.feed(b" world");
    assert_eq!(v.screen_text(), "Hello world\n\n\nbar");
    assert!(v.overwrites.is_empty());
}

#[test]
fn erase_line_on_bar_ok() {
    let mut v = VTerm::new();
    v.feed(b"Hello");
    v.feed(b"\n\n\n\x1b[2Kprogress bar");
    v.feed(b"\x1b[3A\x1b[6G");
    v.feed(b" world");
    v.feed(b"\n\n\n\x1b[2Kprogress bar v2");
    assert!(v.overwrites.is_empty());
}

#[test]
fn full_pad_cycle_no_overwrites() {
    let gap = 2;
    let mut v = VTerm::new();
    let mut col: usize;

    v.feed(b"Hello");
    col = 5;
    v.feed(b"\n\n\n\x1b[2Kbar10%");

    let seq = format!("\x1b[{}A\x1b[{}G", gap + 1, col + 1);
    v.feed(seq.as_bytes());
    v.feed(b" world");
    col = 11;
    v.feed(b"\n\n\n\x1b[2Kbar50%");

    let seq = format!("\x1b[{}A\x1b[{}G", gap + 1, col + 1);
    v.feed(seq.as_bytes());
    v.feed(b"\nSecond");
    col = 6;
    v.feed(b"\n\n\n\x1b[2Kbar80%");

    let seq = format!("\x1b[{}A\x1b[{}G", gap + 1, col + 1);
    v.feed(seq.as_bytes());
    v.feed(b" line");

    assert!(
        v.overwrites.is_empty(),
        "overwrites detected:\n{}",
        v.overwrites.iter().map(|o| o.describe()).collect::<Vec<_>>().join("\n")
    );
    let text = v.screen_text();
    assert!(text.starts_with("Hello world\nSecond line"), "got: {text}");
}

#[test]
fn old_undo_pad_with_cr_fails() {
    let gap = 2;
    let mut v = VTerm::new();

    v.feed(b"Hello");
    v.feed(b"\n\n\n\x1b[2Kbar10%");

    let seq = format!("\x1b[{}A\r", gap + 1);
    v.feed(seq.as_bytes());
    v.feed(b" world");

    assert!(!v.overwrites.is_empty(), "old \\r approach should overwrite text");
}

#[test]
fn overwrite_describe_text() {
    let o = Overwrite { row: 2, col: 10, old: 'a', new: 'b' };
    assert_eq!(o.describe(), "  row=2 col=10: 'a' overwritten by 'b'");
}

#[test]
fn overwrite_positions_are_recorded() {
    let mut v = VTerm::new();
    v.feed(b"ab\ncd");
    v.feed(b"\x1b[1A\x1b[2GZ");
    assert_eq!(v.overwrites.len(), 1);
    assert_eq!((v.overwrites[0].row, v.overwrites[0].col), (0, 1));
    assert_eq!((v.overwrites[0].old, v.overwrites[0].new), ('b', 'Z'));
    assert_eq!(v.screen_text(), "aZ\ncd");
}

#[test]
fn same_char_or_space_is_no_overwrite() {
    let mut v = VTerm::new();
    v.feed(b"a b");
    v.feed(b"\ra");
    v.feed(b"\x1b[2GX");
    assert!(v.overwrites.is_empty());
    assert_eq!(v.screen_text(), "aXb");
}

#[test]
fn erase_to_end_of_line() {
    let mut v = VTerm::new();
    v.feed(b"Hello world\x1b[6G\x1b[K");
    assert_eq!(v.screen_text(), "Hello");
    v.feed(b"\x1b[0K!");
    assert_eq!(v.screen_text(), "Hello!");
}

#[test]
fn cursor_down_and_up_stop_at_top() {
    let mut v = VTerm::new();
    v.feed(b"\x1b[2Bx\x1b[9Ay");
    assert_eq!(v.row, 0);
    assert_eq!(v.screen_text(), " y\n\nx");
}

#[test]
fn unknown_and_bad_sequences_are_harmless() {
    let mut v = VTerm::new();
    v.feed(b"\x1b[31mred\x1b[0m \x1bX\x07ok\x1b[1;2Hz\x1b[");
    assert_eq!(v.screen_text(), "red Xokz");
    assert_eq!(v.col, 8);
}

#[test]
fn huge_parameter_falls_back_to_one() {
    let mut v = VTerm::new();
    v.feed(b"\n\n\x1b[99999999999999999999999Ax");
    assert_eq!(v.row, 1);
}

#[test]
fn screen_text_trims_trailing_blanks() {
    let mut v = VTerm::new();
    v.feed("a \u{3000}\n\n\n".as_bytes());
    assert_eq!(v.screen_text(), "a");
}

#[test]
fn invalid_bytes_show_replacement() {
    let mut v = VTerm::new();
    v.feed(b"a\xffb");
    assert_eq!(v.screen_text(), "a\u{fffd}b");
}

#[test]
fn try_feed_refuses_cursor_overflow() {
    let mut v = VTerm::new();
    v.row = usize::MAX - 2;
    assert!(!v.try_feed(b"\n\n"));
    assert_eq!(v.row, usize::MAX - 2);
    assert_eq!(v.screen_text(), "");
    let mut w = VTerm::new();
    assert!(w.try_feed(b"ok\nfine"));
    assert_eq!(w.screen_text(), "ok\nfine");
}

#[test]
fn feed_in_pieces_matches_feed_whole() {
    let mut a = VTerm::new();
    a.feed(b"one\x1b[2K two\nthree\x1b[1A\x1b[3GX");
    let mut b = VTerm::new();
    b.feed(b"one\x1b[2K two\n");
    b.feed(b"three\x1b[1A");
    b.feed(b"\x1b[3GX");
    assert_eq!(a.screen_text(), b.screen_text());
    assert_eq!(a.overwrites.len(), b.overwrites.len());
}

#[test]
fn appended_overwrites_replace_visible_different_text() {
    let mut v = VTerm::new();
    v.feed(b"ab cd\r");
    v.feed(b"aXyZd");
    assert_eq!(v.overwrites.len(), 2);
    for o in &v.overwrites {
        assert!(o.old != ' ' && o.old != o.new);
    }
    assert_eq!((v.overwrites[0].old, v.overwrites[0].new), ('b', 'X'));
    assert_eq!((v.overwrites[1].old, v.overwrites[1].new), ('c', 'Z'));
}

#[test]
fn rows_are_never_removed() {
    let mut v = VTerm::new();
    v.feed(b"one\ntwo\nthree");
    let before = v.rows.len();
    v.feed(b"\x1b[2A\x1b[2K\x1b[1A\x1b[K");
    assert_eq!(v.rows.len(), before);
    assert_eq!(v.screen_text(), "\ntwo\nthree");
}

#[test]
fn feeding_utf8_pieces_matches_joined_bytes() {
    let a = "caf\u{e9} \u{1f9ea}\n".as_bytes();
    let b = "\x1b[1A\x1b[3GX".as_bytes();
    let mut v1 = VTerm::new();
    v1.feed(a);
    v1.feed(b);
    let mut v2 = VTerm::new();
    v2.feed(&[a, b].concat());
    assert_eq!(v1.rows, v2.rows);
    assert_eq!((v1.row, v1.col), (v2.row, v2.col));
    assert_eq!(v1.overwrites.len(), v2.overwrites.len());
    assert_eq!(v1.screen_text(), "caX\u{e9} \u{1f9ea}");
}

#[test]
fn cursor_may_reach_last_row_without_writing() {
    let mut v = VTerm::new();
    let seq = format!("\x1b[{}B\x1b[5A\r", usize::MAX);
    assert!(v.try_feed(seq.as_bytes()));
    assert_eq!(v.row, usize::MAX - 5);
    let mut w = VTerm::new();
    let seq = format!("\x1b[{}Bx", usize::MAX);
    assert!(!w.try_feed(seq.as_bytes()));
    assert_eq!(w.row, 0);
}
