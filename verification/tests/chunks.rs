use say::chunk::{snap_to_break, split_chunks, MAX_CHUNK};
use say::utf16::{text_word, Utf16Map};

#[test]
fn chunks_short_text_single() {
    let text = "Hello world, this is short.";
    let c = split_chunks(text);
    assert_eq!(c.len(), 1);
    assert_eq!(c[0], (0, text));
}

#[test]
fn chunks_long_splits_at_sentence() {
    let a = "x".repeat(1800);
    let text = format!("{}. {}", a, "y".repeat(500));
    let c = split_chunks(&text);
    assert!(c.len() >= 2, "should split: {:?}", c.len());
    assert!(c[0].1.ends_with('.'));
}

#[test]
fn chunks_prefers_paragraph_break() {
    let a = "word ".repeat(350);
    let b = "more ".repeat(200);
    let text = format!("{}\n\n{}", a.trim(), b.trim());
    let c = split_chunks(&text);
    assert!(c.len() >= 2);
}

#[test]
fn chunks_no_empty() {
    let c = split_chunks("   \n\n  ");
    assert!(c.is_empty());
}

#[test]
fn utf16_map_handles_surrogate_pairs() {
    let text = "a \u{1f9ea} b";
    let map = Utf16Map::new(text);
    let through_emoji = "a \u{1f9ea}".encode_utf16().count();
    assert_eq!(map.to_byte(through_emoji), "a \u{1f9ea}".len());
}

#[test]
fn paragraph_break_is_exact_cut() {
    let a = "word ".repeat(350);
    let b = "more ".repeat(200);
    let text = format!("{}\n\n{}", a.trim(), b.trim());
    let c = split_chunks(&text);
    assert_eq!(c.len(), 2);
    assert_eq!(c[0], (0, a.trim()));
    assert_eq!(c[1].0, a.trim().len() + 2);
    assert_eq!(c[1].1, b.trim());
}

#[test]
fn sentence_cut_keeps_the_period() {
    let a = "x".repeat(1800);
    let text = format!("{}. {}", a, "y".repeat(500));
    let c = split_chunks(&text);
    assert_eq!(c.len(), 2);
    assert_eq!(c[0], (0, &text[..1801]));
    assert_eq!(c[1], (1802, &text[1802..]));
}

#[test]
fn unicode_whitespace_only_gives_no_chunks() {
    let text = "\u{3000}\u{a0} \t".repeat(800);
    assert!(split_chunks(&text).is_empty());
}

#[test]
fn short_text_keeps_leading_whitespace() {
    let text = "  hi";
    assert_eq!(split_chunks(text), vec![(0, text)]);
}

#[test]
fn long_text_without_breaks_cuts_at_char_boundary() {
    // 3-byte characters: 2000 is not a boundary, 1998 is.
    let text = "\u{20ac}".repeat(1000);
    let c = split_chunks(&text);
    assert_eq!(c[0].0, 0);
    assert_eq!(c[0].1.len(), 1998);
    assert_eq!(c[1].0, 1998);
    assert_eq!(c[1].1.len(), 1002);
    for (_, piece) in &c {
        assert!(piece.len() <= MAX_CHUNK);
    }
}

#[test]
fn chunks_skip_whitespace_between_pieces() {
    let text = format!("{}\n   {}", "a".repeat(1990), "b".repeat(100));
    let c = split_chunks(&text);
    assert_eq!(c.len(), 2);
    assert_eq!(c[0], (0, &text[..1990]));
    assert_eq!(c[1], (1994, &text[1994..]));
}

#[test]
fn snap_prefers_paragraph_over_line_and_space() {
    let text = "aaaa bbbb\ncccc\n\ndddd eeee\nffff";
    assert_eq!(snap_to_break(text, 100), 14);
}

#[test]
fn snap_prefers_line_over_sentence() {
    assert_eq!(snap_to_break("aaaa. bbbb\ncc. dd", 100), 10);
}

#[test]
fn snap_sentence_end_cuts_after_mark() {
    assert_eq!(snap_to_break("aaaa bbbb! cccc dd", 100), 10);
    assert_eq!(snap_to_break("aaaa bbbb? cccc dd", 100), 10);
}

#[test]
fn snap_falls_back_to_space_then_limit() {
    assert_eq!(snap_to_break("aaaa bbbb cccc", 100), 9);
    assert_eq!(snap_to_break("abcdefgh", 5), 5);
}

#[test]
fn snap_ignores_breaks_in_first_quarter() {
    // the only space is below limit / 4
    assert_eq!(snap_to_break("a bcdefghijklmnop", 16), 16);
}

#[test]
fn snap_respects_char_boundaries() {
    // "é" is two bytes; limit 3 falls inside the second one.
    assert_eq!(snap_to_break("\u{e9}\u{e9}\u{e9}", 3), 2);
}

#[test]
fn utf16_map_positions_past_end_give_text_length() {
    let map = Utf16Map::new("h\u{e9}llo");
    assert_eq!(map.to_byte(0), 0);
    assert_eq!(map.to_byte(2), 3);
    assert_eq!(map.to_byte(5), 6);
    assert_eq!(map.to_byte(99), 6);
    assert_eq!(map.unit_count(), 5);
}

#[test]
fn utf16_map_inside_surrogate_pair_points_at_character() {
    let map = Utf16Map::new("x\u{1f600}y");
    assert_eq!(map.to_byte(1), 1);
    assert_eq!(map.to_byte(2), 1);
    assert_eq!(map.to_byte(3), 5);
    assert_eq!(map.to_byte_range(1, 2), (1, 5));
    assert_eq!(map.to_byte_range(3, 40), (5, 6));
}

#[test]
fn utf16_map_of_empty_text() {
    let map = Utf16Map::new("");
    assert_eq!(map.to_byte(0), 0);
    assert_eq!(map.to_byte(7), 0);
    assert_eq!(map.unit_count(), 0);
}

#[test]
fn text_word_counts_from_text_start() {
    let text = "\u{1f9ea}\u{e9} next chunk";
    // the chunk starts after the emoji and the accent (6 bytes, 3 UTF-16 units)
    assert_eq!(text_word(text, 6, 1, 4), (4, 4));
    assert_eq!(text_word(text, 0, 0, 2), (0, 2));
    assert_eq!(text_word(text, 6, usize::MAX, 1), (usize::MAX, 0));
    assert_eq!(text_word(text, 6, usize::MAX - 4, 9), (usize::MAX - 1, 1));
}
