//! What the speaking display writes to the terminal: the text with the
//! current word highlighted, and the cursor movements around it.
//!
//! The progress bar line, whose width and percentage are computed in
//! floating point, is drawn by the caller after the word frame.

use vstd::prelude::*;
use vstd::utf8::*;

use crate::text::{chars_of, decimal, lemma_boundary_sub, push_decimal, push_str, string_from_chars};
use crate::utf16::{lemma_table_entries, lookup, utf16_table, utf16_units, Utf16Map};
use crate::vterm::{
    csi_text, ends_clean, lemma_csi_commands, lemma_ends_clean_concat, lemma_run_concat,
    lemma_scan_csi_text, run, TermState,
};

verus! {

broadcast use vstd::seq::group_seq_axioms;

/// The display: the whole text, which lines it draws, and whether it has drawn yet.
pub struct Display {
    text: String,
    map: Utf16Map,
    interactive: bool,
    progress: bool,
    total_utf16: usize,
    lines: usize,
    started: bool,
}

/// The state of a display.
pub struct DisplayState {
    pub text: Seq<char>,
    pub interactive: bool,
    pub progress: bool,
    pub total_utf16: nat,
    pub lines: nat,
    pub started: bool,
}

impl View for Display {
    type V = DisplayState;

    closed spec fn view(&self) -> DisplayState {
        DisplayState {
            text: self.text@,
            interactive: self.interactive,
            progress: self.progress,
            total_utf16: self.total_utf16 as nat,
            lines: self.lines as nat,
            started: self.started,
        }
    }
}

/// The number of lines a display draws: one for the text, one for the bar.
pub open spec fn line_count(interactive: bool, progress: bool) -> nat {
    (if interactive {
        1nat
    } else {
        0nat
    }) + (if progress {
        1nat
    } else {
        0nat
    })
}

/// Moving back to the top of the drawn block before redrawing it: cursor up
/// by the number of lines, then to column 0. Nothing before the first frame.
pub open spec fn cursor_up(d: DisplayState) -> Seq<char> {
    if d.started && d.lines > 0 {
        "\x1b["@ + decimal(d.lines) + "A\r"@
    } else {
        seq![]
    }
}

/// The text's line with bytes `start..end` in reverse video, after erasing the line.
pub open spec fn highlighted(text: Seq<char>, start: int, end: int) -> Seq<char> {
    let b = encode_utf8(text);
    "\x1b[2K"@ + decode_utf8(b.subrange(0, start)) + "\x1b[7m"@ + decode_utf8(b.subrange(start, end))
        + "\x1b[0m"@ + decode_utf8(b.subrange(end, b.len() as int)) + "\n"@
}

/// What the display writes for a word at UTF-16 position `pos` with `len`
/// units, before the progress bar: the cursor movement, then (when
/// interactive) the text with the word highlighted.
pub open spec fn word_frame(d: DisplayState, pos: int, len: int) -> Seq<char> {
    let table = utf16_table(d.text);
    cursor_up(d) + if d.interactive {
        highlighted(d.text, lookup(table, pos), lookup(table, pos + len))
    } else {
        seq![]
    }
}

/// A full progress bar: thirty filled blocks at 100%.
pub open spec fn full_bar() -> Seq<char> {
    "\x1b[2K  [\x1b[32m"@ + Seq::new(30, |_i: int| '\u{2588}') + "\x1b[0m] 100%\n"@
}

/// What the display writes when speech is done: the cursor movement, the
/// plain text (when interactive), a full bar (when showing progress), and
/// the cursor shown again (when interactive).
pub open spec fn finish_frame(d: DisplayState) -> Seq<char> {
    cursor_up(d) + (if d.interactive {
        "\x1b[2K"@ + d.text + "\n"@
    } else {
        seq![]
    }) + (if d.progress {
        full_bar()
    } else {
        seq![]
    }) + (if d.interactive {
        "\x1b[?25h"@
    } else {
        seq![]
    })
}

impl Display {
    #[verifier::type_invariant]
    spec fn consistent(self) -> bool {
        &&& self.map.table() == utf16_table(self.text@)
        &&& self.total_utf16 == utf16_units(self.text@, self.text@.len() as int)
        &&& self.lines == line_count(self.interactive, self.progress)
    }

    /// A display for `text` that has drawn nothing yet.
    pub fn new(text: &str, interactive: bool, progress: bool) -> (d: Self)
        ensures
            d@ == (DisplayState {
                text: text@,
                interactive,
                progress,
                total_utf16: utf16_units(text@, text@.len() as int) as nat,
                lines: line_count(interactive, progress),
                started: false,
            }),
    {
        let map = Utf16Map::new(text);
        let total_utf16 = map.unit_count();
        let lines: usize = (if interactive {
            1
        } else {
            0
        }) + (if progress {
            1
        } else {
            0
        });
        Display {
            text: String::from_str(text),
            map,
            interactive,
            progress,
            total_utf16,
            lines,
            started: false,
        }
    }

    /// What to write when the display opens: hide the cursor when interactive.
    pub fn start_sequence(&self) -> (s: String)
        ensures
            s@ == (if self@.interactive {
                "\x1b[?25l"@
            } else {
                seq![]
            }),
    {
        if self.interactive {
            String::from_str("\x1b[?25l")
        } else {
            String::new()
        }
    }

    /// What to write when the display goes away: show the cursor again when interactive.
    pub fn end_sequence(&self) -> (s: String)
        ensures
            s@ == (if self@.interactive {
                "\x1b[?25h"@
            } else {
                seq![]
            }),
    {
        if self.interactive {
            String::from_str("\x1b[?25h")
        } else {
            String::new()
        }
    }

    /// Whether the display draws a progress bar.
    pub fn shows_progress(&self) -> (b: bool)
        ensures
            b == self@.progress,
    {
        self.progress
    }

    /// The length of the text in UTF-16 code units.
    pub fn total_utf16(&self) -> (n: usize)
        ensures
            n == self@.total_utf16,
    {
        self.total_utf16
    }

    /// Draws the frame for a spoken word, as [`word_frame`] says, and marks the display started.
    pub fn on_word(&mut self, utf16_pos: usize, utf16_len: usize) -> (out: String)
        requires
            utf16_pos + utf16_len <= usize::MAX,
        ensures
            out@ == word_frame(old(self)@, utf16_pos as int, utf16_len as int),
            final(self)@ == (DisplayState { started: true, ..old(self)@ }),
    {
        proof {
            use_type_invariant(&*self);
        }
        let mut out: Vec<char> = Vec::new();
        if self.started && self.lines > 0 {
            push_str(&mut out, "\x1b[");
            push_decimal(&mut out, self.lines);
            push_str(&mut out, "A\r");
        }
        assert(out@ =~= cursor_up(self@));
        if self.interactive {
            let ghost t = self.text@;
            let ghost b = encode_utf8(t);
            let (start, end) = self.map.to_byte_range(utf16_pos, utf16_len);
            proof {
                let n = utf16_table(t).len() as int;
                let p1 = if utf16_pos < n { utf16_pos as int } else { n - 1 };
                let p2 = if utf16_pos + utf16_len < n { utf16_pos + utf16_len } else { n - 1 };
                lemma_table_entries(t, p1, p2);
                lemma_boundary_sub(t, start as int, end as int);
                encode_utf8_valid_utf8(t);
            }
            let (before, rest) = self.text.as_str().split_at(start);
            let (word, after) = rest.split_at(end - start);
            proof {
                encode_utf8_decode_utf8(before@);
                encode_utf8_decode_utf8(word@);
                encode_utf8_decode_utf8(after@);
                assert(b.subrange(start as int, b.len() as int).subrange(0, end - start) =~= b.subrange(
                    start as int,
                    end as int,
                ));
                assert(b.subrange(start as int, b.len() as int).subrange(
                    end - start,
                    b.len() - start,
                ) =~= b.subrange(end as int, b.len() as int));
            }
            let ghost head = out@;
            push_str(&mut out, "\x1b[2K");
            push_str(&mut out, before);
            push_str(&mut out, "\x1b[7m");
            push_str(&mut out, word);
            push_str(&mut out, "\x1b[0m");
            push_str(&mut out, after);
            push_str(&mut out, "\n");
            assert(out@ =~= head + highlighted(t, start as int, end as int));
        }
        self.started = true;
        string_from_chars(&out)
    }

    /// Draws the final frame, as [`finish_frame`] says.
    pub fn finish(&self) -> (out: String)
        ensures
            out@ == finish_frame(self@),
    {
        let mut out: Vec<char> = Vec::new();
        if self.started && self.lines > 0 {
            push_str(&mut out, "\x1b[");
            push_decimal(&mut out, self.lines);
            push_str(&mut out, "A\r");
        }
        assert(out@ =~= cursor_up(self@));
        if self.interactive {
            push_str(&mut out, "\x1b[2K");
            push_str(&mut out, self.text.as_str());
            push_str(&mut out, "\n");
        }
        if self.progress {
            push_str(&mut out, "\x1b[2K  [\x1b[32m");
            let ghost before_blocks = out@;
            let mut i: usize = 0;
            while i < 30
                invariant
                    i <= 30,
                    out@ == before_blocks + Seq::new(i as nat, |_j: int| '\u{2588}'),
                decreases 30 - i,
            {
                out.push('\u{2588}');
                i = i + 1;
                assert(out@ =~= before_blocks + Seq::new(i as nat, |_j: int| '\u{2588}'));
            }
            push_str(&mut out, "\x1b[0m] 100%\n");
        }
        if self.interactive {
            push_str(&mut out, "\x1b[?25h");
        }
        assert(out@ =~= finish_frame(self@));
        string_from_chars(&out)
    }
}

/// Once a frame has been drawn, the final frame, like every later word
/// frame, begins by moving the cursor up over all the drawn lines (`ESC [`,
/// their number, `A`) and back to column 0, so that it draws over them.
pub proof fn lemma_frames_move_up(d: DisplayState, pos: int, len: int)
    requires
        d.started,
        d.lines > 0,
    ensures
        ({
            let up = "\x1b["@ + decimal(d.lines) + "A\r"@;
            &&& finish_frame(d).len() >= up.len()
            &&& finish_frame(d).subrange(0, up.len() as int) == up
            &&& word_frame(d, pos, len).len() >= up.len()
            &&& word_frame(d, pos, len).subrange(0, up.len() as int) == up
        }),
{
    let up = "\x1b["@ + decimal(d.lines) + "A\r"@;
    let f = finish_frame(d);
    let w = word_frame(d, pos, len);
    assert(f.subrange(0, up.len() as int) =~= up);
    assert(w.subrange(0, up.len() as int) =~= up);
}

/// The cursor movement that starts every frame after the first, read by the
/// terminal after any output that does not end inside an escape sequence,
/// moves the cursor up by the number of drawn lines (stopping at the top
/// row) and back to column 0, and changes neither the text on the screen nor
/// the record of overwrites.
pub proof fn lemma_cursor_up_returns(d: DisplayState, st: TermState, cs: Seq<char>)
    requires
        ends_clean(cs),
        d.started,
        0 < d.lines <= usize::MAX,
    ensures
        ({
            let before = run(st, cs);
            run(st, cs + cursor_up(d)) == (TermState {
                row: if before.row > d.lines {
                    (before.row - d.lines) as nat
                } else {
                    0
                },
                col: 0,
                ..before
            })
        }),
{
    reveal_strlit("\x1b[");
    reveal_strlit("A\r");
    let e = csi_text(d.lines, 'A');
    let cr = seq!['\r'];
    assert(cursor_up(d) =~= e + cr);
    assert(cs + cursor_up(d) =~= (cs + e) + cr);
    assert(cs + seq!['\x1b', '['] + decimal(d.lines) + seq!['A'] =~= cs + e);
    lemma_csi_commands(st, cs, d.lines, 'A');
    lemma_scan_csi_text(d.lines, 'A');
    lemma_ends_clean_concat(cs, e);
    lemma_run_concat(st, cs + e, cr);
    let mid = run(st, cs + e);
    assert(cr.skip(1) =~= Seq::<char>::empty());
    assert(run(TermState { col: 0, ..mid }, cr.skip(1)) == TermState { col: 0, ..mid });
}

/// Highlighting a word never loses or repeats text: between the escape
/// sequences, the pieces of a highlighted line put back together are the
/// whole text, for any pair of positions the table gives.
pub proof fn lemma_highlight_keeps_text(text: Seq<char>, p1: int, p2: int)
    requires
        0 <= p1 <= p2 < utf16_table(text).len(),
    ensures
        ({
            let b = encode_utf8(text);
            let s = utf16_table(text)[p1];
            let e = utf16_table(text)[p2];
            decode_utf8(b.subrange(0, s)) + decode_utf8(b.subrange(s, e)) + decode_utf8(
                b.subrange(e, b.len() as int),
            ) == text
        }),
{
    let b = encode_utf8(text);
    let s = utf16_table(text)[p1];
    let e = utf16_table(text)[p2];
    lemma_table_entries(text, p1, p2);
    encode_utf8_valid_utf8(text);
    encode_utf8_decode_utf8(text);
    decode_utf8_split(b, s);
    let rest = b.subrange(s, b.len() as int);
    lemma_boundary_sub(text, s, e);
    valid_utf8_split(b, s);
    decode_utf8_split(rest, e - s);
    assert(rest.subrange(0, e - s) =~= b.subrange(s, e));
    assert(rest.subrange(e - s, rest.len() as int) =~= b.subrange(e, b.len() as int));
    assert(b.subrange(0, b.len() as int) =~= b);
}

} // verus!
