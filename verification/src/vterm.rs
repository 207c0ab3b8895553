//! A minimal virtual terminal that interprets the output the display writes
//! (printable characters, line feed, carriage return and a few CSI
//! sequences) and records every place where text overwrites other text.

use vstd::prelude::*;
use vstd::utf8::{decode_utf8, encode_utf8, valid_utf8};

use crate::text::{
    byte_offset, lemma_encode_concat, lemma_encode_push, lemma_encode_split, lemma_first_byte,
    chars_of, decimal, digit_char, is_unicode_whitespace, lossy_utf8, push_decimal, push_str,
    string_from_chars, unicode_whitespace, utf8_lossy,
};

verus! {

broadcast use vstd::seq::group_seq_axioms;

/// A character that replaced a different, non-blank character on the screen.
pub struct Overwrite {
    pub row: usize,
    pub col: usize,
    pub old: char,
    pub new: char,
}

/// The terminal: its lines of characters, the cursor, and the overwrites seen so far.
pub struct VTerm {
    pub rows: Vec<Vec<char>>,
    pub row: usize,
    pub col: usize,
    pub overwrites: Vec<Overwrite>,
}

/// One unit of terminal input.
pub enum Token {
    /// `ESC [` parameters command: the parameters parsed as a number, and the command.
    Csi { param: Option<usize>, cmd: char },
    LineFeed,
    CarriageReturn,
    Print(char),
    Ignore,
}

/// The mathematical state of a terminal.
pub struct TermState {
    pub rows: Seq<Seq<char>>,
    pub row: nat,
    pub col: nat,
    pub overwrites: Seq<Overwrite>,
}

impl View for VTerm {
    type V = TermState;

    open spec fn view(&self) -> TermState {
        TermState {
            rows: self.rows@.map_values(|r: Vec<char>| r@),
            row: self.row as nat,
            col: self.col as nat,
            overwrites: self.overwrites@,
        }
    }
}

/// A control character (Unicode general category Cc), as `char::is_control` decides.
pub open spec fn is_control(c: char) -> bool {
    (c as u32) <= 0x1f || (0x7f <= (c as u32) && (c as u32) <= 0x9f)
}

/// An ASCII decimal digit.
pub open spec fn is_digit(c: char) -> bool {
    '0' <= c && c <= '9'
}

/// A character that may appear among CSI parameters.
pub open spec fn is_param_char(c: char) -> bool {
    is_digit(c) || c == ';'
}

/// The number of parameter characters at the front of `cs`.
pub open spec fn param_run(cs: Seq<char>) -> int
    decreases cs.len(),
{
    if cs.len() > 0 && is_param_char(cs[0]) {
        1 + param_run(cs.drop_first())
    } else {
        0
    }
}

/// The value of a string of decimal digits.
pub open spec fn digits_value(ds: Seq<char>) -> int
    decreases ds.len(),
{
    if ds.len() == 0 {
        0
    } else {
        digits_value(ds.drop_last()) * 10 + ((ds.last() as u32) - 0x30)
    }
}

/// What `str::parse::<usize>` gives for a string of parameter characters: the
/// value of a nonempty run of digits that fits in a `usize`, and nothing otherwise.
pub open spec fn parse_param(ds: Seq<char>) -> Option<usize> {
    if ds.len() > 0 && (forall|i: int| 0 <= i < ds.len() ==> #[trigger] is_digit(ds[i]))
        && digits_value(ds) <= usize::MAX {
        Some(digits_value(ds) as usize)
    } else {
        None
    }
}

/// The first token of `cs` (which must not be empty) and the number of characters it takes.
///
/// An escape followed by `[` starts a CSI sequence: its parameters run as far as digits
/// and semicolons go and the next character is the command; when the input ends first,
/// the rest is dropped. An escape not followed by `[` is dropped alone. Other control
/// characters than line feed and carriage return are ignored.
pub open spec fn scan(cs: Seq<char>) -> (Token, int) {
    let c = cs[0];
    if c == '\x1b' {
        if cs.len() > 1 && cs[1] == '[' {
            let p = param_run(cs.skip(2));
            if 2 + p < cs.len() {
                (Token::Csi { param: parse_param(cs.subrange(2, 2 + p)), cmd: cs[2 + p] }, 3 + p)
            } else {
                (Token::Ignore, cs.len() as int)
            }
        } else {
            (Token::Ignore, 1)
        }
    } else if c == '\n' {
        (Token::LineFeed, 1)
    } else if c == '\r' {
        (Token::CarriageReturn, 1)
    } else if !is_control(c) {
        (Token::Print(c), 1)
    } else {
        (Token::Ignore, 1)
    }
}

/// The rows, with empty rows added so that row `r` exists.
pub open spec fn rows_through(rows: Seq<Seq<char>>, r: int) -> Seq<Seq<char>> {
    if rows.len() > r {
        rows
    } else {
        rows + Seq::new((r + 1 - rows.len()) as nat, |_i: int| Seq::<char>::empty())
    }
}

/// The line, padded with spaces so that column `c` exists.
pub open spec fn padded(line: Seq<char>, c: int) -> Seq<char> {
    if line.len() > c {
        line
    } else {
        line + Seq::new((c + 1 - line.len()) as nat, |_i: int| ' ')
    }
}

/// Writing `new` where `old` stands replaces visible text: `old` is
/// neither a space nor `new` itself.
pub open spec fn is_overwrite(old: char, new: char) -> bool {
    old != ' ' && old != new
}

/// Writes `ch` at the cursor and moves the cursor right. Writing over a
/// character that is neither a space nor `ch` itself records an overwrite.
pub open spec fn put_char(st: TermState, ch: char) -> TermState {
    let r = st.row as int;
    let c = st.col as int;
    let rows = rows_through(st.rows, r);
    let line = padded(rows[r], c);
    let prev = line[c];
    TermState {
        rows: rows.update(r, line.update(c, ch)),
        row: st.row,
        col: st.col + 1,
        overwrites: if is_overwrite(prev, ch) {
            st.overwrites.push(Overwrite { row: st.row as usize, col: st.col as usize, old: prev, new: ch })
        } else {
            st.overwrites
        },
    }
}

/// The effect of a CSI sequence: `A` moves up `n` rows (stopping at the top), `B` down
/// `n` rows, `G` to column `n` (counted from 1), `K` erases the whole line (parameter 2,
/// which also returns the cursor to column 0) or from the cursor to the end (no
/// parameter or 0); `n` is 1 when the parameter is missing. Anything else changes nothing.
pub open spec fn csi(st: TermState, param: Option<usize>, cmd: char) -> TermState {
    let n: int = match param {
        Some(v) => v as int,
        None => 1,
    };
    if cmd == 'A' {
        TermState {
            row: if st.row > n {
                (st.row - n) as nat
            } else {
                0
            },
            ..st
        }
    } else if cmd == 'B' {
        TermState { row: (st.row + n) as nat, ..st }
    } else if cmd == 'G' {
        TermState {
            col: if n > 0 {
                (n - 1) as nat
            } else {
                0
            },
            ..st
        }
    } else if cmd == 'K' {
        let r = st.row as int;
        let rows = rows_through(st.rows, r);
        let mode: int = match param {
            Some(v) => v as int,
            None => 0,
        };
        if mode == 2 {
            TermState { rows: rows.update(r, Seq::<char>::empty()), col: 0, ..st }
        } else if mode == 0 {
            let line = rows[r];
            TermState {
                rows: rows.update(
                    r,
                    if st.col <= line.len() {
                        line.subrange(0, st.col as int)
                    } else {
                        line
                    },
                ),
                ..st
            }
        } else {
            TermState { rows, ..st }
        }
    } else {
        st
    }
}

/// The effect of one token.
pub open spec fn apply(st: TermState, t: Token) -> TermState {
    match t {
        Token::Csi { param, cmd } => csi(st, param, cmd),
        Token::LineFeed => TermState {
            rows: rows_through(st.rows, st.row + 1int),
            row: st.row + 1,
            col: 0,
            overwrites: st.overwrites,
        },
        Token::CarriageReturn => TermState { col: 0, ..st },
        Token::Print(c) => put_char(st, c),
        Token::Ignore => st,
    }
}

/// The state after the terminal reads all of `cs`.
pub open spec fn run(st: TermState, cs: Seq<char>) -> TermState
    decreases cs.len(),
{
    if cs.len() == 0 {
        st
    } else {
        let (t, k) = scan(cs);
        if 1 <= k <= cs.len() {
            run(apply(st, t), cs.skip(k))
        } else {
            st
        }
    }
}

/// The token can be applied at cursor (`row`, `col`) without a cursor
/// position leaving the range of `usize`, and without needing a row or
/// column numbered `usize::MAX`, which no line or screen can hold.
pub open spec fn token_fits(row: int, col: int, t: Token) -> bool {
    match t {
        Token::LineFeed => row + 1 < usize::MAX,
        Token::Csi { param, cmd } => (cmd == 'B' ==> row + (match param {
            Some(v) => v as int,
            None => 1,
        }) <= usize::MAX) && (cmd == 'K' ==> row < usize::MAX),
        Token::Print(_) => row < usize::MAX && col < usize::MAX,
        _ => true,
    }
}

/// Reading `cs` from cursor (`row`, `col`) keeps every cursor position within the
/// range of `usize`, and never needs a row or column numbered `usize::MAX`.
pub open spec fn fits(row: int, col: int, cs: Seq<char>) -> bool
    decreases cs.len(),
{
    row <= usize::MAX && (cs.len() == 0 || {
        let (t, k) = scan(cs);
        let next = apply(TermState { rows: seq![], row: row as nat, col: col as nat, overwrites: seq![] }, t);
        token_fits(row, col, t) && (1 <= k <= cs.len() ==> fits(next.row as int, next.col as int, cs.skip(k)))
    })
}

/// A line without its trailing whitespace.
pub open spec fn trim_end(line: Seq<char>) -> Seq<char>
    decreases line.len(),
{
    if line.len() > 0 && is_unicode_whitespace(line.last()) {
        trim_end(line.drop_last())
    } else {
        line
    }
}

/// Text without its trailing line feeds.
pub open spec fn trim_end_newlines(s: Seq<char>) -> Seq<char>
    decreases s.len(),
{
    if s.len() > 0 && s.last() == '\n' {
        trim_end_newlines(s.drop_last())
    } else {
        s
    }
}

/// The trimmed rows joined by line feeds.
pub open spec fn join_trimmed(rows: Seq<Seq<char>>) -> Seq<char>
    decreases rows.len(),
{
    if rows.len() == 0 {
        seq![]
    } else if rows.len() == 1 {
        trim_end(rows[0])
    } else {
        join_trimmed(rows.drop_last()) + seq!['\n'] + trim_end(rows.last())
    }
}

/// What the screen shows: each row without trailing whitespace, rows joined by
/// line feeds, and no line feeds at the end.
pub open spec fn screen(rows: Seq<Seq<char>>) -> Seq<char> {
    trim_end_newlines(join_trimmed(rows))
}

// Facts about the definitions.

proof fn lemma_param_run(cs: Seq<char>)
    ensures
        0 <= param_run(cs) <= cs.len(),
        forall|i: int| 0 <= i < param_run(cs) ==> #[trigger] is_param_char(cs[i]),
        param_run(cs) < cs.len() ==> !is_param_char(cs[param_run(cs)]),
    decreases cs.len(),
{
    if cs.len() > 0 && is_param_char(cs[0]) {
        lemma_param_run(cs.drop_first());
        assert forall|i: int| 0 <= i < param_run(cs) implies #[trigger] is_param_char(cs[i]) by {
            if i > 0 {
                assert(cs[i] == cs.drop_first()[i - 1]);
            }
        }
    }
}

proof fn lemma_scan(cs: Seq<char>)
    requires
        cs.len() > 0,
    ensures
        1 <= scan(cs).1 <= cs.len(),
{
    if cs.len() > 1 {
        lemma_param_run(cs.skip(2));
    }
}

proof fn lemma_digits_prefix(ds: Seq<char>, j: int)
    requires
        0 <= j <= ds.len(),
        forall|i: int| 0 <= i < ds.len() ==> #[trigger] is_digit(ds[i]),
    ensures
        0 <= digits_value(ds.take(j)) <= digits_value(ds),
    decreases ds.len(),
{
    if j == ds.len() {
        assert(ds.take(j) =~= ds);
        lemma_digits_nonneg(ds);
    } else {
        assert(ds.drop_last().take(j) =~= ds.take(j));
        lemma_digits_prefix(ds.drop_last(), j);
        assert(is_digit(ds[ds.len() - 1]));
    }
}

proof fn lemma_digits_nonneg(ds: Seq<char>)
    requires
        forall|i: int| 0 <= i < ds.len() ==> #[trigger] is_digit(ds[i]),
    ensures
        0 <= digits_value(ds),
    decreases ds.len(),
{
    if ds.len() > 0 {
        lemma_digits_nonneg(ds.drop_last());
        assert(is_digit(ds[ds.len() - 1]));
    }
}

/// Every overwrite from index `from` on replaced visible text by different text.
pub open spec fn overwrites_genuine(ows: Seq<Overwrite>, from: int) -> bool {
    forall|i: int| from <= i < ows.len() ==> is_overwrite(#[trigger] ows[i].old, ows[i].new)
}

/// Reading input only ever appends to the record of overwrites, every
/// overwrite it appends replaced a character that was neither a space nor
/// the new character, and it never removes a row.
pub proof fn lemma_run_keeps_overwrites(st: TermState, cs: Seq<char>)
    ensures
        st.overwrites.len() <= run(st, cs).overwrites.len(),
        run(st, cs).overwrites.subrange(0, st.overwrites.len() as int) == st.overwrites,
        overwrites_genuine(run(st, cs).overwrites, st.overwrites.len() as int),
        st.rows.len() <= run(st, cs).rows.len(),
    decreases cs.len(),
{
    if cs.len() > 0 {
        lemma_scan(cs);
        let (t, k) = scan(cs);
        let next = apply(st, t);
        lemma_apply_keeps_overwrites(st, t);
        lemma_run_keeps_overwrites(next, cs.skip(k));
        let fin = run(next, cs.skip(k));
        assert(fin.overwrites.subrange(0, st.overwrites.len() as int) =~= fin.overwrites.subrange(
            0,
            next.overwrites.len() as int,
        ).subrange(0, st.overwrites.len() as int));
        assert forall|i: int|
            st.overwrites.len() <= i < fin.overwrites.len() implies is_overwrite(
            #[trigger] fin.overwrites[i].old,
            fin.overwrites[i].new,
        ) by {
            if i < next.overwrites.len() {
                assert(fin.overwrites[i] == fin.overwrites.subrange(
                    0,
                    next.overwrites.len() as int,
                )[i]);
            }
        }
    } else {
        assert(st.overwrites.subrange(0, st.overwrites.len() as int) =~= st.overwrites);
    }
}

proof fn lemma_push_keeps(s: Seq<Overwrite>, cond: bool, o: Overwrite)
    ensures
        (if cond {
            s.push(o)
        } else {
            s
        }).len() >= s.len(),
        (if cond {
            s.push(o)
        } else {
            s
        }).subrange(0, s.len() as int) == s,
        cond == is_overwrite(o.old, o.new) ==> overwrites_genuine(
            if cond {
                s.push(o)
            } else {
                s
            },
            s.len() as int,
        ),
{
    if cond {
        assert(s.push(o).subrange(0, s.len() as int) =~= s);
        assert(s.push(o)[s.len() as int] == o);
    } else {
        assert(s.subrange(0, s.len() as int) =~= s);
    }
}

proof fn lemma_apply_keeps_overwrites(st: TermState, t: Token)
    ensures
        st.overwrites.len() <= apply(st, t).overwrites.len(),
        apply(st, t).overwrites.subrange(0, st.overwrites.len() as int) == st.overwrites,
        overwrites_genuine(apply(st, t).overwrites, st.overwrites.len() as int),
        st.rows.len() <= apply(st, t).rows.len(),
{
    match t {
        Token::Print(ch) => {
            let r = st.row as int;
            let c = st.col as int;
            let rows = rows_through(st.rows, r);
            let line = padded(rows[r], c);
            let prev = line[c];
            let o = Overwrite { row: st.row as usize, col: st.col as usize, old: prev, new: ch };
            assert(o.old == prev && o.new == ch);
            lemma_push_keeps(st.overwrites, is_overwrite(prev, ch), o);
            assert(apply(st, t) == put_char(st, ch));
        },
        Token::Csi { param, cmd } => {
            assert(apply(st, t) == csi(st, param, cmd));
            assert(apply(st, t).overwrites == st.overwrites);
            lemma_push_keeps(st.overwrites, false, arbitrary());
        },
        _ => {
            assert(apply(st, t).overwrites == st.overwrites);
            lemma_push_keeps(st.overwrites, false, arbitrary());
        },
    }
}


/// The character shown at row `r`, column `c`: a space where nothing was written.
pub open spec fn char_at(rows: Seq<Seq<char>>, r: int, c: int) -> char {
    if 0 <= r < rows.len() && 0 <= c < rows[r].len() {
        rows[r][c]
    } else {
        ' '
    }
}

proof fn lemma_push_one(s: Seq<Overwrite>, o: Overwrite)
    ensures
        s.push(o).len() == s.len() + 1,
        s.push(o).subrange(0, s.len() as int) == s,
        s.push(o).last() == o,
{
    assert(s.push(o).subrange(0, s.len() as int) =~= s);
}

/// Printing a character after any input that does not end inside an escape
/// sequence writes it at the cursor and moves the cursor one column right.
/// When the cell held a character other than a space and other than the one
/// printed, exactly one overwrite is recorded, with the cursor's row and
/// column, the old character and the new one; otherwise none is.
pub proof fn lemma_print_records_overwrite(st: TermState, cs: Seq<char>, ch: char)
    requires
        ends_clean(cs),
        !is_control(ch),
    ensures
        ({
            let before = run(st, cs);
            let after = run(st, cs.push(ch));
            let prev = char_at(before.rows, before.row as int, before.col as int);
            &&& after.row == before.row
            &&& after.col == before.col + 1
            &&& char_at(after.rows, before.row as int, before.col as int) == ch
            &&& (prev != ' ' && prev != ch) ==> {
                &&& after.overwrites.len() == before.overwrites.len() + 1
                &&& after.overwrites.subrange(0, before.overwrites.len() as int)
                    == before.overwrites
                &&& after.overwrites.last() == (Overwrite {
                    row: before.row as usize,
                    col: before.col as usize,
                    old: prev,
                    new: ch,
                })
            }
            &&& !(prev != ' ' && prev != ch) ==> after.overwrites == before.overwrites
        }),
{
    let before = run(st, cs);
    lemma_run_concat(st, cs, seq![ch]);
    assert(cs + seq![ch] =~= cs.push(ch));
    let one = seq![ch];
    assert(ch != '\x1b' && ch != '\n' && ch != '\r');
    assert(scan(one) == (Token::Print(ch), 1int));
    assert(one.skip(1) =~= Seq::<char>::empty());
    let after = put_char(before, ch);
    assert(run(before, one) == run(apply(before, Token::Print(ch)), one.skip(1)));
    assert(run(st, cs.push(ch)) == after);
    let r = before.row as int;
    let c = before.col as int;
    let rows = rows_through(before.rows, r);
    let line = padded(rows[r], c);
    let prev = char_at(before.rows, r, c);
    if r >= before.rows.len() {
        assert(rows[r] == Seq::<char>::empty());
    }
    assert(line[c] == prev);
    assert(after.rows[r] == line.update(c, ch));
    let o = Overwrite { row: before.row as usize, col: before.col as usize, old: prev, new: ch };
    lemma_push_one(before.overwrites, o);
}

/// Lines joined by line feeds, as they are.
pub open spec fn lines_joined(ls: Seq<Seq<char>>) -> Seq<char>
    decreases ls.len(),
{
    if ls.len() == 0 {
        seq![]
    } else if ls.len() == 1 {
        ls[0]
    } else {
        lines_joined(ls.drop_last()) + seq!['\n'] + ls.last()
    }
}

/// Trimming keeps the front of a line up to its last character that is not
/// whitespace, and removes only whitespace.
pub proof fn lemma_trim_end(line: Seq<char>)
    ensures
        trim_end(line).len() <= line.len(),
        trim_end(line) == line.take(trim_end(line).len() as int),
        forall|i: int|
            trim_end(line).len() <= i < line.len() ==> is_unicode_whitespace(#[trigger] line[i]),
        trim_end(line).len() == 0 || !is_unicode_whitespace(trim_end(line).last()),
    decreases line.len(),
{
    if line.len() > 0 && is_unicode_whitespace(line.last()) {
        let rest = line.drop_last();
        lemma_trim_end(rest);
        assert(rest.take(trim_end(rest).len() as int) =~= line.take(trim_end(rest).len() as int));
        assert forall|i: int| trim_end(line).len() <= i < line.len() implies is_unicode_whitespace(
            #[trigger] line[i],
        ) by {
            if i < rest.len() {
                assert(line[i] == rest[i]);
            }
        }
    } else {
        assert(line.take(line.len() as int) =~= line);
    }
}

/// Joining trimmed rows is joining the rows each trimmed.
proof fn lemma_join_trimmed_lines(rows: Seq<Seq<char>>)
    ensures
        join_trimmed(rows) == lines_joined(Seq::new(rows.len(), |r: int| trim_end(rows[r]))),
    decreases rows.len(),
{
    let ls = Seq::new(rows.len(), |r: int| trim_end(rows[r]));
    if rows.len() >= 2 {
        let front = rows.drop_last();
        lemma_join_trimmed_lines(front);
        assert(ls.drop_last() =~= Seq::new(front.len(), |r: int| trim_end(front[r])));
    }
}

/// A text whose last character is not a line feed loses nothing to
/// [`trim_end_newlines`], and line feeds after it are all removed.
proof fn lemma_newlines_after(x: Seq<char>, k: nat)
    requires
        x.len() == 0 || x.last() != '\n',
    ensures
        trim_end_newlines(x + Seq::new(k, |_i: int| '\n')) == x,
    decreases k,
{
    let y = x + Seq::new(k, |_i: int| '\n');
    if k == 0 {
        assert(y =~= x);
    } else {
        assert(y.drop_last() =~= x + Seq::new((k - 1) as nat, |_i: int| '\n'));
        lemma_newlines_after(x, (k - 1) as nat);
    }
}

/// The rows joined, when those from `m` on are blank after trimming: the
/// first `m` rows joined, then a line feed for each further row.
proof fn lemma_join_blank_tail(rows: Seq<Seq<char>>, m: int)
    requires
        0 < m <= rows.len(),
        forall|r: int| m <= r < rows.len() ==> trim_end(#[trigger] rows[r]).len() == 0,
    ensures
        join_trimmed(rows) == join_trimmed(rows.take(m)) + Seq::new(
            (rows.len() - m) as nat,
            |_i: int| '\n',
        ),
    decreases rows.len(),
{
    if rows.len() == m {
        assert(rows.take(m) =~= rows);
        assert(join_trimmed(rows) + Seq::new(0, |_i: int| '\n') =~= join_trimmed(rows));
    } else {
        let front = rows.drop_last();
        lemma_join_blank_tail(front, m);
        assert(front.take(m) =~= rows.take(m));
        assert(trim_end(rows.last()) =~= Seq::<char>::empty());
        assert(join_trimmed(rows) =~= join_trimmed(rows.take(m)) + Seq::new(
            (rows.len() - m) as nat,
            |_i: int| '\n',
        ));
    }
}

/// What the screen shows, row by row: when row `m - 1` is the last row that
/// is not blank after trimming (or `m` is 0 and every row is blank), the
/// screen text is the first `m` rows, each without its trailing whitespace,
/// joined by line feeds.
pub proof fn lemma_screen_rows(rows: Seq<Seq<char>>, m: int)
    requires
        0 <= m <= rows.len(),
        m == 0 || trim_end(rows[m - 1]).len() > 0,
        forall|r: int| m <= r < rows.len() ==> trim_end(#[trigger] rows[r]).len() == 0,
    ensures
        screen(rows) == lines_joined(Seq::new(m as nat, |r: int| trim_end(rows[r]))),
{
    let ls = Seq::new(m as nat, |r: int| trim_end(rows[r]));
    if m == 0 {
        if rows.len() > 0 {
            lemma_join_blank_tail(rows, 1);
            assert(rows.take(1) =~= seq![rows[0]]);
            assert(join_trimmed(rows.take(1)) =~= Seq::<char>::empty());
            assert(Seq::<char>::empty() + Seq::new((rows.len() - 1) as nat, |_i: int| '\n')
                =~= Seq::new((rows.len() - 1) as nat, |_i: int| '\n'));
            lemma_newlines_after(Seq::<char>::empty(), (rows.len() - 1) as nat);
            assert(Seq::<char>::empty() + Seq::new((rows.len() - 1) as nat, |_i: int| '\n')
                =~= Seq::new((rows.len() - 1) as nat, |_i: int| '\n'));
        }
    } else {
        let front = rows.take(m);
        lemma_join_blank_tail(rows, m);
        lemma_join_trimmed_lines(front);
        assert(Seq::new(front.len(), |r: int| trim_end(front[r])) =~= ls);
        lemma_trim_end(rows[m - 1]);
        let last = trim_end(rows[m - 1]);
        assert(is_unicode_whitespace('\n'));
        assert(front.last() == rows[m - 1]);
        assert(join_trimmed(front).last() == last.last()) by {
            if m >= 2 {
                assert(join_trimmed(front) == join_trimmed(front.drop_last()) + seq!['\n'] + last);
            }
        }
        lemma_newlines_after(join_trimmed(front), (rows.len() - m) as nat);
    }
}

/// The first token of `cs` is complete within `cs`: it is not an escape
/// sequence that the end of `cs` cuts short.
pub open spec fn complete_token(cs: Seq<char>) -> bool {
    !(cs[0] == '\x1b' && (cs.len() == 1 || (cs[1] == '[' && 2 + param_run(cs.skip(2))
        >= cs.len())))
}

/// `cs` is a whole number of complete tokens: it does not end inside an escape sequence.
pub open spec fn ends_clean(cs: Seq<char>) -> bool
    decreases cs.len(),
{
    cs.len() == 0 || ({
        let k = scan(cs).1;
        complete_token(cs) && 1 <= k <= cs.len() && ends_clean(cs.skip(k))
    })
}

proof fn lemma_param_run_prefix(x: Seq<char>, y: Seq<char>)
    requires
        param_run(x) < x.len(),
    ensures
        param_run(x + y) == param_run(x),
    decreases x.len(),
{
    if is_param_char(x[0]) {
        assert((x + y).drop_first() =~= x.drop_first() + y);
        lemma_param_run_prefix(x.drop_first(), y);
    }
}

/// A complete first token reads the same whatever follows it.
proof fn lemma_scan_prefix(a: Seq<char>, b: Seq<char>)
    requires
        a.len() > 0,
        complete_token(a),
    ensures
        scan(a + b) == scan(a),
{
    let ab = a + b;
    assert(ab[0] == a[0]);
    if a[0] == '\x1b' {
        assert(ab[1] == a[1]);
        if a[1] == '[' {
            assert(ab.skip(2) =~= a.skip(2) + b);
            lemma_param_run(a.skip(2));
            lemma_param_run_prefix(a.skip(2), b);
            let p = param_run(a.skip(2));
            assert(2 + p < a.len());
            assert(ab.subrange(2, 2 + p) =~= a.subrange(2, 2 + p));
            assert(ab[2 + p] == a[2 + p]);
        }
    }
}

/// Reading text in two parts leaves the terminal as reading it at once
/// does, when the first part does not end inside an escape sequence.
pub proof fn lemma_run_concat(st: TermState, a: Seq<char>, b: Seq<char>)
    requires
        ends_clean(a),
    ensures
        run(st, a + b) == run(run(st, a), b),
    decreases a.len(),
{
    if a.len() == 0 {
        assert(a + b =~= b);
    } else {
        lemma_scan_prefix(a, b);
        let (t, k) = scan(a);
        assert((a + b).skip(k) =~= a.skip(k) + b);
        lemma_run_concat(apply(st, t), a.skip(k), b);
    }
}

/// Text without an escape character is a whole number of complete tokens.
proof fn lemma_no_escape_ends_clean(cs: Seq<char>)
    requires
        forall|i: int| 0 <= i < cs.len() ==> cs[i] != '\x1b',
    ensures
        ends_clean(cs),
    decreases cs.len(),
{
    if cs.len() > 0 {
        assert(cs[0] != '\x1b');
        lemma_no_escape_ends_clean(cs.skip(1));
    }
}

/// Valid UTF-8 without the escape byte decodes to text without the escape character.
proof fn lemma_no_escape_byte(a: Seq<u8>)
    requires
        valid_utf8(a),
        forall|i: int| 0 <= i < a.len() ==> a[i] != 0x1b,
    ensures
        forall|i: int| 0 <= i < decode_utf8(a).len() ==> decode_utf8(a)[i] != '\x1b',
{
    let cs = decode_utf8(a);
    vstd::utf8::decode_utf8_encode_utf8(a);
    assert forall|k: int| 0 <= k < cs.len() implies cs[k] != '\x1b' by {
        if cs[k] == '\x1b' {
            lemma_encode_push(cs, k);
            lemma_encode_split(cs, k + 1);
            lemma_first_byte(cs[k]);
            let e = encode_utf8(cs.take(k + 1));
            assert(a[byte_offset(cs, k)] == e[byte_offset(cs, k)]);
            assert(e[byte_offset(cs, k)] == vstd::utf8::encode_scalar(cs[k] as u32)[0]);
            assert(('\x1b' as u32) < 0x80);
        }
    }
}

/// Feeding two pieces of valid UTF-8 one after the other leaves the
/// terminal as feeding them joined does, when the first piece holds no
/// escape byte.
pub proof fn lemma_feed_bytes_concat(st: TermState, a: Seq<u8>, b: Seq<u8>)
    requires
        valid_utf8(a),
        valid_utf8(b),
        forall|i: int| 0 <= i < a.len() ==> a[i] != 0x1b,
    ensures
        valid_utf8(a + b),
        run(st, decode_utf8(a + b)) == run(run(st, decode_utf8(a)), decode_utf8(b)),
{
    vstd::utf8::valid_utf8_concat(a, b);
    vstd::utf8::decode_utf8_encode_utf8(a);
    vstd::utf8::decode_utf8_encode_utf8(b);
    let ca = decode_utf8(a);
    let cb = decode_utf8(b);
    lemma_encode_concat(ca, cb);
    vstd::utf8::encode_utf8_decode_utf8(ca + cb);
    assert(decode_utf8(a + b) == ca + cb);
    lemma_no_escape_byte(a);
    lemma_no_escape_ends_clean(ca);
    lemma_run_concat(st, ca, cb);
}

/// The decimal representation of `n` is a nonempty run of digits whose value is `n`.
proof fn lemma_decimal_digits(n: nat)
    ensures
        decimal(n).len() > 0,
        forall|i: int| 0 <= i < decimal(n).len() ==> #[trigger] is_digit(decimal(n)[i]),
        digits_value(decimal(n)) == n,
    decreases n,
{
    let d = digit_char((n % 10) as int);
    assert(d as u32 == (n % 10) + 0x30);
    if n < 10 {
        assert(decimal(n).drop_last() =~= Seq::<char>::empty());
        assert(digits_value(decimal(n)) == digits_value(Seq::<char>::empty()) * 10 + n);
    } else {
        lemma_decimal_digits(n / 10);
        let s = decimal(n / 10);
        assert(decimal(n) == s.push(d));
        assert(s.push(d).drop_last() =~= s);
        assert forall|i: int| 0 <= i < decimal(n).len() implies #[trigger] is_digit(decimal(n)[i]) by {
            if i < s.len() {
                assert(decimal(n)[i] == s[i]);
            }
        }
        assert(digits_value(decimal(n)) == digits_value(s) * 10 + (n % 10));
        assert(n == (n / 10) * 10 + n % 10);
    }
}

/// Parameter characters followed by one that is not stop the parameter run there.
proof fn lemma_param_run_stops(ds: Seq<char>, tail: Seq<char>)
    requires
        forall|i: int| 0 <= i < ds.len() ==> #[trigger] is_param_char(ds[i]),
        tail.len() > 0,
        !is_param_char(tail[0]),
    ensures
        param_run(ds + tail) == ds.len(),
    decreases ds.len(),
{
    if ds.len() == 0 {
        assert(ds + tail =~= tail);
    } else {
        assert((ds + tail).drop_first() =~= ds.drop_first() + tail);
        assert(is_param_char(ds[0]));
        assert forall|i: int| 0 <= i < ds.drop_first().len() implies #[trigger] is_param_char(
            ds.drop_first()[i],
        ) by {
            assert(ds.drop_first()[i] == ds[i + 1]);
        }
        lemma_param_run_stops(ds.drop_first(), tail);
    }
}

/// The escape sequence `ESC [ n cmd`.
pub open spec fn csi_text(n: nat, cmd: char) -> Seq<char> {
    seq!['\x1b', '['] + decimal(n) + seq![cmd]
}

/// An escape sequence with a number and a command letter is read as one
/// token, and nothing is left over.
pub proof fn lemma_scan_csi_text(n: nat, cmd: char)
    requires
        n <= usize::MAX,
        !is_param_char(cmd),
    ensures
        scan(csi_text(n, cmd)) == (Token::Csi { param: Some(n as usize), cmd }, csi_text(n, cmd).len() as int),
        complete_token(csi_text(n, cmd)),
        ends_clean(csi_text(n, cmd)),
{
    let e = csi_text(n, cmd);
    let ds = decimal(n);
    lemma_decimal_digits(n);
    assert(e.skip(2) =~= ds + seq![cmd]);
    lemma_param_run_stops(ds, seq![cmd]);
    assert(e.subrange(2, 2 + ds.len() as int) =~= ds);
    assert(e[2 + ds.len() as int] == cmd);
    assert(e.skip(e.len() as int) =~= Seq::<char>::empty());
    assert(ends_clean(e.skip(e.len() as int)));
}

/// Reading `b` after `a`, when both are whole numbers of complete tokens,
/// again ends cleanly.
pub proof fn lemma_ends_clean_concat(a: Seq<char>, b: Seq<char>)
    requires
        ends_clean(a),
        ends_clean(b),
    ensures
        ends_clean(a + b),
    decreases a.len(),
{
    if a.len() == 0 {
        assert(a + b =~= b);
    } else {
        let ab = a + b;
        lemma_scan_prefix(a, b);
        lemma_scan(a);
        let k = scan(a).1;
        assert(ab[0] == a[0]);
        if a[0] == '\x1b' {
            assert(ab[1] == a[1]);
            if a[1] == '[' {
                assert(ab.skip(2) =~= a.skip(2) + b);
                lemma_param_run(a.skip(2));
                lemma_param_run_prefix(a.skip(2), b);
            }
        }
        assert(complete_token(ab));
        assert(ab.skip(k) =~= a.skip(k) + b);
        lemma_ends_clean_concat(a.skip(k), b);
    }
}

/// The cursor and erase commands, read after input that does not end inside
/// an escape sequence. `ESC [ n A` moves the cursor up `n` rows, stopping at
/// the top; `ESC [ n B` moves it down `n` rows; `ESC [ n G` moves it to
/// column `n`, counted from 1; none of them changes the text or the record
/// of overwrites. `ESC [ 2 K` blanks the cursor's row and returns to column
/// 0; `ESC [ 0 K` blanks the row from the cursor on; other rows stay as they
/// were, and nothing is recorded as overwritten.
pub proof fn lemma_csi_commands(st: TermState, cs: Seq<char>, n: nat, cmd: char)
    requires
        ends_clean(cs),
        n <= usize::MAX,
        cmd == 'A' || cmd == 'B' || cmd == 'G' || cmd == 'K',
    ensures
        ({
            let before = run(st, cs);
            let after = run(st, cs + seq!['\x1b', '['] + decimal(n) + seq![cmd]);
            &&& cmd == 'A' ==> after == (TermState {
                row: if before.row > n {
                    (before.row - n) as nat
                } else {
                    0
                },
                ..before
            })
            &&& cmd == 'B' ==> after == (TermState { row: before.row + n, ..before })
            &&& cmd == 'G' ==> after == (TermState {
                col: if n > 0 {
                    (n - 1) as nat
                } else {
                    0
                },
                ..before
            })
            &&& cmd == 'K' ==> {
                &&& after.row == before.row
                &&& after.col == (if n == 2 {
                    0
                } else {
                    before.col
                })
                &&& after.overwrites == before.overwrites
                &&& forall|r: int, c: int|
                    r != before.row ==> #[trigger] char_at(after.rows, r, c) == char_at(
                        before.rows,
                        r,
                        c,
                    )
                &&& forall|c: int|
                    #[trigger] char_at(after.rows, before.row as int, c) == (if n == 2 || (n == 0
                        && c >= before.col) {
                        ' '
                    } else {
                        char_at(before.rows, before.row as int, c)
                    })
            }
        }),
{
    let before = run(st, cs);
    let e = csi_text(n, cmd);
    lemma_scan_csi_text(n, cmd);
    assert(cs + seq!['\x1b', '['] + decimal(n) + seq![cmd] =~= cs + e);
    lemma_run_concat(st, cs, e);
    assert(e.skip(e.len() as int) =~= Seq::<char>::empty());
    let after = csi(before, Some(n as usize), cmd);
    assert(run(after, e.skip(e.len() as int)) == after);
    assert(run(before, e) == after);
    if cmd == 'K' {
        let r = before.row as int;
        let rows = rows_through(before.rows, r);
        assert forall|q: int, c: int| q != r implies #[trigger] char_at(after.rows, q, c) == char_at(
            before.rows,
            q,
            c,
        ) by {
            if q >= before.rows.len() && q < rows.len() {
                assert(rows[q] == Seq::<char>::empty());
            }
        }
        assert forall|c: int|
            #[trigger] char_at(after.rows, r, c) == (if n == 2 || (n == 0 && c >= before.col) {
                ' '
            } else {
                char_at(before.rows, r, c)
            }) by {
            if r >= before.rows.len() {
                assert(rows[r] == Seq::<char>::empty());
            }
        }
    }
}

/// A line feed, read after input that does not end inside an escape
/// sequence, moves the cursor to column 0 of the next row; a carriage
/// return moves it to column 0 of its row. Neither changes what the screen
/// shows or the record of overwrites.
pub proof fn lemma_line_controls(st: TermState, cs: Seq<char>)
    requires
        ends_clean(cs),
    ensures
        ({
            let before = run(st, cs);
            let fed = run(st, cs.push('\n'));
            let returned = run(st, cs.push('\r'));
            &&& fed.row == before.row + 1
            &&& fed.col == 0
            &&& fed.overwrites == before.overwrites
            &&& forall|r: int, c: int| #[trigger] char_at(fed.rows, r, c) == char_at(before.rows, r, c)
            &&& returned == (TermState { col: 0, ..before })
        }),
{
    let before = run(st, cs);
    let lf = seq!['\n'];
    let cr = seq!['\r'];
    assert(cs + lf =~= cs.push('\n'));
    assert(cs + cr =~= cs.push('\r'));
    lemma_run_concat(st, cs, lf);
    lemma_run_concat(st, cs, cr);
    assert(lf.skip(1) =~= Seq::<char>::empty());
    assert(cr.skip(1) =~= Seq::<char>::empty());
    let fed = apply(before, Token::LineFeed);
    let returned = apply(before, Token::CarriageReturn);
    assert(run(fed, lf.skip(1)) == fed);
    assert(run(returned, cr.skip(1)) == returned);
    let rows = rows_through(before.rows, before.row + 1int);
    assert forall|r: int, c: int| #[trigger] char_at(fed.rows, r, c) == char_at(before.rows, r, c) by {
        if r >= before.rows.len() && r < rows.len() {
            assert(rows[r] == Seq::<char>::empty());
        }
    }
}

// Executable parts.

/// Parses the parameter characters `cs[a..b]` as `str::parse::<usize>` does.
fn parse_param_at(cs: &Vec<char>, a: usize, b: usize) -> (r: Option<usize>)
    requires
        a <= b <= cs@.len(),
    ensures
        r == parse_param(cs@.subrange(a as int, b as int)),
{
    let ghost ds = cs@.subrange(a as int, b as int);
    if a == b {
        return None;
    }
    let mut v: usize = 0;
    let mut k: usize = a;
    while k < b
        invariant
            a <= k <= b,
            b <= cs@.len(),
            ds == cs@.subrange(a as int, b as int),
            forall|i: int| a <= i < k ==> #[trigger] is_digit(cs@[i]),
            v == digits_value(ds.take(k - a)),
        decreases b - k,
    {
        let c = cs[k];
        if !('0' <= c && c <= '9') {
            assert(!is_digit(ds[k - a]));
            return None;
        }
        let d = (c as u32 - 0x30) as usize;
        assert(ds.take(k - a + 1).drop_last() =~= ds.take(k - a));
        assert(ds.take(k - a + 1).last() == c);
        match v.checked_mul(10) {
            Some(x) => match x.checked_add(d) {
                Some(y) => {
                    v = y;
                },
                None => {
                    proof {
                        lemma_overflow_means_none(ds, k - a + 1);
                    }
                    return None;
                },
            },
            None => {
                proof {
                    lemma_overflow_means_none(ds, k - a + 1);
                }
                return None;
            },
        }
        k = k + 1;
    }
    assert(ds.take(b - a) =~= ds);
    Some(v)
}

/// A prefix that is already too large for a `usize` makes the whole parse fail.
proof fn lemma_overflow_means_none(ds: Seq<char>, j: int)
    requires
        0 < j <= ds.len(),
        digits_value(ds.take(j)) > usize::MAX,
    ensures
        parse_param(ds) is None,
{
    if forall|i: int| 0 <= i < ds.len() ==> #[trigger] is_digit(ds[i]) {
        lemma_digits_prefix(ds, j);
    }
}

/// Reads the token that starts at `cs[i]`; returns it with the index just past it.
fn scan_at(cs: &Vec<char>, i: usize) -> (r: (Token, usize))
    requires
        i < cs@.len(),
    ensures
        r.0 == scan(cs@.skip(i as int)).0,
        r.1 == i + scan(cs@.skip(i as int)).1,
{
    let ghost s = cs@.skip(i as int);
    let n = cs.len();
    let c = cs[i];
    if c == '\x1b' {
        if i + 1 < cs.len() && cs[i + 1] == '[' {
            let start = i + 2;
            let mut j = start;
            proof {
                lemma_param_run(s.skip(2));
            }
            while j < cs.len() && ('0' <= cs[j] && cs[j] <= '9' || cs[j] == ';')
                invariant
                    start <= j <= cs@.len(),
                    start == i + 2,
                    s == cs@.skip(i as int),
                    param_run(s.skip(2)) >= j - start,
                    forall|q: int| 0 <= q < param_run(s.skip(2)) ==> #[trigger] is_param_char(
                        s.skip(2)[q],
                    ),
                    param_run(s.skip(2)) < s.skip(2).len() ==> !is_param_char(
                        s.skip(2)[param_run(s.skip(2))],
                    ),
                    param_run(s.skip(2)) <= s.skip(2).len(),
                decreases cs.len() - j,
            {
                assert(s.skip(2)[j - start] == cs@[j as int]);
                j = j + 1;
            }
            assert(j - start == param_run(s.skip(2))) by {
                if j - start < param_run(s.skip(2)) {
                    assert(is_param_char(s.skip(2)[j - start]));
                    assert(s.skip(2)[j - start] == cs@[j as int]);
                }
            }
            if j < cs.len() {
                let param = parse_param_at(cs, start, j);
                assert(s.subrange(2, 2 + (j - start)) =~= cs@.subrange(start as int, j as int));
                (Token::Csi { param, cmd: cs[j] }, j + 1)
            } else {
                (Token::Ignore, cs.len())
            }
        } else {
            (Token::Ignore, i + 1)
        }
    } else if c == '\n' {
        (Token::LineFeed, i + 1)
    } else if c == '\r' {
        (Token::CarriageReturn, i + 1)
    } else if !char_is_control(c) {
        (Token::Print(c), i + 1)
    } else {
        (Token::Ignore, i + 1)
    }
}

/// Executable form of [`is_control`].
fn char_is_control(c: char) -> (r: bool)
    ensures
        r == is_control(c),
{
    let v = c as u32;
    v <= 0x1f || (0x7f <= v && v <= 0x9f)
}

/// Whether reading `cs` from cursor (`row`, `col`) stays within range, as [`fits`] says.
fn fits_chars(row: usize, col: usize, cs: &Vec<char>) -> (ok: bool)
    ensures
        ok == fits(row as int, col as int, cs@),
{
    let mut r = row;
    let mut c = col;
    let mut i: usize = 0;
    assert(cs@.skip(0) =~= cs@);
    while i < cs.len()
        invariant
            i <= cs@.len(),
            fits(row as int, col as int, cs@) == fits(r as int, c as int, cs@.skip(i as int)),
        decreases cs.len() - i,
    {
        let ghost s = cs@.skip(i as int);
        let (t, j) = scan_at(cs, i);
        proof {
            lemma_scan(s);
            assert(s.skip(j - i) =~= cs@.skip(j as int));
        }
        match t {
            Token::LineFeed => {
                if r >= usize::MAX - 1 {
                    return false;
                }
                r = r + 1;
                c = 0;
            },
            Token::CarriageReturn => {
                c = 0;
            },
            Token::Print(_) => {
                if r == usize::MAX || c == usize::MAX {
                    return false;
                }
                c = c + 1;
            },
            Token::Ignore => {},
            Token::Csi { param, cmd } => {
                let n: usize = match param {
                    Some(v) => v,
                    None => 1,
                };
                if cmd == 'A' {
                    r = if r > n {
                        r - n
                    } else {
                        0
                    };
                } else if cmd == 'B' {
                    if n > usize::MAX - r {
                        return false;
                    }
                    r = r + n;
                } else if cmd == 'G' {
                    c = if n > 0 {
                        n - 1
                    } else {
                        0
                    };
                } else if cmd == 'K' {
                    if r == usize::MAX {
                        return false;
                    }
                    let mode: usize = match param {
                        Some(v) => v,
                        None => 0,
                    };
                    if mode == 2 {
                        c = 0;
                    }
                }
            },
        }
        i = j;
    }
    true
}

impl Overwrite {
    /// The description of the overwrite that test reports print:
    /// `  row=R col=C: 'O' overwritten by 'N'`.
    pub fn describe(&self) -> (s: String)
        ensures
            s@ == "  row="@ + decimal(self.row as nat) + " col="@ + decimal(self.col as nat)
                + ": '"@ + seq![self.old] + "' overwritten by '"@ + seq![self.new] + "'"@,
    {
        let mut out: Vec<char> = Vec::new();
        push_str(&mut out, "  row=");
        push_decimal(&mut out, self.row);
        push_str(&mut out, " col=");
        push_decimal(&mut out, self.col);
        push_str(&mut out, ": '");
        out.push(self.old);
        push_str(&mut out, "' overwritten by '");
        out.push(self.new);
        push_str(&mut out, "'");
        string_from_chars(&out)
    }
}

impl VTerm {
    /// An empty terminal: a single empty row, the cursor at its start, no overwrites.
    pub fn new() -> (v: Self)
        ensures
            v@.rows == seq![Seq::<char>::empty()],
            v@.row == 0,
            v@.col == 0,
            v@.overwrites.len() == 0,
    {
        let mut rows: Vec<Vec<char>> = Vec::new();
        rows.push(Vec::new());
        let v = VTerm { rows, row: 0, col: 0, overwrites: Vec::new() };
        assert(v@.rows =~= seq![Seq::<char>::empty()]);
        v
    }

    /// Adds empty rows until row `r` exists.
    fn ensure_row(&mut self, r: usize)
        requires
            r < usize::MAX,
        ensures
            final(self)@ == (TermState { rows: rows_through(old(self)@.rows, r as int), ..old(self)@ }),
            final(self).rows@.len() > r,
            final(self).rows@.len() == rows_through(old(self)@.rows, r as int).len(),
    {
        let ghost start = self.rows@;
        while self.rows.len() <= r
            invariant
                r < usize::MAX,
                self.row == old(self).row,
                self.col == old(self).col,
                self.overwrites == old(self).overwrites,
                start == old(self).rows@,
                start.len() <= self.rows@.len(),
                self.rows@.len() <= r + 1 || self.rows@.len() == start.len(),
                self.rows@.subrange(0, start.len() as int) == start,
                forall|i: int|
                    start.len() <= i < self.rows@.len() ==> (#[trigger] self.rows@[i])@.len() == 0,
            decreases r + 1 - self.rows.len(),
        {
            self.rows.push(Vec::new());
            assert(self.rows@.subrange(0, start.len() as int) =~= start);
        }
        let ghost expect = rows_through(old(self)@.rows, r as int);
        assert forall|i: int| 0 <= i < self@.rows.len() implies self@.rows[i] =~= expect[i] by {
            if i < start.len() {
                assert(self.rows@[i] == self.rows@.subrange(0, start.len() as int)[i]);
            }
        }
        assert(self@.rows =~= expect);
    }

    /// Writes `ch` at the cursor, as [`put_char`] says.
    fn put_char(&mut self, ch: char)
        requires
            old(self).row < usize::MAX,
            old(self).col < usize::MAX,
        ensures
            final(self)@ == put_char(old(self)@, ch),
    {
        self.ensure_row(self.row);
        let r = self.row;
        let c = self.col;
        let mut line: Vec<char> = Vec::new();
        self.rows.set_and_swap(r, &mut line);
        let ghost line0 = line@;
        while line.len() <= c
            invariant
                line0.len() <= line@.len(),
                line@.len() <= c + 1 || line@.len() == line0.len(),
                line@.subrange(0, line0.len() as int) == line0,
                forall|i: int| line0.len() <= i < line@.len() ==> #[trigger] line@[i] == ' ',
            decreases c + 1 - line.len(),
        {
            line.push(' ');
            assert(line@.subrange(0, line0.len() as int) =~= line0);
        }
        assert(line@ =~= padded(line0, c as int));
        let prev = line[c];
        if prev != ' ' && prev != ch {
            self.overwrites.push(Overwrite { row: r, col: c, old: prev, new: ch });
        }
        line.set(c, ch);
        self.rows.set(r, line);
        self.col = c + 1;
        assert(self@.rows =~= put_char(old(self)@, ch).rows);
    }

    /// Applies a CSI sequence with its parsed parameter, as [`csi`] says.
    fn handle_csi(&mut self, param: Option<usize>, cmd: char)
        requires
            cmd == 'K' ==> old(self).row < usize::MAX,
            cmd == 'B' ==> old(self).row + (match param {
                Some(v) => v as int,
                None => 1,
            }) <= usize::MAX,
        ensures
            final(self)@ == csi(old(self)@, param, cmd),
    {
        let n: usize = match param {
            Some(v) => v,
            None => 1,
        };
        if cmd == 'A' {
            self.row = if self.row > n {
                self.row - n
            } else {
                0
            };
        } else if cmd == 'B' {
            self.row = self.row + n;
        } else if cmd == 'G' {
            self.col = if n > 0 {
                n - 1
            } else {
                0
            };
        } else if cmd == 'K' {
            self.ensure_row(self.row);
            let mode: usize = match param {
                Some(v) => v,
                None => 0,
            };
            let r = self.row;
            let ghost rows1 = self@.rows;
            if mode == 2 {
                let mut line: Vec<char> = Vec::new();
                self.rows.set_and_swap(r, &mut line);
                line.clear();
                self.rows.set(r, line);
                self.col = 0;
                assert(self@.rows =~= rows1.update(r as int, Seq::<char>::empty()));
            } else if mode == 0 {
                let mut line: Vec<char> = Vec::new();
                self.rows.set_and_swap(r, &mut line);
                let ghost line0 = line@;
                line.truncate(self.col);
                self.rows.set(r, line);
                assert(self@.rows =~= rows1.update(
                    r as int,
                    if self.col <= line0.len() {
                        line0.subrange(0, self.col as int)
                    } else {
                        line0
                    },
                ));
            }
        }
    }

    /// Applies one token, as [`apply`] says.
    fn apply_token(&mut self, t: Token)
        requires
            token_fits(old(self).row as int, old(self).col as int, t),
        ensures
            final(self)@ == apply(old(self)@, t),
    {
        match t {
            Token::Csi { param, cmd } => {
                self.handle_csi(param, cmd);
            },
            Token::LineFeed => {
                self.row = self.row + 1;
                self.col = 0;
                self.ensure_row(self.row);
            },
            Token::CarriageReturn => {
                self.col = 0;
            },
            Token::Print(c) => {
                self.put_char(c);
            },
            Token::Ignore => {},
        }
    }

    /// Reads the characters `cs`, as [`run`] says.
    fn feed_chars(&mut self, cs: &Vec<char>)
        requires
            fits(old(self).row as int, old(self).col as int, cs@),
        ensures
            final(self)@ == run(old(self)@, cs@),
    {
        let mut i: usize = 0;
        assert(cs@.skip(0) =~= cs@);
        while i < cs.len()
            invariant
                i <= cs@.len(),
                run(old(self)@, cs@) == run(self@, cs@.skip(i as int)),
                fits(self.row as int, self.col as int, cs@.skip(i as int)),
            decreases cs.len() - i,
        {
            let ghost s = cs@.skip(i as int);
            let (t, j) = scan_at(cs, i);
            proof {
                lemma_scan(s);
                assert(s.skip(j - i) =~= cs@.skip(j as int));
            }
            self.apply_token(t);
            i = j;
        }
        assert(cs@.skip(i as int) =~= Seq::<char>::empty());
    }

    /// Reads the characters of `s` as terminal input.
    pub fn feed_str(&mut self, s: &str)
        requires
            fits(old(self).row as int, old(self).col as int, s@),
        ensures
            final(self)@ == run(old(self)@, s@),
            old(self)@.overwrites == final(self)@.overwrites.subrange(
                0,
                old(self)@.overwrites.len() as int,
            ),
            overwrites_genuine(final(self)@.overwrites, old(self)@.overwrites.len() as int),
            old(self)@.rows.len() <= final(self)@.rows.len(),
    {
        let cs = chars_of(s);
        self.feed_chars(&cs);
        proof {
            lemma_run_keeps_overwrites(old(self)@, s@);
        }
    }

    /// Reads `bytes` as terminal input, decoding them as UTF-8 with invalid
    /// sequences replaced.
    pub fn feed(&mut self, bytes: &[u8])
        requires
            fits(old(self).row as int, old(self).col as int, lossy_utf8(bytes@)),
        ensures
            final(self)@ == run(old(self)@, lossy_utf8(bytes@)),
            valid_utf8(bytes@) ==> final(self)@ == run(old(self)@, decode_utf8(bytes@)),
            old(self)@.overwrites == final(self)@.overwrites.subrange(
                0,
                old(self)@.overwrites.len() as int,
            ),
            overwrites_genuine(final(self)@.overwrites, old(self)@.overwrites.len() as int),
            old(self)@.rows.len() <= final(self)@.rows.len(),
    {
        let s = utf8_lossy(bytes);
        self.feed_str(s.as_str());
    }

    /// Reads `bytes` as [`Self::feed`] does when the cursor stays within range;
    /// otherwise leaves the terminal unchanged and returns `false`.
    pub fn try_feed(&mut self, bytes: &[u8]) -> (ok: bool)
        ensures
            ok == fits(old(self).row as int, old(self).col as int, lossy_utf8(bytes@)),
            ok ==> final(self)@ == run(old(self)@, lossy_utf8(bytes@)),
            ok && valid_utf8(bytes@) ==> final(self)@ == run(old(self)@, decode_utf8(bytes@)),
            !ok ==> final(self)@ == old(self)@,
    {
        let s = utf8_lossy(bytes);
        let cs = chars_of(s.as_str());
        if fits_chars(self.row, self.col, &cs) {
            self.feed(bytes);
            true
        } else {
            false
        }
    }

    /// The text on the screen, as [`screen`] says.
    pub fn screen_text(&self) -> (s: String)
        ensures
            s@ == screen(self@.rows),
    {
        let mut out: Vec<char> = Vec::new();
        let mut k: usize = 0;
        while k < self.rows.len()
            invariant
                k <= self.rows@.len(),
                out@ == join_trimmed(self@.rows.take(k as int)),
            decreases self.rows.len() - k,
        {
            let line = &self.rows[k];
            let mut t = line.len();
            assert(line@.take(line@.len() as int) =~= line@);
            while t > 0 && unicode_whitespace(line[t - 1])
                invariant
                    t <= line@.len(),
                    trim_end(line@.take(t as int)) == trim_end(line@),
                decreases t,
            {
                assert(line@.take(t as int).drop_last() =~= line@.take(t - 1));
                t = t - 1;
            }
            assert(line@.take(line@.len() as int) =~= line@);
            let ghost before = out@;
            if k > 0 {
                out.push('\n');
            }
            let mut q: usize = 0;
            while q < t
                invariant
                    q <= t,
                    t <= line@.len(),
                    out@ == (if k > 0 {
                        before.push('\n')
                    } else {
                        before
                    }) + line@.take(q as int),
                decreases t - q,
            {
                out.push(line[q]);
                q = q + 1;
                assert(out@ =~= (if k > 0 {
                    before.push('\n')
                } else {
                    before
                }) + line@.take(q as int));
            }
            proof {
                let rows = self@.rows;
                assert(rows.take(k + 1).drop_last() =~= rows.take(k as int));
                assert(rows.take(k + 1).last() == line@);
                assert(trim_end(line@.take(t as int)) == line@.take(t as int));
                if k == 0 {
                    assert(before =~= Seq::<char>::empty());
                    assert(out@ =~= trim_end(line@));
                } else {
                    assert(out@ =~= before + seq!['\n'] + trim_end(line@));
                }
            }
            k = k + 1;
        }
        assert(self@.rows.take(self.rows.len() as int) =~= self@.rows);
        let ghost joined = out@;
        while out.len() > 0 && out[out.len() - 1] == '\n'
            invariant
                trim_end_newlines(out@) == trim_end_newlines(joined),
            decreases out.len(),
        {
            out.pop();
        }
        string_from_chars(&out)
    }
}

} // verus!
