//! The editor instance: key presses in, a screen out.

use crate::ansi::{
    change_codes, clear_all, clear_code, csi, goto, goto_code, lemma_encode_concat, reset_codes,
    show_cursor, show_cursor_code, CachingAnsciWriter,
};
use crate::buffer::{stored, whole, Buffer};
use crate::coord::{aligned, Pos};
use crate::edits::{fresh, is_selected, BufferModel};
use crate::idx::Idx;
use crate::lines::{
    last_line, lemma_line_bounds, lemma_line_of_bounds, line_chars, line_start,
};
use crate::mode::{accepts, mode_step, yanks, Key, Mode, State, StateModel};
use crate::rope::{chars_of_line, rope_chars};
use ropey::Rope;
use vstd::prelude::*;
use vstd::utf8::encode_utf8;

verus! {

/// What was written to the screen so far, and the colors that are set.
pub struct Drawn {
    pub text: Seq<char>,
    pub fg: Option<u8>,
    pub bg: Option<u8>,
}

impl Drawn {
    /// Nothing written, and no color set.
    pub open spec fn nothing() -> Drawn {
        Drawn { text: Seq::empty(), fg: None, bg: None }
    }

    /// `s` written after the rest.
    pub open spec fn put(self, s: Seq<char>) -> Drawn {
        Drawn { text: self.text + s, ..self }
    }

    /// Both colors set back to the default.
    pub open spec fn reset(self) -> Drawn {
        Drawn { text: self.text + reset_codes(self.fg, self.bg), fg: None, bg: None }
    }

    /// Both colors set.
    pub open spec fn colored(self, fg: u8, bg: u8) -> Drawn {
        Drawn {
            text: self.text + change_codes(self.fg, self.bg, fg, bg),
            fg: Some(fg),
            bg: Some(bg),
        }
    }

    /// Whether a writer holds just this.
    pub open spec fn is_in(self, w: CachingAnsciWriter) -> bool {
        &&& w.buf@ == encode_utf8(self.text)
        &&& w.cur_fg == self.fg
        &&& w.cur_bg == self.bg
    }
}

/// What a char looks like: a line feed is a dot where it is selected, and a
/// space where it is not.
pub open spec fn glyph(ch: char, selected: bool) -> char {
    if ch != '\n' {
        ch
    } else if selected {
        '\u{b7}'
    } else {
        ' '
    }
}

/// A char drawn after the rest: in the colors of a selection if it is
/// selected.
pub open spec fn draw_char(d: Drawn, ch: char, selected: bool) -> Drawn {
    (if selected { d.colored(16, 4) } else { d.reset() }).put(seq![glyph(ch, selected)])
}

/// The first `n` chars of a line drawn after the rest.
pub open spec fn draw_chars(d: Drawn, m: BufferModel, line: int, n: int) -> Drawn
    decreases n,
{
    if n <= 0 {
        d
    } else {
        let idx = line_start(m.text, line) + n - 1;
        draw_char(draw_chars(d, m, line, n - 1), m.text[idx], is_selected(m, idx))
    }
}

/// The smaller one of two numbers.
pub open spec fn least(a: int, b: int) -> int {
    if a <= b {
        a
    } else {
        b
    }
}

/// A line drawn in its row, cut off at the width of the screen.
pub open spec fn draw_line(d: Drawn, m: BufferModel, line: int, cols: int) -> Drawn {
    draw_chars(
        d.put(goto_code(1, (line + 1) as nat)),
        m,
        line,
        least(cols, line_chars(m.text, line).len() as int),
    )
}

/// The first `n` lines drawn after the rest.
pub open spec fn draw_lines(d: Drawn, m: BufferModel, cols: int, n: int) -> Drawn
    decreases n,
{
    if n <= 0 {
        d
    } else {
        draw_line(draw_lines(d, m, cols, n - 1), m, n - 1, cols)
    }
}

/// The number of lines that are drawn: as many as there are, up to the height
/// of the screen.
pub open spec fn lines_shown(m: BufferModel, rows: int) -> int {
    least(rows, last_line(m.text) + 1)
}

/// Where the first cursor is.
pub open spec fn first_cursor(m: BufferModel) -> Pos {
    aligned(m.text, m.spans[0].cursor)
}

/// The name of a mode.
pub open spec fn mode_name(mode: Mode) -> Seq<char> {
    match mode {
        Mode::Insert => "insert"@,
        Mode::Normal => "normal"@,
    }
}

/// All that is written to draw the screen: the lines, the mode in the last
/// row, and a bar as the cursor.  The terminal counts rows and columns in 16
/// bits.
pub open spec fn screen(m: StateModel, cols: int, rows: int) -> Drawn {
    let cleared = Drawn::nothing().put(clear_code());
    let lines = draw_lines(cleared, m.buffer, cols, lines_shown(m.buffer, rows));
    let status = lines.reset().put(goto_code(1, (rows % 0x10000) as nat)).put(
        mode_name(m.modes.last()),
    );
    let cursor = first_cursor(m.buffer);
    status.put(csi("6 q"@)).put(
        goto_code(
            (cursor.column % 0x10000 + 1) as nat,
            (cursor.line % 0x10000 + 1) as nat,
        ),
    ).put(show_cursor_code())
}

/// Whether the screen can be drawn: there is a mode and a cursor, and no row
/// or column is the last one that 16 bits can count.
pub open spec fn drawable(m: StateModel, rows: int) -> bool {
    &&& m.modes.len() > 0
    &&& m.buffer.spans.len() > 0
    &&& lines_shown(m.buffer, rows) <= 0xffff
    &&& first_cursor(m.buffer).line % 0x10000 != 0xffff
    &&& first_cursor(m.buffer).column % 0x10000 != 0xffff
}

/// The lowest 16 bits of a number.
fn low_u16(n: usize) -> (res: u16)
    ensures
        res == n % 0x10000,
{
    assert(n as u16 == n % 0x10000) by (bit_vector);
    n as u16
}

/// The editor instance
///
/// Screen drawing + state handling
pub struct Breeze {
    pub state: State,
    pub display_cols: usize,
    pub display_rows: usize,
}

impl Breeze {
    /// An editor in normal mode, with an empty text, for a terminal of the
    /// given size.
    pub fn init(cols: u16, rows: u16) -> (res: Self)
        ensures
            res.state@ == (StateModel {
                quit: false,
                modes: seq![Mode::Normal],
                buffer: fresh(Seq::empty()),
                yanked: Seq::empty(),
            }),
            res.display_cols == cols,
            res.display_rows == rows,
    {
        let mut state = State::default();
        state.modes.push(Mode::Normal);
        assert(state.modes@ =~= seq![Mode::Normal]);
        Breeze { state, display_cols: cols as usize, display_rows: rows as usize }
    }

    /// Takes up a text that was read.
    pub fn open(&mut self, text: Rope)
        ensures
            final(self).state@ == (StateModel {
                buffer: fresh(rope_chars(text)),
                ..old(self).state@
            }),
            final(self).state.yanked == old(self).state.yanked,
            final(self).display_cols == old(self).display_cols,
            final(self).display_rows == old(self).display_rows,
    {
        self.state.buffer = Buffer::from_text(text);
    }

    /// Whether `press` can handle the key.
    pub fn accepts(&self, key: Key) -> (res: bool)
        ensures
            res == (self.state@.modes.len() > 0 && accepts(
                self.state@.modes.last(),
                self.state@,
                key,
            )),
    {
        let n: usize = self.state.modes.len();
        n > 0 && self.state.modes[n - 1].accepts(&self.state, key)
    }

    /// Lets the current mode handle the key, and returns whether the editor
    /// is to quit.
    pub fn press(&mut self, key: Key) -> (quit: bool)
        requires
            old(self).state@.modes.len() > 0,
            accepts(old(self).state@.modes.last(), old(self).state@, key),
        ensures
            final(self).state@ == mode_step(
                old(self).state@.modes.last(),
                old(self).state@,
                stored(old(self).state.yanked@),
                key,
            ),
            !yanks(old(self).state@.modes.last(), key) ==> stored(final(self).state.yanked@)
                == stored(old(self).state.yanked@),
            whole(final(self).state.yanked@),
            final(self).display_cols == old(self).display_cols,
            final(self).display_rows == old(self).display_rows,
            quit == final(self).state@.quit,
    {
        let n: usize = self.state.modes.len();
        let mode = self.state.modes[n - 1];
        self.state = mode.handle(self.state.clone(), key);
        self.state.quit
    }

    /// Whether `draw_to_buf` can draw the screen.
    pub fn can_draw(&self) -> (res: bool)
        ensures
            res == drawable(self.state@, self.display_rows as int),
    {
        let buffer = &self.state.buffer;
        if self.state.modes.len() == 0 || buffer.selections.len() == 0 {
            return false;
        }
        let last: usize = buffer.text.char_to_line(buffer.text.len_chars());
        let cursor = buffer.cursor_pos();
        (self.display_rows <= 0xffff || last < 0xffff) && cursor.line % 0x10000 != 0xffff
            && cursor.column % 0x10000 != 0xffff
    }

    /// The bytes to send to the terminal to draw the screen.
    pub fn draw_to_buf(&self) -> (res: Vec<u8>)
        requires
            drawable(self.state@, self.display_rows as int),
        ensures
            res@ == encode_utf8(
                screen(self.state@, self.display_cols as int, self.display_rows as int).text,
            ),
    {
        let ghost m = self.state@.buffer;
        let ghost cols = self.display_cols as int;
        let ghost rows = self.display_rows as int;
        let mut buf = CachingAnsciWriter::default();
        let ghost mut d = Drawn::nothing();
        assert(d.is_in(buf));

        buf.reset_color();
        proof {
            lemma_encode_concat(d.text, reset_codes(None, None));
            assert(d.text + reset_codes(None, None) =~= d.text);
        }

        let s = clear_all();
        buf.print(s.as_str());
        proof {
            lemma_encode_concat(d.text, s@);
            d = d.put(s@);
        }
        let ghost cleared = d;

        let len: usize = self.state.buffer.text.len_chars();
        let last: usize = self.state.buffer.text.char_to_line(len);
        let mut ch_idx: usize = 0;
        let mut line_i: usize = 0;
        proof {
            lemma_line_of_bounds(m.text, m.text.len() as int);
            lemma_line_bounds(m.text, 0);
        }
        while line_i < self.display_rows && line_i <= last
            invariant
                m == self.state@.buffer,
                cols == self.display_cols,
                rows == self.display_rows,
                len == m.text.len(),
                last == last_line(m.text),
                drawable(self.state@, rows),
                line_i <= lines_shown(m, rows),
                ch_idx == line_start(m.text, line_i as int),
                d.is_in(buf),
                d == draw_lines(cleared, m, cols, line_i as int),
            decreases lines_shown(m, rows) - line_i,
        {
            let s = goto(1, line_i as u16 + 1);
            buf.print(s.as_str());
            proof {
                lemma_encode_concat(d.text, s@);
                d = d.put(s@);
                lemma_line_bounds(m.text, line_i as int);
            }
            let chars = chars_of_line(&self.state.buffer.text, line_i);
            self.draw_line(&mut buf, &chars, ch_idx, Ghost(line_i as int), Ghost(d));
            proof {
                d = draw_chars(d, m, line_i as int, least(cols, chars@.len() as int));
            }
            ch_idx = ch_idx + chars.len();
            line_i = line_i + 1;
        }

        // status
        buf.reset_color();
        proof {
            lemma_encode_concat(d.text, reset_codes(d.fg, d.bg));
            d = d.reset();
        }
        let s = goto(1, low_u16(self.display_rows));
        buf.print(s.as_str());
        proof {
            lemma_encode_concat(d.text, s@);
            d = d.put(s@);
        }
        let n: usize = self.state.modes.len();
        let name = self.state.modes[n - 1].name();
        buf.print(name);
        proof {
            lemma_encode_concat(d.text, name@);
            d = d.put(name@);
        }

        // cursor
        let cursor = self.state.buffer.cursor_pos();
        buf.print("\u{1b}[6 q");
        proof {
            reveal_strlit("\u{1b}[6 q");
            reveal_strlit("6 q");
            assert("\u{1b}[6 q"@ =~= csi("6 q"@));
            lemma_encode_concat(d.text, csi("6 q"@));
            d = d.put(csi("6 q"@));
        }
        let s = goto(low_u16(cursor.column) + 1, low_u16(cursor.line) + 1);
        buf.print(s.as_str());
        proof {
            lemma_encode_concat(d.text, s@);
            d = d.put(s@);
        }
        let s = show_cursor();
        buf.print(s.as_str());
        proof {
            lemma_encode_concat(d.text, s@);
            d = d.put(s@);
        }
        buf.into_vec()
    }

    /// Draws the chars of a line, which starts at `ch_idx`, after the rest.
    fn draw_line(
        &self,
        buf: &mut CachingAnsciWriter,
        chars: &Vec<char>,
        ch_idx: usize,
        Ghost(line): Ghost<int>,
        Ghost(before): Ghost<Drawn>,
    )
        requires
            before.is_in(*old(buf)),
            0 <= line <= last_line(self.state@.buffer.text),
            chars@ == line_chars(self.state@.buffer.text, line),
            ch_idx == line_start(self.state@.buffer.text, line),
        ensures
            draw_chars(
                before,
                self.state@.buffer,
                line,
                least(self.display_cols as int, chars@.len() as int),
            ).is_in(*final(buf)),
    {
        let ghost m = self.state@.buffer;
        let ghost mut d = before;
        proof {
            lemma_line_bounds(m.text, line);
        }
        let len: usize = self.state.buffer.text.len_chars();
        let mut char_i: usize = 0;
        while char_i < chars.len() && char_i < self.display_cols
            invariant
                m == self.state@.buffer,
                chars@ == line_chars(m.text, line),
                ch_idx == line_start(m.text, line),
                0 <= line_start(m.text, line) <= line_start(m.text, line + 1) <= m.text.len(),
                len == m.text.len(),
                char_i <= chars@.len(),
                char_i <= self.display_cols,
                d.is_in(*buf),
                d == draw_chars(before, m, line, char_i as int),
            decreases chars@.len() - char_i,
        {
            let ghost idx = ch_idx + char_i;
            let in_selection = self.state.buffer.is_idx_selected(Idx(ch_idx + char_i));
            let ch = chars[char_i];
            assert(ch == m.text[idx]);
            assert(in_selection == is_selected(m, idx));
            let shown = if ch == '\n' {
                if in_selection {
                    '\u{b7}'
                } else {
                    ' '
                }
            } else {
                ch
            };

            if in_selection {
                buf.change_color(16, 4);
                proof {
                    lemma_encode_concat(d.text, change_codes(d.fg, d.bg, 16, 4));
                    d = d.colored(16, 4);
                }
            } else {
                buf.reset_color();
                proof {
                    lemma_encode_concat(d.text, reset_codes(d.fg, d.bg));
                    d = d.reset();
                }
            }
            buf.print_char(shown);
            proof {
                lemma_encode_concat(d.text, seq![shown]);
                d = d.put(seq![shown]);
                assert(d == draw_char(
                    draw_chars(before, m, line, char_i as int),
                    ch,
                    in_selection,
                ));
            }
            char_i = char_i + 1;
        }
    }
}

} // verus!
