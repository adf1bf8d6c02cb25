//! Output for the terminal: text with colors.

use termion::{clear, color, cursor};
use vstd::prelude::*;
use vstd::utf8::encode_utf8;

verus! {

/// The digits of a number.
pub open spec fn decimal(n: nat) -> Seq<char>
    decreases n,
{
    if n < 10 {
        seq![('0' as u32 + n) as char]
    } else {
        decimal(n / 10).push(('0' as u32 + n % 10) as char)
    }
}

/// A control sequence: an escape, a bracket, and what follows.
pub open spec fn csi(body: Seq<char>) -> Seq<char> {
    seq!['\u{1b}', '['] + body
}

/// The sequence that sets the foreground color.
pub open spec fn fg_code(color: u8) -> Seq<char> {
    csi("38;5;"@ + decimal(color as nat) + "m"@)
}

/// The sequence that sets the background color.
pub open spec fn bg_code(color: u8) -> Seq<char> {
    csi("48;5;"@ + decimal(color as nat) + "m"@)
}

/// The sequence that sets the foreground color back to the default.
pub open spec fn fg_reset_code() -> Seq<char> {
    csi("39m"@)
}

/// The sequence that sets the background color back to the default.
pub open spec fn bg_reset_code() -> Seq<char> {
    csi("49m"@)
}

/// The sequence that moves the cursor to a column and a row, counted from
/// one.
pub open spec fn goto_code(column: nat, row: nat) -> Seq<char> {
    csi(decimal(row) + ";"@ + decimal(column) + "H"@)
}

/// The sequence that clears the screen.
pub open spec fn clear_code() -> Seq<char> {
    csi("2J"@)
}

/// The sequence that shows the cursor.
pub open spec fn show_cursor_code() -> Seq<char> {
    csi("?25h"@)
}

/// What `termion::color::Fg(AnsiValue(color))` displays as.
#[verifier::external_body]
fn fg(color: u8) -> (s: String)
    ensures
        s@ == fg_code(color),
{
    format!("{}", color::Fg(color::AnsiValue(color)))
}

/// What `termion::color::Bg(AnsiValue(color))` displays as.
#[verifier::external_body]
fn bg(color: u8) -> (s: String)
    ensures
        s@ == bg_code(color),
{
    format!("{}", color::Bg(color::AnsiValue(color)))
}

/// What `termion::color::Fg(Reset)` displays as.
#[verifier::external_body]
fn fg_reset() -> (s: String)
    ensures
        s@ == fg_reset_code(),
{
    format!("{}", color::Fg(color::Reset))
}

/// What `termion::color::Bg(Reset)` displays as.
#[verifier::external_body]
fn bg_reset() -> (s: String)
    ensures
        s@ == bg_reset_code(),
{
    format!("{}", color::Bg(color::Reset))
}

/// What `termion::cursor::Goto` displays as.  It panics in a debug build if
/// both the column and the row are zero.
#[verifier::external_body]
pub(crate) fn goto(column: u16, row: u16) -> (s: String)
    requires
        column > 0 || row > 0,
    ensures
        s@ == goto_code(column as nat, row as nat),
{
    format!("{}", cursor::Goto(column, row))
}

/// What `termion::clear::All` displays as.
#[verifier::external_body]
pub(crate) fn clear_all() -> (s: String)
    ensures
        s@ == clear_code(),
{
    format!("{}", clear::All)
}

/// What `termion::cursor::Show` displays as.
#[verifier::external_body]
pub(crate) fn show_cursor() -> (s: String)
    ensures
        s@ == show_cursor_code(),
{
    format!("{}", cursor::Show)
}

/// `String::from` makes a string of the one char.
#[verifier::external_body]
fn char_string(ch: char) -> (s: String)
    ensures
        s@ == seq![ch],
{
    String::from(ch)
}

/// What has to be sent to set both colors back to the default: a reset for
/// each color that is set.
pub open spec fn reset_codes(fg: Option<u8>, bg: Option<u8>) -> Seq<char> {
    (if fg is Some { fg_reset_code() } else { Seq::empty() }) + (if bg is Some {
        bg_reset_code()
    } else {
        Seq::empty()
    })
}

/// What has to be sent to set the colors: a sequence for each color that is
/// not set already.
pub open spec fn change_codes(cur_fg: Option<u8>, cur_bg: Option<u8>, fg: u8, bg: u8) -> Seq<
    char,
> {
    (if cur_fg == Some(fg) { Seq::empty() } else { fg_code(fg) }) + (if cur_bg == Some(bg) {
        Seq::empty()
    } else {
        bg_code(bg)
    })
}

/// Two texts one after the other are encoded one after the other.
pub proof fn lemma_encode_concat(a: Seq<char>, b: Seq<char>)
    ensures
        encode_utf8(a + b) == encode_utf8(a) + encode_utf8(b),
    decreases a.len(),
{
    if a.len() == 0 {
        assert(a + b =~= b);
    } else {
        lemma_encode_concat(a.drop_first(), b);
        assert((a + b).drop_first() =~= a.drop_first() + b);
    }
}

/// Output that leaves out color sequences that change nothing.
#[derive(Debug)]
pub struct CachingAnsciWriter {
    pub buf: Vec<u8>,
    pub cur_fg: Option<u8>,
    pub cur_bg: Option<u8>,
}

impl Default for CachingAnsciWriter {
    /// Nothing written, and no color set.
    fn default() -> (res: Self)
        ensures
            res.buf@ == Seq::<u8>::empty(),
            res.cur_fg is None,
            res.cur_bg is None,
    {
        CachingAnsciWriter { buf: Vec::new(), cur_fg: None, cur_bg: None }
    }
}

impl CachingAnsciWriter {
    /// All that was written.
    pub fn into_vec(self) -> (res: Vec<u8>)
        ensures
            res == self.buf,
    {
        self.buf
    }

    /// Writes bytes, and returns their number.
    pub fn write(&mut self, buf: &[u8]) -> (res: usize)
        ensures
            res == buf@.len(),
            final(self).buf@ == old(self).buf@ + buf@,
            final(self).cur_fg == old(self).cur_fg,
            final(self).cur_bg == old(self).cur_bg,
    {
        self.buf.extend_from_slice(buf);
        assert(self.buf@ =~= old(self).buf@ + buf@);
        buf.len()
    }

    /// Writes a string.
    pub fn print(&mut self, s: &str)
        ensures
            final(self).buf@ == old(self).buf@ + encode_utf8(s@),
            final(self).cur_fg == old(self).cur_fg,
            final(self).cur_bg == old(self).cur_bg,
    {
        self.write(s.as_bytes());
    }

    /// Writes a char.
    pub fn print_char(&mut self, ch: char)
        ensures
            final(self).buf@ == old(self).buf@ + encode_utf8(seq![ch]),
            final(self).cur_fg == old(self).cur_fg,
            final(self).cur_bg == old(self).cur_bg,
    {
        let s = char_string(ch);
        self.print(s.as_str());
    }

    /// Sets both colors back to the default.
    pub fn reset_color(&mut self)
        ensures
            final(self).buf@ == old(self).buf@ + encode_utf8(
                reset_codes(old(self).cur_fg, old(self).cur_bg),
            ),
            final(self).cur_fg is None,
            final(self).cur_bg is None,
    {
        let ghost first = if self.cur_fg is Some {
            fg_reset_code()
        } else {
            Seq::empty()
        };
        let ghost second = if self.cur_bg is Some {
            bg_reset_code()
        } else {
            Seq::empty()
        };
        proof {
            lemma_encode_concat(first, second);
        }
        if self.cur_fg.is_some() {
            self.cur_fg = None;
            let s = fg_reset();
            self.print(s.as_str());
        }
        if self.cur_bg.is_some() {
            self.cur_bg = None;
            let s = bg_reset();
            self.print(s.as_str());
        }
        assert(self.buf@ =~= old(self).buf@ + (encode_utf8(first) + encode_utf8(second)));
    }

    /// Sets both colors.
    pub fn change_color(&mut self, fg: u8, bg: u8)
        ensures
            final(self).buf@ == old(self).buf@ + encode_utf8(
                change_codes(old(self).cur_fg, old(self).cur_bg, fg, bg),
            ),
            final(self).cur_fg == Some(fg),
            final(self).cur_bg == Some(bg),
    {
        let ghost first = if self.cur_fg == Some(fg) {
            Seq::empty()
        } else {
            fg_code(fg)
        };
        let ghost second = if self.cur_bg == Some(bg) {
            Seq::empty()
        } else {
            bg_code(bg)
        };
        proof {
            lemma_encode_concat(first, second);
        }
        if self.cur_fg != Some(fg) {
            self.cur_fg = Some(fg);
            let s = self::fg(fg);
            self.print(s.as_str());
        }
        if self.cur_bg != Some(bg) {
            self.cur_bg = Some(bg);
            let s = self::bg(bg);
            self.print(s.as_str());
        }
        assert(self.buf@ =~= old(self).buf@ + (encode_utf8(first) + encode_utf8(second)));
    }
}

} // verus!
