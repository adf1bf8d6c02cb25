//! What holds of the screen.

use crate::ansi::{
    bg_code, bg_reset_code, change_codes, clear_code, csi, fg_code, fg_reset_code, goto_code,
    reset_codes,
};
use crate::breeze::{
    draw_chars, draw_line, draw_lines, drawable, glyph, least, screen, Drawn,
};
use crate::coord::{aligned_idx, coord_at};
use crate::edits::{is_selected, BufferModel};
use crate::lines::{
    last_line, lemma_line_bounds, lemma_line_of_bounds, line_chars, line_start,
};
use crate::mode::{Mode, StateModel};
use crate::rope::joined;
use vstd::prelude::*;

verus! {

/// Colors that are set already are not sent again.
pub proof fn law_no_idle_colors(fg: u8, bg: u8)
    ensures
        reset_codes(None, None) == Seq::<char>::empty(),
        change_codes(Some(fg), Some(bg), fg, bg) == Seq::<char>::empty(),
{
    assert(reset_codes(None, None) =~= Seq::empty());
    assert(change_codes(Some(fg), Some(bg), fg, bg) =~= Seq::empty());
}

/// Setting colors twice writes what setting them once does, and so does
/// setting them back.
pub proof fn law_colors_twice(d: Drawn, fg: u8, bg: u8)
    ensures
        d.reset().reset() == d.reset(),
        d.colored(fg, bg).colored(fg, bg) == d.colored(fg, bg),
{
    law_no_idle_colors(fg, bg);
    assert(d.reset().reset().text =~= d.reset().text);
    assert(d.colored(fg, bg).colored(fg, bg).text =~= d.colored(fg, bg).text);
}

impl Drawn {
    /// Whether both colors are set, or both are at the default.
    pub open spec fn paired(self) -> bool {
        self.fg is Some <==> self.bg is Some
    }
}

/// A screen that was drawn leaves the colors at the default.
pub proof fn law_screen_leaves_no_color(m: StateModel, cols: int, rows: int)
    ensures
        screen(m, cols, rows).fg is None,
        screen(m, cols, rows).bg is None,
{
}

/// What is drawn comes after what was drawn before, and colors that were both
/// set or both at the default still are.
pub proof fn law_lines_drawn_after(d: Drawn, m: BufferModel, cols: int, n: int)
    ensures
        d.text.is_prefix_of(draw_lines(d, m, cols, n).text),
        d.paired() ==> draw_lines(d, m, cols, n).paired(),
    decreases n,
{
    if n > 0 {
        law_lines_drawn_after(d, m, cols, n - 1);
        let before = draw_lines(d, m, cols, n - 1);
        let line = before.put(goto_code(1, n as nat));
        lemma_chars_drawn_after(
            line,
            m,
            n - 1,
            least(cols, line_chars(m.text, n - 1).len() as int),
        );
    }
}

proof fn lemma_chars_drawn_after(d: Drawn, m: BufferModel, line: int, n: int)
    ensures
        d.text.is_prefix_of(draw_chars(d, m, line, n).text),
        d.paired() ==> draw_chars(d, m, line, n).paired(),
    decreases n,
{
    if n > 0 {
        lemma_chars_drawn_after(d, m, line, n - 1);
    }
}

proof fn lemma_plain_chars(d: Drawn, m: BufferModel, line: int, n: int)
    requires
        d.fg is None,
        d.bg is None,
        0 <= line <= last_line(m.text),
        0 <= n <= line_chars(m.text, line).len(),
        forall|idx: int|
            line_start(m.text, line) <= idx < line_start(m.text, line + 1)
                ==> !#[trigger] is_selected(m, idx),
    ensures
        draw_chars(d, m, line, n) == d.put(
            line_chars(m.text, line).take(n).map_values(|ch: char| glyph(ch, false)),
        ),
    decreases n,
{
    let chars = line_chars(m.text, line);
    let shown = chars.take(n).map_values(|ch: char| glyph(ch, false));
    lemma_line_bounds(m.text, line);
    if n > 0 {
        lemma_plain_chars(d, m, line, n - 1);
        let idx = line_start(m.text, line) + n - 1;
        assert(!is_selected(m, idx));
        assert(chars[n - 1] == m.text[idx]);
        let before = chars.take(n - 1).map_values(|ch: char| glyph(ch, false));
        assert(shown =~= before.push(glyph(m.text[idx], false)));
    }
    assert(draw_chars(d, m, line, n).text =~= d.put(shown).text);
}

/// A line on which nothing is selected is drawn as it is, up to the width of
/// the screen, with a space for its line feed.
pub proof fn law_plain_line(d: Drawn, m: BufferModel, line: int, cols: int)
    requires
        d.fg is None,
        d.bg is None,
        0 <= line <= last_line(m.text),
        cols >= 0,
        forall|idx: int|
            line_start(m.text, line) <= idx < line_start(m.text, line + 1)
                ==> !#[trigger] is_selected(m, idx),
    ensures
        draw_line(d, m, line, cols) == d.put(goto_code(1, (line + 1) as nat)).put(
            line_chars(m.text, line).take(
                least(cols, line_chars(m.text, line).len() as int),
            ).map_values(|ch: char| glyph(ch, false)),
        ),
{
    lemma_plain_chars(
        d.put(goto_code(1, (line + 1) as nat)),
        m,
        line,
        least(cols, line_chars(m.text, line).len() as int),
    );
}

/// The smaller one of two numbers.
pub open spec fn lesser(a: int, b: int) -> int {
    if a < b {
        a
    } else {
        b
    }
}

/// The number of chars of a line that fit on the screen.
pub open spec fn fitting(m: BufferModel, cols: int, line: int) -> int {
    lesser(cols, line_start(m.text, line + 1) - line_start(m.text, line))
}

/// Whether the char that is drawn before the char `n` of a line is selected.
pub open spec fn selected_before(m: BufferModel, cols: int, line: int, n: int) -> bool
    decreases line, n,
{
    if n > 0 {
        is_selected(m, line_start(m.text, line) + n - 1)
    } else if line > 0 {
        let fit = fitting(m, cols, line - 1);
        selected_before(m, cols, line - 1, fit)
    } else {
        false
    }
}

/// The sequences that change the colors from one char to the next: black on
/// blue where a selection begins, and back to the default where it is over.
pub open spec fn color_change(before: bool, now: bool) -> Seq<char> {
    if now && !before {
        fg_code(16) + bg_code(4)
    } else if before && !now {
        fg_reset_code() + bg_reset_code()
    } else {
        Seq::empty()
    }
}

/// What is written for the char `n` of a line: the change of colors, and the
/// char.  A line feed is a dot where it is selected, and a space where not.
pub open spec fn cell(m: BufferModel, cols: int, line: int, n: int) -> Seq<char> {
    let idx = line_start(m.text, line) + n;
    let selected = is_selected(m, idx);
    let ch = m.text[idx];
    color_change(selected_before(m, cols, line, n), selected) + seq![
        if ch == '\n' && selected {
            '\u{b7}'
        } else if ch == '\n' {
            ' '
        } else {
            ch
        },
    ]
}

/// What is written for a line: the sequence that goes to its row, and its
/// chars, as many as fit.
pub open spec fn row(m: BufferModel, cols: int, line: int) -> Seq<char> {
    goto_code(1, (line + 1) as nat) + joined(
        Seq::new(fitting(m, cols, line) as nat, |n: int| cell(m, cols, line, n)),
    )
}

/// Whether colors are those of a selection, or the default.
spec fn colors_are(d: Drawn, selected: bool) -> bool {
    if selected {
        d.fg == Some(16u8) && d.bg == Some(4u8)
    } else {
        d.fg is None && d.bg is None
    }
}

proof fn lemma_cells(d: Drawn, m: BufferModel, cols: int, line: int, n: int)
    requires
        0 <= line <= last_line(m.text),
        0 <= n <= fitting(m, cols, line),
        colors_are(d, selected_before(m, cols, line, 0)),
    ensures
        draw_chars(d, m, line, n).text == d.text + joined(
            Seq::new(n as nat, |j: int| cell(m, cols, line, j)),
        ),
        colors_are(draw_chars(d, m, line, n), selected_before(m, cols, line, n)),
    decreases n,
{
    let cells = Seq::new(n as nat, |j: int| cell(m, cols, line, j));
    if n > 0 {
        lemma_cells(d, m, cols, line, n - 1);
        let before = draw_chars(d, m, line, n - 1);
        let idx = line_start(m.text, line) + n - 1;
        let was = selected_before(m, cols, line, n - 1);
        let selected = is_selected(m, idx);
        assert(cells.drop_last() =~= Seq::new((n - 1) as nat, |j: int| cell(m, cols, line, j)));
        assert(cells.last() == cell(m, cols, line, n - 1));
        if selected {
            assert(before.colored(16, 4).text =~= before.text + color_change(was, true));
        } else {
            assert(before.reset().text =~= before.text + color_change(was, false));
        }
        assert(draw_chars(d, m, line, n).text =~= before.text + cells.last());
        assert(draw_chars(d, m, line, n).text =~= d.text + joined(cells));
    } else {
        assert(cells =~= Seq::empty());
        assert(d.text =~= d.text + joined(cells));
    }
}

proof fn lemma_rows(d: Drawn, m: BufferModel, cols: int, n: int)
    requires
        cols >= 0,
        0 <= n <= last_line(m.text) + 1,
        d.fg is None,
        d.bg is None,
    ensures
        draw_lines(d, m, cols, n).text == d.text + joined(
            Seq::new(n as nat, |i: int| row(m, cols, i)),
        ),
        colors_are(draw_lines(d, m, cols, n), selected_before(m, cols, n, 0)),
    decreases n,
{
    let rows = Seq::new(n as nat, |i: int| row(m, cols, i));
    if n > 0 {
        lemma_rows(d, m, cols, n - 1);
        let before = draw_lines(d, m, cols, n - 1);
        let line = n - 1;
        lemma_line_bounds(m.text, line);
        let fit = fitting(m, cols, line);
        lemma_cells(before.put(goto_code(1, (line + 1) as nat)), m, cols, line, fit);
        assert(rows.drop_last() =~= Seq::new((n - 1) as nat, |i: int| row(m, cols, i)));
        assert(rows.last() == row(m, cols, line));
        assert(draw_lines(d, m, cols, n) == draw_chars(
            before.put(goto_code(1, (line + 1) as nat)),
            m,
            line,
            fit,
        ));
        assert(draw_lines(d, m, cols, n).text =~= d.text + joined(rows));
    } else {
        assert(rows =~= Seq::empty());
        assert(d.text =~= d.text + joined(rows));
    }
}

/// The screen shows every line of the text that has a row on it, and each char
/// of a line that fits, in order; then the name of the mode in the last row,
/// and the cursor at the position of the first cursor.
pub proof fn law_screen(m: StateModel, cols: int, rows: int)
    requires
        cols >= 0,
        rows >= 0,
    ensures
        ({
            let b = m.buffer;
            let shown = lesser(rows, last_line(b.text) + 1);
            let cursor = coord_at(b.text, aligned_idx(b.text, b.spans[0].cursor));
            screen(m, cols, rows).text == clear_code() + joined(
                Seq::new(shown as nat, |i: int| row(b, cols, i)),
            ) + color_change(selected_before(b, cols, shown, 0), false) + goto_code(
                1,
                (rows % 65536) as nat,
            ) + (if m.modes.last() == Mode::Insert {
                "insert"@
            } else {
                "normal"@
            }) + csi("6 q"@) + goto_code(
                (cursor.column % 65536 + 1) as nat,
                (cursor.line % 65536 + 1) as nat,
            ) + csi("?25h"@)
        }),
{
    let b = m.buffer;
    let shown = lesser(rows, last_line(b.text) + 1);
    let cleared = Drawn::nothing().put(clear_code());
    lemma_line_of_bounds(b.text, b.text.len() as int);
    lemma_rows(cleared, b, cols, shown);
    let lines = draw_lines(cleared, b, cols, shown);
    assert(cleared.text =~= clear_code());
    assert(lines.reset().text =~= lines.text + color_change(
        selected_before(b, cols, shown, 0),
        false,
    ));
}

/// The screen can be drawn wherever there is a mode and a cursor, no line
/// past the 65535th is shown, and 16 bits can count the cursor's line and
/// column from one on.
pub proof fn law_drawable(m: StateModel, rows: int)
    ensures
        drawable(m, rows) <==> ({
            let text = m.buffer.text;
            let cursor = coord_at(text, aligned_idx(text, m.buffer.spans[0].cursor));
            &&& m.modes.len() > 0
            &&& m.buffer.spans.len() > 0
            &&& rows <= 65535 || last_line(text) < 65535
            &&& cursor.line % 65536 != 65535
            &&& cursor.column % 65536 != 65535
        }),
{
}

/// A color is sent if it is not set already, and the foreground before the
/// background.  A reset is sent for each color that is set.
pub proof fn law_color_codes(cur_fg: Option<u8>, cur_bg: Option<u8>, fg: u8, bg: u8)
    ensures
        cur_fg != Some(fg) && cur_bg != Some(bg) ==> change_codes(cur_fg, cur_bg, fg, bg)
            == fg_code(fg) + bg_code(bg),
        cur_fg != Some(fg) && cur_bg == Some(bg) ==> change_codes(cur_fg, cur_bg, fg, bg)
            == fg_code(fg),
        cur_fg == Some(fg) && cur_bg != Some(bg) ==> change_codes(cur_fg, cur_bg, fg, bg)
            == bg_code(bg),
        cur_fg is Some && cur_bg is Some ==> reset_codes(cur_fg, cur_bg) == fg_reset_code()
            + bg_reset_code(),
        cur_fg is Some && cur_bg is None ==> reset_codes(cur_fg, cur_bg) == fg_reset_code(),
        cur_fg is None && cur_bg is Some ==> reset_codes(cur_fg, cur_bg) == bg_reset_code(),
{
    if cur_fg != Some(fg) && cur_bg == Some(bg) {
        assert(change_codes(cur_fg, cur_bg, fg, bg) =~= fg_code(fg));
    }
    if cur_fg == Some(fg) && cur_bg != Some(bg) {
        assert(change_codes(cur_fg, cur_bg, fg, bg) =~= bg_code(bg));
    }
    if cur_fg is Some && cur_bg is None {
        assert(reset_codes(cur_fg, cur_bg) =~= fg_reset_code());
    }
    if cur_fg is None && cur_bg is Some {
        assert(reset_codes(cur_fg, cur_bg) =~= bg_reset_code());
    }
}

} // verus!
