//! The modes of the editor: what a key press does in each of them.

use crate::buffer::{stored, texts, whole, Buffer};
use crate::coord::CoordUnaligned;
use crate::edits::{
    after_backspace, after_delete, after_extend, after_extend_line, after_extend_word,
    after_insert, after_line, after_move, after_paste, after_reverse, after_word, before_cursors,
    fresh, removable, BufferModel, Motion,
};
use crate::rope::{joined, rope_chars, rope_chunks};
use ropey::Rope;
use vstd::prelude::*;

verus! {

/// A key press.
#[derive(Debug, Clone, Copy, PartialEq, Eq, Hash, Structural)]
pub enum Key {
    Backspace,
    Left,
    Right,
    Up,
    Down,
    Home,
    End,
    PageUp,
    PageDown,
    BackTab,
    Delete,
    Insert,
    F(u8),
    Char(char),
    Alt(char),
    Ctrl(char),
    Null,
    Esc,
}

/// Mode handles keypresses
#[derive(Debug, Clone, Copy, PartialEq, Eq, Hash, Structural)]
pub enum Mode {
    Insert,
    Normal,
}

/// The mode in which keys are typed into the text.
pub struct InsertMode;

/// The mode in which keys are commands.
pub struct NormalMode;

/// What the editor state holds.
#[verifier::ext_equal]
pub struct StateModel {
    pub quit: bool,
    pub modes: Seq<Mode>,
    pub buffer: BufferModel,
    pub yanked: Seq<Seq<char>>,
}

/// The editor state
#[derive(Debug)]
pub struct State {
    pub quit: bool,
    pub modes: Vec<Mode>,
    pub buffer: Buffer,
    pub yanked: Vec<Rope>,
}

impl View for State {
    type V = StateModel;

    open spec fn view(&self) -> StateModel {
        StateModel {
            quit: self.quit,
            modes: self.modes@,
            buffer: self.buffer@,
            yanked: texts(self.yanked@),
        }
    }
}

impl Default for State {
    /// An empty buffer, nothing yanked, and no mode.
    fn default() -> (res: Self)
        ensures
            res@ == (StateModel {
                quit: false,
                modes: Seq::empty(),
                buffer: fresh(Seq::empty()),
                yanked: Seq::empty(),
            }),
    {
        let res = State {
            quit: false,
            modes: Vec::new(),
            buffer: Buffer::default(),
            yanked: Vec::new(),
        };
        assert(texts(res.yanked@) =~= Seq::empty());
        res
    }
}

impl Clone for State {
    /// A state that holds the same.
    fn clone(&self) -> (res: Self)
        ensures
            res@ == self@,
            stored(res.yanked@) == stored(self.yanked@),
            whole(res.yanked@),
    {
        let modes = self.modes.clone();
        assert(modes@ =~= self.modes@);
        let mut yanked: Vec<Rope> = Vec::new();
        let mut i: usize = 0;
        while i < self.yanked.len()
            invariant
                i <= self.yanked@.len(),
                yanked@.len() == i,
                forall|j: int|
                    0 <= j < i ==> rope_chars(#[trigger] yanked@[j]) == rope_chars(self.yanked@[j]),
                forall|j: int|
                    0 <= j < i ==> rope_chunks(#[trigger] yanked@[j]) == rope_chunks(
                        self.yanked@[j],
                    ),
                forall|j: int|
                    0 <= j < i ==> joined(rope_chunks(#[trigger] yanked@[j])) == rope_chars(
                        yanked@[j],
                    ),
            decreases self.yanked@.len() - i,
        {
            yanked.push(self.yanked[i].clone());
            i = i + 1;
        }
        assert(texts(yanked@) =~= texts(self.yanked@));
        assert(stored(yanked@) =~= stored(self.yanked@));
        State { quit: self.quit, modes, buffer: self.buffer.clone(), yanked }
    }
}

/// The state with another buffer.
pub open spec fn with_buffer(m: StateModel, buffer: BufferModel) -> StateModel {
    StateModel { buffer, ..m }
}

/// The control codes: the chars of the Unicode category `Cc`.
pub open spec fn is_control_code(c: char) -> bool {
    c <= '\u{1f}' || '\u{7f}' <= c <= '\u{9f}'
}

/// Whether a char is a control code.
pub fn is_control(c: char) -> (res: bool)
    ensures
        res == is_control_code(c),
{
    c <= '\u{1f}' || ('\u{7f}' <= c && c <= '\u{9f}')
}

/// What a key does in insert mode.
pub open spec fn insert_step(m: StateModel, key: Key) -> StateModel {
    match key {
        Key::Esc => StateModel {
            modes: if m.modes.len() > 0 {
                m.modes.drop_last()
            } else {
                m.modes
            },
            ..m
        },
        Key::Backspace => with_buffer(m, after_backspace(m.buffer)),
        Key::Left => with_buffer(m, after_move(m.buffer, Motion::Backward)),
        Key::Right => with_buffer(m, after_move(m.buffer, Motion::Forward)),
        Key::Up => with_buffer(m, after_move(m.buffer, Motion::Up)),
        Key::Down => with_buffer(m, after_move(m.buffer, Motion::Down)),
        Key::Char(ch) => if ch == '\n' || !is_control_code(ch) {
            with_buffer(m, after_insert(m.buffer, ch))
        } else {
            m
        },
        _ => m,
    }
}

/// The state after a deletion: what was selected is yanked.
pub open spec fn deleted(m: StateModel) -> StateModel {
    StateModel { buffer: after_delete(m.buffer), yanked: m.buffer.selected(), ..m }
}

/// What a key does in normal mode.  `stored` tells the pieces that the yanked
/// texts are stored in.
pub open spec fn normal_step(
    m: StateModel,
    stored: Seq<Seq<Seq<char>>>,
    key: Key,
) -> StateModel {
    match key {
        Key::Left => with_buffer(m, after_move(m.buffer, Motion::Backward)),
        Key::Right => with_buffer(m, after_move(m.buffer, Motion::Forward)),
        Key::Up => with_buffer(m, after_move(m.buffer, Motion::Up)),
        Key::Down => with_buffer(m, after_move(m.buffer, Motion::Down)),
        Key::Char(ch) => if ch == 'q' {
            StateModel { quit: true, ..m }
        } else if ch == 'i' {
            StateModel { modes: m.modes.push(Mode::Insert), ..m }
        } else if ch == 'h' {
            with_buffer(m, after_move(m.buffer, Motion::Backward))
        } else if ch == 'H' {
            with_buffer(m, after_extend(m.buffer, Motion::Backward))
        } else if ch == 'l' {
            with_buffer(m, after_move(m.buffer, Motion::Forward))
        } else if ch == 'L' {
            with_buffer(m, after_extend(m.buffer, Motion::Forward))
        } else if ch == 'j' {
            with_buffer(m, after_move(m.buffer, Motion::Down))
        } else if ch == 'J' {
            with_buffer(m, after_extend(m.buffer, Motion::Down))
        } else if ch == 'k' {
            with_buffer(m, after_move(m.buffer, Motion::Up))
        } else if ch == 'K' {
            with_buffer(m, after_extend(m.buffer, Motion::Up))
        } else if ch == 'd' {
            deleted(m)
        } else if ch == 'c' {
            StateModel { modes: m.modes.push(Mode::Insert), ..deleted(m) }
        } else if ch == 'y' {
            StateModel { yanked: m.buffer.selected(), ..m }
        } else if ch == 'p' {
            with_buffer(m, after_paste(m.buffer, stored, false))
        } else if ch == 'P' {
            with_buffer(m, after_paste(m.buffer, stored, true))
        } else if ch == 'w' {
            with_buffer(m, after_word(m.buffer, true))
        } else if ch == 'W' {
            with_buffer(m, after_extend_word(m.buffer, true))
        } else if ch == 'b' {
            with_buffer(m, after_word(m.buffer, false))
        } else if ch == 'B' {
            with_buffer(m, after_extend_word(m.buffer, false))
        } else if ch == 'x' {
            with_buffer(m, after_line(m.buffer))
        } else if ch == 'X' {
            with_buffer(m, after_extend_line(m.buffer))
        } else if ch == '\'' {
            with_buffer(m, after_reverse(m.buffer))
        } else {
            m
        },
        Key::Alt(ch) => if ch == ';' {
            with_buffer(m, after_reverse(m.buffer))
        } else {
            m
        },
        _ => m,
    }
}

/// What a key does in a mode.
pub open spec fn mode_step(
    mode: Mode,
    m: StateModel,
    stored: Seq<Seq<Seq<char>>>,
    key: Key,
) -> StateModel {
    match mode {
        Mode::Insert => insert_step(m, key),
        Mode::Normal => normal_step(m, stored, key),
    }
}

/// Whether a key yanks what is selected.
pub open spec fn yanks(mode: Mode, key: Key) -> bool {
    mode == Mode::Normal && (key == Key::Char('d') || key == Key::Char('c') || key == Key::Char(
        'y',
    ))
}

/// Whether a mode can handle a key: a key that takes chars out of the text
/// can only be handled where the chars are.
pub open spec fn accepts(mode: Mode, m: StateModel, key: Key) -> bool {
    match mode {
        Mode::Insert => key == Key::Backspace ==> removable(
            m.buffer.text,
            before_cursors(m.buffer),
        ),
        Mode::Normal => key == Key::Char('d') || key == Key::Char('c') ==> removable(
            m.buffer.text,
            m.buffer.ranges(),
        ),
    }
}

impl InsertMode {
    pub fn name(&self) -> (res: &'static str)
        ensures
            res@ == "insert"@,
    {
        "insert"
    }

    /// Types a char, moves the cursors, or leaves the mode.
    pub fn handle(&self, state: State, key: Key) -> (res: State)
        requires
            accepts(Mode::Insert, state@, key),
        ensures
            res@ == insert_step(state@, key),
            res.yanked == state.yanked,
    {
        let mut state = state;
        match key {
            Key::Esc => {
                state.modes.pop();
            },
            Key::Char('\n') => {
                state.buffer.insert('\n');
            },
            Key::Backspace => {
                state.buffer.backspace();
            },
            Key::Left => {
                state.buffer.move_cursor_backward();
            },
            Key::Right => {
                state.buffer.move_cursor_forward();
            },
            Key::Up => {
                state.buffer.move_cursor_up();
            },
            Key::Down => {
                state.buffer.move_cursor_down();
            },
            Key::Char(ch) => {
                if !is_control(ch) {
                    state.buffer.insert(ch);
                }
            },
            _ => {},
        }
        state
    }
}

impl NormalMode {
    pub fn name(&self) -> (res: &'static str)
        ensures
            res@ == "normal"@,
    {
        "normal"
    }

    /// Runs the command that the key stands for.
    pub fn handle(&self, state: State, key: Key) -> (res: State)
        requires
            accepts(Mode::Normal, state@, key),
        ensures
            res@ == normal_step(state@, stored(state.yanked@), key),
            !yanks(Mode::Normal, key) ==> res.yanked == state.yanked,
            yanks(Mode::Normal, key) ==> whole(res.yanked@),
    {
        let ghost m = state.buffer@;
        let mut state = state;
        match key {
            Key::Char('q') => {
                state.quit = true;
            },
            Key::Left => {
                state.buffer.move_cursor_backward();
            },
            Key::Right => {
                state.buffer.move_cursor_forward();
            },
            Key::Up => {
                state.buffer.move_cursor_up();
            },
            Key::Down => {
                state.buffer.move_cursor_down();
            },
            Key::Char('i') => {
                state.modes.push(Mode::Insert);
            },
            Key::Char('h') => {
                state.buffer.move_cursor(CoordUnaligned::backward);
                assert(state.buffer@ =~= after_move(m, Motion::Backward));
            },
            Key::Char('H') => {
                state.buffer.extend_cursor(CoordUnaligned::backward);
                assert(state.buffer@ =~= after_extend(m, Motion::Backward));
            },
            Key::Char('l') => {
                state.buffer.move_cursor(CoordUnaligned::forward);
                assert(state.buffer@ =~= after_move(m, Motion::Forward));
            },
            Key::Char('L') => {
                state.buffer.extend_cursor(CoordUnaligned::forward);
                assert(state.buffer@ =~= after_extend(m, Motion::Forward));
            },
            Key::Char('j') => {
                state.buffer.move_cursor(CoordUnaligned::down_unaligned);
                assert(state.buffer@ =~= after_move(m, Motion::Down));
            },
            Key::Char('J') => {
                state.buffer.extend_cursor(CoordUnaligned::down_unaligned);
                assert(state.buffer@ =~= after_extend(m, Motion::Down));
            },
            Key::Char('k') => {
                state.buffer.move_cursor(CoordUnaligned::up_unaligned);
                assert(state.buffer@ =~= after_move(m, Motion::Up));
            },
            Key::Char('K') => {
                state.buffer.extend_cursor(CoordUnaligned::up_unaligned);
                assert(state.buffer@ =~= after_extend(m, Motion::Up));
            },
            Key::Char('d') => {
                state.yanked = state.buffer.delete();
            },
            Key::Char('c') => {
                state.yanked = state.buffer.delete();
                state.modes.push(Mode::Insert);
            },
            Key::Char('y') => {
                state.yanked = state.buffer.yank();
            },
            Key::Char('p') => {
                state.buffer.paste(state.yanked.as_slice());
            },
            Key::Char('P') => {
                state.buffer.paste_extend(state.yanked.as_slice());
            },
            Key::Char('w') => {
                state.buffer.move_cursor_2(CoordUnaligned::forward_word);
                assert(state.buffer@ =~= after_word(m, true));
            },
            Key::Char('W') => {
                state.buffer.extend_cursor_2(CoordUnaligned::forward_word);
                assert(state.buffer@ =~= after_extend_word(m, true));
            },
            Key::Char('b') => {
                state.buffer.move_cursor_2(CoordUnaligned::backward_word);
                assert(state.buffer@ =~= after_word(m, false));
            },
            Key::Char('B') => {
                state.buffer.extend_cursor_2(CoordUnaligned::backward_word);
                assert(state.buffer@ =~= after_extend_word(m, false));
            },
            Key::Char('x') => {
                state.buffer.move_line();
            },
            Key::Char('X') => {
                state.buffer.extend_line();
            },
            Key::Char('\'') | Key::Alt(';') => {
                state.buffer.reverse_selections();
            },
            _ => {},
        }
        state
    }
}

impl Mode {
    /// The name of the mode.
    pub fn name(&self) -> (res: &'static str)
        ensures
            res@ == match *self {
                Mode::Insert => "insert"@,
                Mode::Normal => "normal"@,
            },
    {
        match self {
            Mode::Insert => InsertMode.name(),
            Mode::Normal => NormalMode.name(),
        }
    }

    /// Whether the mode can handle the key.
    pub fn accepts(&self, state: &State, key: Key) -> (res: bool)
        ensures
            res == accepts(*self, state@, key),
    {
        match self {
            Mode::Insert => match key {
                Key::Backspace => state.buffer.can_backspace(),
                _ => true,
            },
            Mode::Normal => match key {
                Key::Char('d') | Key::Char('c') => state.buffer.can_delete(),
                _ => true,
            },
        }
    }

    /// Transform state into next state
    pub fn handle(&self, state: State, key: Key) -> (res: State)
        requires
            accepts(*self, state@, key),
        ensures
            res@ == mode_step(*self, state@, stored(state.yanked@), key),
            !yanks(*self, key) ==> res.yanked == state.yanked,
            yanks(*self, key) ==> whole(res.yanked@),
    {
        match self {
            Mode::Insert => InsertMode.handle(state, key),
            Mode::Normal => NormalMode.handle(state, key),
        }
    }
}

} // verus!
