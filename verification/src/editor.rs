//! A deliberately small vim for writing a project's log: enough muscle memory
//! to write an entry without leaving td, and nothing more. Unlike real vim,
//! `:w` closes the editor: there is nowhere to go back to but the project
//! list.
//!
//! What a key press does is stated by `EditorView::on_key`, a function on the
//! editor's abstract state; `Editor::on_key` is proved to perform it.

use vstd::prelude::*;

use crate::config::Theme;
use crate::key::{Key, KeyCode};
use crate::text::{
    join_lines, join_lines_exec, lemma_join_split, lemma_split_lines_nonempty, lines_view, split_lines,
    split_lines_exec,
    back_word, back_word_exec, back_ws, back_ws_exec, lemma_back_ws_bounds, lemma_back_word_bounds, lemma_skip_word_bounds,
    lemma_skip_ws_bounds, skip_word, skip_word_exec, skip_ws, skip_ws_exec, slice_range, trim, trim_chars, chars_of, string_of, chars_eq,
};

verus! {

/// What keys currently mean.
#[derive(Debug, Clone, Copy, PartialEq, Eq, Structural)]
pub enum Mode {
    Normal,
    Insert,
    Command,
}

/// Index of the first character of `line` that is not white space, or 0
/// when there is none.
pub open spec fn first_non_blank(line: Seq<char>) -> int {
    if skip_ws(line, 0) < line.len() {
        skip_ws(line, 0)
    } else {
        0
    }
}

pub open spec fn dec(x: int) -> int {
    if x > 0 {
        x - 1
    } else {
        0
    }
}

pub open spec fn min(a: int, b: int) -> int {
    if a <= b {
        a
    } else {
        b
    }
}

pub open spec fn unwritten_msg() -> Seq<char> {
    "unwritten changes \u{2014} :w to save and close, :q! to discard"@
}

pub open spec fn oldest_msg() -> Seq<char> {
    "already at oldest change"@
}

pub open spec fn unknown_prefix() -> Seq<char> {
    "not an editor command: "@
}

/// The editor's state as the contracts speak of it.
pub struct EditorView {
    pub name: Seq<char>,
    pub theme: Theme,
    pub lines: Seq<Seq<char>>,
    pub row: int,
    pub col: int,
    pub scroll: int,
    pub hscroll: int,
    pub mode: Mode,
    pub cmd: Seq<char>,
    /// First half of a two-key sequence: dd, gg, ZZ.
    pub pending: Option<char>,
    /// Whole-buffer snapshots, each with the cursor it was taken at.
    pub undo: Seq<(Seq<Seq<char>>, int, int)>,
    pub dirty: bool,
    pub status: Option<Seq<char>>,
    pub saved: bool,
    pub quit: bool,
}

impl EditorView {
    pub open spec fn line_len(self) -> int {
        self.lines[self.row].len() as int
    }

    /// The buffer as one text.
    pub open spec fn text(self) -> Seq<char> {
        join_lines(self.lines)
    }

    /// The editor's invariant: there is always a line for the cursor to sit
    /// on, the cursor is on it, and outside insert mode it sits on a
    /// character (or at the start of an empty line).
    pub open spec fn wf(self) -> bool {
        &&& self.lines.len() > 0
        &&& 0 <= self.row < self.lines.len()
        &&& 0 <= self.col <= self.line_len()
        &&& self.mode != Mode::Insert ==> (self.col == 0 || self.col < self.line_len())
        &&& 0 <= self.scroll
        &&& 0 <= self.hscroll
        &&& forall|i: int|
            0 <= i < self.undo.len() ==> (#[trigger] self.undo[i]).0.len() > 0 && 0
                <= self.undo[i].1 && 0 <= self.undo[i].2
    }

    /// Normal mode sits on a character, so the last valid column is one back
    /// from the end; insert mode may sit past it.
    pub open spec fn clamp_col(self) -> EditorView {
        let max = if self.mode == Mode::Insert {
            self.line_len()
        } else {
            dec(self.line_len())
        };
        EditorView { col: min(self.col, max), ..self }
    }

    pub open spec fn snapshot(self) -> EditorView {
        EditorView { undo: self.undo.push((self.lines, self.row, self.col)), ..self }
    }

    /// One snapshot per insert run, so undo takes back a typed sentence
    /// rather than a single letter.
    pub open spec fn enter_insert(self) -> EditorView {
        EditorView { mode: Mode::Insert, ..self.snapshot() }
    }

    pub open spec fn delete_line(self) -> EditorView {
        let s = self.snapshot();
        let rest = s.lines.remove(s.row);
        let lines = if rest.len() == 0 {
            seq![Seq::<char>::empty()]
        } else {
            rest
        };
        EditorView { lines, row: min(s.row, lines.len() - 1), dirty: true, ..s }.clamp_col()
    }

    pub open spec fn word_forward(self) -> EditorView {
        let line = self.lines[self.row];
        let i = skip_ws(line, skip_word(line, self.col));
        if i >= line.len() && self.row + 1 < self.lines.len() {
            EditorView {
                row: self.row + 1,
                col: first_non_blank(self.lines[self.row + 1]),
                ..self
            }
        } else {
            EditorView { col: min(i, dec(line.len() as int)), ..self }
        }
    }

    pub open spec fn word_back(self) -> EditorView {
        if self.col == 0 {
            if self.row > 0 {
                EditorView {
                    row: self.row - 1,
                    col: dec(self.lines[self.row - 1].len() as int),
                    ..self
                }
            } else {
                self
            }
        } else {
            let line = self.lines[self.row];
            EditorView { col: back_word(line, 0, back_ws(line, 1, self.col) - 1), ..self }
        }
    }

    pub open spec fn undo_step(self) -> EditorView {
        if self.undo.len() == 0 {
            EditorView { status: Some(oldest_msg()), ..self }
        } else {
            let e = self.undo.last();
            EditorView {
                lines: e.0,
                row: min(e.1, e.0.len() - 1),
                col: e.2,
                dirty: true,
                undo: self.undo.drop_last(),
                ..self
            }.clamp_col()
        }
    }

    pub open spec fn left(self) -> EditorView {
        EditorView { col: dec(self.col), ..self }
    }

    pub open spec fn right(self) -> EditorView {
        let max = if self.mode == Mode::Insert {
            self.line_len()
        } else {
            dec(self.line_len())
        };
        EditorView { col: min(self.col + 1, max), ..self }
    }

    pub open spec fn line_start(self) -> EditorView {
        EditorView { col: 0, ..self }
    }

    pub open spec fn line_end(self) -> EditorView {
        let end = if self.mode == Mode::Insert {
            self.line_len()
        } else {
            dec(self.line_len())
        };
        EditorView { col: end, ..self }
    }

    /// Moves to line `r`, keeping the column where the new line allows it.
    pub open spec fn to_row(self, r: int) -> EditorView {
        if self.mode == Mode::Insert {
            EditorView { row: r, col: min(self.col, self.lines[r].len() as int), ..self }
        } else {
            EditorView { row: r, ..self }.clamp_col()
        }
    }

    pub open spec fn down(self) -> EditorView {
        self.to_row(min(self.row + 1, self.lines.len() - 1))
    }

    pub open spec fn up(self) -> EditorView {
        self.to_row(dec(self.row))
    }

    pub open spec fn open_below(self) -> EditorView {
        let s = self.enter_insert();
        EditorView {
            row: s.row + 1,
            lines: s.lines.insert(s.row + 1, Seq::<char>::empty()),
            col: 0,
            ..s
        }
    }

    pub open spec fn open_above(self) -> EditorView {
        let s = self.enter_insert();
        EditorView { lines: s.lines.insert(s.row, Seq::<char>::empty()), col: 0, ..s }
    }

    /// `x`: cuts the character under the cursor.
    pub open spec fn cut_char(self) -> EditorView {
        if self.col < self.line_len() {
            let s = self.snapshot();
            EditorView {
                lines: s.lines.update(s.row, s.lines[s.row].remove(s.col)),
                dirty: true,
                ..s
            }.clamp_col()
        } else {
            self
        }
    }

    /// `D`: cuts from the cursor to the end of the line.
    pub open spec fn cut_to_end(self) -> EditorView {
        if self.col < self.line_len() {
            let s = self.snapshot();
            EditorView {
                lines: s.lines.update(s.row, s.lines[s.row].subrange(0, s.col)),
                dirty: true,
                ..s
            }.clamp_col()
        } else {
            self
        }
    }

    /// Normal mode, once any pending first key has been dealt with.
    pub open spec fn normal_plain(self, k: Key) -> EditorView {
        match k.code {
            KeyCode::Char(c) => {
                if c == 'd' || c == 'g' || c == 'Z' {
                    EditorView { pending: Some(c), ..self }
                } else if c == 'h' {
                    self.left()
                } else if c == 'l' {
                    self.right()
                } else if c == 'j' {
                    self.down()
                } else if c == 'k' {
                    self.up()
                } else if c == '0' {
                    self.line_start()
                } else if c == '$' {
                    self.line_end()
                } else if c == 'G' {
                    self.to_row(self.lines.len() - 1)
                } else if c == 'w' {
                    self.word_forward()
                } else if c == 'b' {
                    self.word_back()
                } else if c == 'i' {
                    self.enter_insert()
                } else if c == 'I' {
                    EditorView { col: first_non_blank(self.lines[self.row]), ..self }.enter_insert()
                } else if c == 'a' {
                    EditorView { col: min(self.col + 1, self.line_len()), ..self }.enter_insert()
                } else if c == 'A' {
                    EditorView { col: self.line_len(), ..self }.enter_insert()
                } else if c == 'o' {
                    self.open_below()
                } else if c == 'O' {
                    self.open_above()
                } else if c == 'x' {
                    self.cut_char()
                } else if c == 'D' {
                    self.cut_to_end()
                } else if c == 'u' {
                    self.undo_step()
                } else if c == ':' {
                    EditorView { mode: Mode::Command, cmd: Seq::<char>::empty(), ..self }
                } else {
                    self
                }
            },
            KeyCode::Left => self.left(),
            KeyCode::Right => self.right(),
            KeyCode::Down => self.down(),
            KeyCode::Up => self.up(),
            KeyCode::Home => self.line_start(),
            KeyCode::End => self.line_end(),
            _ => self,
        }
    }

    /// Two-key sequences resolve first, and anything unexpected cancels the
    /// pending key rather than doing half of it.
    pub open spec fn normal_key(self, k: Key) -> EditorView {
        let s = EditorView { pending: None, ..self };
        if self.pending == Some('d') && k.code == KeyCode::Char('d') {
            s.delete_line()
        } else if self.pending == Some('g') && k.code == KeyCode::Char('g') {
            EditorView { row: 0, ..s }.clamp_col()
        } else if self.pending == Some('Z') && k.code == KeyCode::Char('Z') {
            EditorView { saved: true, quit: true, ..s }
        } else {
            s.normal_plain(k)
        }
    }

    /// Enter in insert mode: the line breaks at the cursor.
    pub open spec fn break_line(self) -> EditorView {
        let line = self.lines[self.row];
        EditorView {
            lines: self.lines.update(self.row, line.subrange(0, self.col)).insert(
                self.row + 1,
                line.subrange(self.col, line.len() as int),
            ),
            row: self.row + 1,
            col: 0,
            dirty: true,
            ..self
        }
    }

    /// Backspace in insert mode: removes the character before the cursor, or
    /// joins the line onto the one above at its start.
    pub open spec fn backspace(self) -> EditorView {
        let line = self.lines[self.row];
        if self.col > 0 {
            EditorView {
                col: self.col - 1,
                lines: self.lines.update(self.row, line.remove(self.col - 1)),
                dirty: true,
                ..self
            }
        } else if self.row > 0 {
            let prev = self.lines[self.row - 1];
            EditorView {
                lines: self.lines.remove(self.row).update(self.row - 1, prev + line),
                row: self.row - 1,
                col: prev.len() as int,
                dirty: true,
                ..self
            }
        } else {
            self
        }
    }

    /// Types the characters `t` at the cursor.
    pub open spec fn type_text(self, t: Seq<char>) -> EditorView {
        let line = self.lines[self.row];
        EditorView {
            lines: self.lines.update(
                self.row,
                line.subrange(0, self.col) + t + line.subrange(self.col, line.len() as int),
            ),
            col: self.col + t.len(),
            dirty: true,
            ..self
        }
    }

    pub open spec fn insert_key(self, k: Key) -> EditorView {
        match k.code {
            KeyCode::Esc => EditorView { mode: Mode::Normal, col: dec(self.col), ..self }.clamp_col(),
            KeyCode::Enter => self.break_line(),
            KeyCode::Backspace => self.backspace(),
            KeyCode::Tab => self.type_text(seq![' ', ' ']),
            KeyCode::Char(c) => self.type_text(seq![c]),
            KeyCode::Left => self.left(),
            KeyCode::Right => self.right(),
            KeyCode::Down => self.down(),
            KeyCode::Up => self.up(),
            KeyCode::Home => self.line_start(),
            KeyCode::End => self.line_end(),
            _ => self,
        }
    }

    /// What `:` followed by `c` and enter does.
    pub open spec fn run_command(self, c: Seq<char>) -> EditorView {
        if c == "w"@ || c == "wq"@ || c == "x"@ {
            EditorView { saved: true, quit: true, ..self }
        } else if c == "q"@ && self.dirty {
            EditorView { status: Some(unwritten_msg()), ..self }
        } else if c == "q"@ || c == "q!"@ {
            EditorView { quit: true, ..self }
        } else {
            EditorView { status: Some(unknown_prefix() + c), ..self }
        }
    }

    pub open spec fn command_key(self, k: Key) -> EditorView {
        match k.code {
            KeyCode::Esc => EditorView { mode: Mode::Normal, ..self },
            KeyCode::Backspace => {
                if self.cmd.len() > 0 {
                    EditorView { cmd: self.cmd.drop_last(), ..self }
                } else {
                    // Backspacing over the colon itself abandons the command.
                    EditorView { mode: Mode::Normal, ..self }
                }
            },
            KeyCode::Char(c) => EditorView { cmd: self.cmd.push(c), ..self },
            KeyCode::Enter => EditorView {
                mode: Mode::Normal,
                cmd: Seq::<char>::empty(),
                ..self
            }.run_command(trim(self.cmd)),
            _ => self,
        }
    }

    /// What one key press does to the editor. Control-c backs out, and never
    /// silently commits.
    pub open spec fn on_key(self, k: Key) -> EditorView {
        let s = EditorView { status: None, ..self };
        if k.ctrl && k.code == KeyCode::Char('c') {
            EditorView { quit: true, ..s }
        } else {
            match s.mode {
                Mode::Normal => s.normal_key(k),
                Mode::Insert => s.insert_key(k),
                Mode::Command => s.command_key(k),
            }
        }
    }

    /// Scrolls just enough to bring the cursor into a window `body_h` rows
    /// high and `text_w` columns wide.
    pub open spec fn scroll_into_view(self, body_h: int, text_w: int) -> EditorView {
        let scroll1 = if self.row < self.scroll {
            self.row
        } else {
            self.scroll
        };
        let scroll2 = if body_h > 0 && self.row >= scroll1 + body_h {
            self.row + 1 - body_h
        } else {
            scroll1
        };
        let h1 = if self.col < self.hscroll {
            self.col
        } else {
            self.hscroll
        };
        let h2 = if self.col >= h1 + text_w {
            self.col + 1 - text_w
        } else {
            h1
        };
        EditorView { scroll: scroll2, hscroll: h2, ..self }
    }
}

/// Every key press keeps the editor's invariant: the buffer never runs out
/// of lines, and the cursor stays on it (on a character, outside insert
/// mode).
pub proof fn lemma_on_key_wf(s: EditorView, k: Key)
    requires
        s.wf(),
    ensures
        s.on_key(k).wf(),
{
    let s0 = EditorView { status: None, ..s };
    assert(s0.wf());
    if !(k.ctrl && k.code == KeyCode::Char('c')) {
        match s0.mode {
            Mode::Normal => lemma_normal_key_wf(s0, k),
            Mode::Insert => lemma_insert_key_wf(s0, k),
            Mode::Command => {},
        }
    }
}

proof fn lemma_snapshot_wf(s: EditorView)
    requires
        s.lines.len() > 0,
        0 <= s.row,
        0 <= s.col,
        forall|i: int|
            0 <= i < s.undo.len() ==> (#[trigger] s.undo[i]).0.len() > 0 && 0 <= s.undo[i].1 && 0
                <= s.undo[i].2,
    ensures
        forall|i: int|
            0 <= i < s.snapshot().undo.len() ==> (#[trigger] s.snapshot().undo[i]).0.len() > 0 && 0
                <= s.snapshot().undo[i].1 && 0 <= s.snapshot().undo[i].2,
{
    assert forall|i: int| 0 <= i < s.snapshot().undo.len() implies (#[trigger] s.snapshot().undo[
        i]).0.len() > 0 && 0 <= s.snapshot().undo[i].1 && 0 <= s.snapshot().undo[i].2 by {
        if i < s.undo.len() {
            assert(s.snapshot().undo[i] == s.undo[i]);
        }
    }
}

proof fn lemma_first_non_blank(line: Seq<char>)
    ensures
        0 <= first_non_blank(line),
        first_non_blank(line) == 0 || first_non_blank(line) < line.len(),
{
    lemma_skip_ws_bounds(line, 0);
}

proof fn lemma_normal_key_wf(s: EditorView, k: Key)
    requires
        s.wf(),
        s.mode == Mode::Normal,
    ensures
        s.normal_key(k).wf(),
{
    let s0 = EditorView { pending: None, ..s };
    assert(s0.wf());
    if s.pending == Some('d') && k.code == KeyCode::Char('d') {
        lemma_snapshot_wf(s0);
    } else if s.pending == Some('g') && k.code == KeyCode::Char('g') {
    } else if s.pending == Some('Z') && k.code == KeyCode::Char('Z') {
    } else {
        match k.code {
            KeyCode::Char(c) => {
                if c == 'w' || c == 'b' {
                    lemma_word_motion_wf(s0, c);
                } else if c == 'i' || c == 'I' || c == 'a' || c == 'A' || c == 'o' || c == 'O' {
                    lemma_insert_entry_wf(s0, c);
                } else if c == 'x' || c == 'D' || c == 'u' {
                    lemma_cut_wf(s0, c);
                }
            },
            _ => {},
        }
    }
}

proof fn lemma_word_motion_wf(s0: EditorView, c: char)
    requires
        s0.wf(),
        s0.mode == Mode::Normal,
        c == 'w' || c == 'b',
    ensures
        s0.normal_plain(Key { code: KeyCode::Char(c), ctrl: false }).wf(),
        s0.normal_plain(Key { code: KeyCode::Char(c), ctrl: true }).wf(),
{
    if c == 'w' {
        let line = s0.lines[s0.row];
        lemma_skip_word_bounds(line, s0.col);
        lemma_skip_ws_bounds(line, skip_word(line, s0.col));
        if s0.row + 1 < s0.lines.len() {
            lemma_first_non_blank(s0.lines[s0.row + 1]);
        }
        assert(s0.word_forward().wf());
    } else {
        if s0.col > 0 {
            let line = s0.lines[s0.row];
            lemma_back_ws_bounds(line, 1, s0.col);
            lemma_back_word_bounds(line, 0, back_ws(line, 1, s0.col) - 1);
        }
        assert(s0.word_back().wf());
    }
}

proof fn lemma_insert_entry_wf(s0: EditorView, c: char)
    requires
        s0.wf(),
        s0.mode == Mode::Normal,
        c == 'i' || c == 'I' || c == 'a' || c == 'A' || c == 'o' || c == 'O',
    ensures
        s0.normal_plain(Key { code: KeyCode::Char(c), ctrl: false }).wf(),
        s0.normal_plain(Key { code: KeyCode::Char(c), ctrl: true }).wf(),
{
    lemma_first_non_blank(s0.lines[s0.row]);
    let s1 = if c == 'I' {
        EditorView { col: first_non_blank(s0.lines[s0.row]), ..s0 }
    } else if c == 'a' {
        EditorView { col: min(s0.col + 1, s0.line_len()), ..s0 }
    } else if c == 'A' {
        EditorView { col: s0.line_len(), ..s0 }
    } else {
        s0
    };
    lemma_snapshot_wf(s1);
    assert(s1.enter_insert().wf());
    if c == 'o' {
        assert(s0.open_below().wf());
    } else if c == 'O' {
        assert(s0.open_above().wf());
    }
}

proof fn lemma_cut_wf(s0: EditorView, c: char)
    requires
        s0.wf(),
        s0.mode == Mode::Normal,
        c == 'x' || c == 'D' || c == 'u',
    ensures
        s0.normal_plain(Key { code: KeyCode::Char(c), ctrl: false }).wf(),
        s0.normal_plain(Key { code: KeyCode::Char(c), ctrl: true }).wf(),
{
    lemma_snapshot_wf(s0);
    if c == 'x' {
        assert(s0.cut_char().wf());
    } else if c == 'D' {
        assert(s0.cut_to_end().wf());
    } else {
        if s0.undo.len() > 0 {
            let e = s0.undo.last();
            assert(s0.undo[s0.undo.len() - 1] == e);
            lemma_undo_drop_wf(s0);
        }
        assert(s0.undo_step().wf());
    }
}

proof fn lemma_undo_drop_wf(s: EditorView)
    requires
        s.wf(),
        s.undo.len() > 0,
    ensures
        forall|i: int|
            0 <= i < s.undo.drop_last().len() ==> (#[trigger] s.undo.drop_last()[i]).0.len() > 0
                && 0 <= s.undo.drop_last()[i].1 && 0 <= s.undo.drop_last()[i].2,
{
    assert forall|i: int| 0 <= i < s.undo.drop_last().len() implies (
    #[trigger] s.undo.drop_last()[i]).0.len() > 0 && 0 <= s.undo.drop_last()[i].1 && 0
        <= s.undo.drop_last()[i].2 by {
        assert(s.undo.drop_last()[i] == s.undo[i]);
    }
}

proof fn lemma_insert_key_wf(s: EditorView, k: Key)
    requires
        s.wf(),
        s.mode == Mode::Insert,
    ensures
        s.insert_key(k).wf(),
{
}

/// The editor after the keys `keys`, pressed in order.
pub open spec fn run_keys(s: EditorView, keys: Seq<Key>) -> EditorView
    decreases keys.len(),
{
    if keys.len() == 0 {
        s
    } else {
        run_keys(s, keys.drop_last()).on_key(keys.last())
    }
}

/// A key that leaves insert mode where it is: anything but escape and
/// control-c.
pub open spec fn stays_inserting(k: Key) -> bool {
    k.code != KeyCode::Esc && !(k.ctrl && k.code == KeyCode::Char('c'))
}

proof fn lemma_insert_run(s: EditorView, keys: Seq<Key>)
    requires
        s.wf(),
        s.mode == Mode::Insert,
        forall|i: int| 0 <= i < keys.len() ==> stays_inserting(#[trigger] keys[i]),
    ensures
        run_keys(s, keys).wf(),
        run_keys(s, keys).mode == Mode::Insert,
        run_keys(s, keys).undo == s.undo,
        run_keys(s, keys).pending == s.pending,
    decreases keys.len(),
{
    if keys.len() > 0 {
        let ks = keys.drop_last();
        assert forall|i: int| 0 <= i < ks.len() implies stays_inserting(#[trigger] ks[i]) by {
            assert(ks[i] == keys[i]);
        }
        lemma_insert_run(s, ks);
        let t = run_keys(s, ks);
        assert(stays_inserting(keys[keys.len() - 1]));
        lemma_on_key_wf(t, keys.last());
    }
}

/// Undo takes back a whole insert run at once: entering insert mode, typing
/// anything, leaving with escape and pressing `u` gives back the lines and
/// the line the cursor was on before, and the undo history as it was.
pub proof fn law_undo_rewinds_insert_run(s: EditorView, c: char, keys: Seq<Key>)
    requires
        s.wf(),
        s.mode == Mode::Normal,
        s.pending is None,
        c == 'i' || c == 'I' || c == 'a' || c == 'A' || c == 'o' || c == 'O',
        forall|i: int| 0 <= i < keys.len() ==> stays_inserting(#[trigger] keys[i]),
    ensures
        ({
            let t = run_keys(s.on_key(Key { code: KeyCode::Char(c), ctrl: false }), keys).on_key(
                Key { code: KeyCode::Esc, ctrl: false },
            ).on_key(Key { code: KeyCode::Char('u'), ctrl: false });
            &&& t.lines == s.lines
            &&& t.row == s.row
            &&& t.undo == s.undo
            &&& t.mode == Mode::Normal
        }),
{
    let k = Key { code: KeyCode::Char(c), ctrl: false };
    lemma_enter_insert_run(s, c);
    let s1 = s.on_key(k);
    lemma_insert_run(s1, keys);
    let s2 = run_keys(s1, keys);
    lemma_escape(s2);
    let s3 = s2.on_key(Key { code: KeyCode::Esc, ctrl: false });
    lemma_undo_key(s3);
}

proof fn lemma_enter_insert_run(s: EditorView, c: char)
    requires
        s.wf(),
        s.mode == Mode::Normal,
        s.pending is None,
        c == 'i' || c == 'I' || c == 'a' || c == 'A' || c == 'o' || c == 'O',
    ensures
        ({
            let s1 = s.on_key(Key { code: KeyCode::Char(c), ctrl: false });
            &&& s1.wf()
            &&& s1.mode == Mode::Insert
            &&& s1.pending is None
            &&& s1.undo.len() == s.undo.len() + 1
            &&& s1.undo.last().0 == s.lines
            &&& s1.undo.last().1 == s.row
            &&& s1.undo.drop_last() == s.undo
        }),
{
    let k = Key { code: KeyCode::Char(c), ctrl: false };
    lemma_on_key_wf(s, k);
    let s0 = EditorView { status: None, ..s };
    assert(s.on_key(k) == s0.normal_plain(k));
    let s1 = if c == 'I' {
        EditorView { col: first_non_blank(s0.lines[s0.row]), ..s0 }
    } else if c == 'a' {
        EditorView { col: min(s0.col + 1, s0.line_len()), ..s0 }
    } else if c == 'A' {
        EditorView { col: s0.line_len(), ..s0 }
    } else {
        s0
    };
    assert(s1.snapshot().undo.drop_last() == s.undo);
}

proof fn lemma_escape(s: EditorView)
    requires
        s.wf(),
        s.mode == Mode::Insert,
    ensures
        s.on_key(Key { code: KeyCode::Esc, ctrl: false }).wf(),
        s.on_key(Key { code: KeyCode::Esc, ctrl: false }).mode == Mode::Normal,
        s.on_key(Key { code: KeyCode::Esc, ctrl: false }).undo == s.undo,
        s.on_key(Key { code: KeyCode::Esc, ctrl: false }).pending == s.pending,
{
    lemma_on_key_wf(s, Key { code: KeyCode::Esc, ctrl: false });
}

proof fn lemma_undo_key(s: EditorView)
    requires
        s.wf(),
        s.mode == Mode::Normal,
        s.pending is None,
        s.undo.len() > 0,
    ensures
        s.on_key(Key { code: KeyCode::Char('u'), ctrl: false }).lines == s.undo.last().0,
        s.on_key(Key { code: KeyCode::Char('u'), ctrl: false }).row == min(
            s.undo.last().1,
            s.undo.last().0.len() - 1,
        ),
        s.on_key(Key { code: KeyCode::Char('u'), ctrl: false }).undo == s.undo.drop_last(),
        s.on_key(Key { code: KeyCode::Char('u'), ctrl: false }).mode == Mode::Normal,
{
}

/// A bare `:q` never throws away unwritten changes: the editor stays open
/// and says why.
pub proof fn law_bare_q_keeps_unwritten_changes(s: EditorView)
    requires
        s.wf(),
        s.mode == Mode::Command,
        s.dirty,
        trim(s.cmd) == "q"@,
    ensures
        s.on_key(Key { code: KeyCode::Enter, ctrl: false }).quit == s.quit,
        s.on_key(Key { code: KeyCode::Enter, ctrl: false }).saved == s.saved,
        s.on_key(Key { code: KeyCode::Enter, ctrl: false }).lines == s.lines,
        s.on_key(Key { code: KeyCode::Enter, ctrl: false }).status == Some(unwritten_msg()),
{
    reveal_strlit("q");
    reveal_strlit("w");
    reveal_strlit("wq");
    reveal_strlit("x");
    assert("q"@ != "w"@) by {
        assert("q"@[0] != "w"@[0]);
    }
    assert("q"@ != "x"@) by {
        assert("q"@[0] != "x"@[0]);
    }
    assert("q"@ != "wq"@) by {
        assert("q"@.len() != "wq"@.len());
    }
}

/// After scrolling into view, the cursor is inside the window.
pub proof fn law_scroll_shows_cursor(s: EditorView, body_h: int, text_w: int)
    requires
        s.wf(),
        body_h > 0,
        text_w > 0,
    ensures
        s.scroll_into_view(body_h, text_w).scroll <= s.row < s.scroll_into_view(body_h, text_w).scroll
            + body_h,
        s.scroll_into_view(body_h, text_w).hscroll <= s.col < s.scroll_into_view(
            body_h,
            text_w,
        ).hscroll + text_w,
{
}

pub open spec fn undo_view(v: Seq<(Vec<Vec<char>>, usize, usize)>) -> Seq<
    (Seq<Seq<char>>, int, int),
> {
    v.map_values(|e: (Vec<Vec<char>>, usize, usize)| (lines_view(e.0@), e.1 as int, e.2 as int))
}

pub open spec fn opt_view(s: Option<String>) -> Option<Seq<char>> {
    match s {
        Some(t) => Some(t@),
        None => None,
    }
}

struct State {
    name: String,
    theme: Theme,
    lines: Vec<Vec<char>>,
    row: usize,
    col: usize,
    scroll: usize,
    hscroll: usize,
    mode: Mode,
    cmd: Vec<char>,
    pending: Option<char>,
    undo: Vec<(Vec<Vec<char>>, usize, usize)>,
    dirty: bool,
    status: Option<String>,
    saved: bool,
    quit: bool,
}

impl View for State {
    type V = EditorView;

    closed spec fn view(&self) -> EditorView {
        EditorView {
            name: self.name@,
            theme: self.theme,
            lines: lines_view(self.lines@),
            row: self.row as int,
            col: self.col as int,
            scroll: self.scroll as int,
            hscroll: self.hscroll as int,
            mode: self.mode,
            cmd: self.cmd@,
            pending: self.pending,
            undo: undo_view(self.undo@),
            dirty: self.dirty,
            status: opt_view(self.status),
            saved: self.saved,
            quit: self.quit,
        }
    }
}

/// Whether the characters `c` spell exactly `w`.
fn is_word(c: &Vec<char>, w: &str) -> (res: bool)
    ensures
        res == (c@ == w@),
{
    let wc = chars_of(w);
    chars_eq(c.as_slice(), wc.as_slice())
}

/// A copy of the lines that shares nothing with them.
fn copy_lines(v: &Vec<Vec<char>>) -> (res: Vec<Vec<char>>)
    ensures
        lines_view(res@) == lines_view(v@),
{
    let mut out: Vec<Vec<char>> = Vec::new();
    let mut i: usize = 0;
    while i < v.len()
        invariant
            i <= v@.len(),
            out@.len() == i,
            lines_view(out@) == lines_view(v@).subrange(0, i as int),
        decreases v@.len() - i,
    {
        let l = slice_range(v[i].as_slice(), 0, v[i].len());
        proof {
            assert(v@[i as int]@.subrange(0, v@[i as int]@.len() as int) == v@[i as int]@);
        }
        out.push(l);
        proof {
            assert(out@[i as int]@ == v@[i as int]@);
            assert(lines_view(out@) =~= lines_view(v@).subrange(0, i + 1));
        }
        i += 1;
    }
    proof {
        assert(lines_view(v@).subrange(0, v@.len() as int) == lines_view(v@));
    }
    out
}

fn exec_first_non_blank(line: &[char]) -> (res: usize)
    ensures
        res == first_non_blank(line@),
{
    let i = skip_ws_exec(line, 0);
    if i < line.len() {
        i
    } else {
        0
    }
}

impl State {
    fn line_len(&self) -> (res: usize)
        requires
            self@.wf(),
        ensures
            res == self@.line_len(),
    {
        self.lines[self.row].len()
    }

    fn clamp_col(&mut self)
        requires
            old(self)@.lines.len() > 0,
            0 <= old(self)@.row < old(self)@.lines.len(),
        ensures
            final(self)@ == old(self)@.clamp_col(),
    {
        let len = self.lines[self.row].len();
        let max = if self.mode == Mode::Insert {
            len
        } else if len > 0 {
            len - 1
        } else {
            0
        };
        if self.col > max {
            self.col = max;
        }
    }

    fn snapshot(&mut self)
        ensures
            final(self)@ == old(self)@.snapshot(),
    {
        let copy = copy_lines(&self.lines);
        self.undo.push((copy, self.row, self.col));
        proof {
            assert(undo_view(self.undo@) == undo_view(old(self).undo@).push(
                (lines_view(old(self).lines@), old(self).row as int, old(self).col as int),
            ));
        }
    }

    fn enter_insert(&mut self)
        ensures
            final(self)@ == old(self)@.enter_insert(),
    {
        self.snapshot();
        self.mode = Mode::Insert;
    }

    fn delete_line(&mut self)
        requires
            old(self)@.wf(),
        ensures
            final(self)@ == old(self)@.delete_line(),
    {
        self.snapshot();
        self.lines.remove(self.row);
        proof {
            assert(lines_view(self.lines@) == lines_view(old(self).lines@).remove(
                old(self).row as int,
            ));
        }
        if self.lines.len() == 0 {
            self.lines.push(Vec::new());
            proof {
                assert(lines_view(self.lines@) == seq![Seq::<char>::empty()]);
            }
        }
        if self.row > self.lines.len() - 1 {
            self.row = self.lines.len() - 1;
        }
        self.dirty = true;
        self.clamp_col();
    }

    fn word_forward(&mut self)
        requires
            old(self)@.wf(),
        ensures
            final(self)@ == old(self)@.word_forward(),
    {
        let n = self.lines.len();
        let row = self.row;
        let len = self.lines[row].len();
        let i0 = skip_word_exec(self.lines[row].as_slice(), self.col);
        proof {
            lemma_skip_word_bounds(self.lines[row as int]@, self.col as int);
        }
        let i = skip_ws_exec(self.lines[row].as_slice(), i0);
        proof {
            lemma_skip_ws_bounds(self.lines[row as int]@, i0 as int);
        }
        if i >= len && row + 1 < n {
            self.row = row + 1;
            self.col = exec_first_non_blank(self.lines[row + 1].as_slice());
        } else {
            let last = if len > 0 {
                len - 1
            } else {
                0
            };
            self.col = if i < last {
                i
            } else {
                last
            };
        }
    }

    fn word_back(&mut self)
        requires
            old(self)@.wf(),
        ensures
            final(self)@ == old(self)@.word_back(),
    {
        if self.col == 0 {
            if self.row > 0 {
                self.row = self.row - 1;
                let len = self.lines[self.row].len();
                self.col = if len > 0 {
                    len - 1
                } else {
                    0
                };
            }
            return ;
        }
        let row = self.row;
        let j = back_ws_exec(self.lines[row].as_slice(), 1, self.col);
        proof {
            lemma_back_ws_bounds(self.lines[row as int]@, 1, self.col as int);
        }
        self.col = back_word_exec(self.lines[row].as_slice(), 0, j - 1);
    }

    fn left(&mut self)
        ensures
            final(self)@ == old(self)@.left(),
    {
        if self.col > 0 {
            self.col = self.col - 1;
        }
    }

    fn right(&mut self)
        requires
            old(self)@.wf(),
        ensures
            final(self)@ == old(self)@.right(),
    {
        let len = self.line_len();
        let max = if self.mode == Mode::Insert {
            len
        } else if len > 0 {
            len - 1
        } else {
            0
        };
        if self.col < max {
            self.col = self.col + 1;
        } else {
            self.col = max;
        }
    }

    fn line_end(&mut self)
        requires
            old(self)@.wf(),
        ensures
            final(self)@ == old(self)@.line_end(),
    {
        let len = self.line_len();
        self.col = if self.mode == Mode::Insert {
            len
        } else if len > 0 {
            len - 1
        } else {
            0
        };
    }

    fn to_row(&mut self, r: usize)
        requires
            old(self)@.wf(),
            r < old(self)@.lines.len(),
        ensures
            final(self)@ == old(self)@.to_row(r as int),
    {
        self.row = r;
        if self.mode == Mode::Insert {
            let l = self.lines[r].len();
            if self.col > l {
                self.col = l;
            }
        } else {
            self.clamp_col();
        }
    }

    fn down(&mut self)
        requires
            old(self)@.wf(),
        ensures
            final(self)@ == old(self)@.down(),
    {
        let r = if self.row < self.lines.len() - 1 {
            self.row + 1
        } else {
            self.lines.len() - 1
        };
        self.to_row(r);
    }

    fn up(&mut self)
        requires
            old(self)@.wf(),
        ensures
            final(self)@ == old(self)@.up(),
    {
        let r = if self.row > 0 {
            self.row - 1
        } else {
            0
        };
        self.to_row(r);
    }

    fn open_below(&mut self)
        requires
            old(self)@.wf(),
        ensures
            final(self)@ == old(self)@.open_below(),
    {
        self.enter_insert();
        // The row below exists as a position, since the row is within the
        // buffer's length.
        let count = self.lines.len();
        assert(self.row < count);
        self.row = self.row + 1;
        self.lines.insert(self.row, Vec::new());
        self.col = 0;
        proof {
            assert(lines_view(self.lines@) =~= lines_view(old(self).lines@).insert(
                self.row as int,
                Seq::<char>::empty(),
            ));
        }
    }

    fn open_above(&mut self)
        requires
            old(self)@.wf(),
        ensures
            final(self)@ == old(self)@.open_above(),
    {
        self.enter_insert();
        self.lines.insert(self.row, Vec::new());
        self.col = 0;
        proof {
            assert(lines_view(self.lines@) =~= lines_view(old(self).lines@).insert(
                self.row as int,
                Seq::<char>::empty(),
            ));
        }
    }

    fn cut_char(&mut self)
        requires
            old(self)@.wf(),
        ensures
            final(self)@ == old(self)@.cut_char(),
    {
        if self.col < self.line_len() {
            self.snapshot();
            let row = self.row;
            let col = self.col;
            self.lines[row].remove(col);
            proof {
                assert(lines_view(self.lines@) =~= lines_view(old(self).lines@).update(
                    row as int,
                    old(self).lines@[row as int]@.remove(col as int),
                ));
            }
            self.dirty = true;
            self.clamp_col();
        }
    }

    fn cut_to_end(&mut self)
        requires
            old(self)@.wf(),
        ensures
            final(self)@ == old(self)@.cut_to_end(),
    {
        if self.col < self.line_len() {
            self.snapshot();
            let row = self.row;
            let col = self.col;
            self.lines[row].truncate(col);
            proof {
                assert(lines_view(self.lines@) =~= lines_view(old(self).lines@).update(
                    row as int,
                    old(self).lines@[row as int]@.subrange(0, col as int),
                ));
            }
            self.dirty = true;
            self.clamp_col();
        }
    }

    fn normal_char(&mut self, c: char)
        requires
            old(self)@.wf(),
            old(self)@.mode == Mode::Normal,
        ensures
            final(self)@ == old(self)@.normal_plain(Key { code: KeyCode::Char(c), ctrl: false }),
    {
        let len = self.line_len();
        if c == 'd' || c == 'g' || c == 'Z' {
            self.pending = Some(c);
        } else if c == 'h' {
            self.left();
        } else if c == 'l' {
            self.right();
        } else if c == 'j' {
            self.down();
        } else if c == 'k' {
            self.up();
        } else if c == '0' {
            self.col = 0;
        } else if c == '$' {
            self.line_end();
        } else if c == 'G' {
            let r = self.lines.len() - 1;
            self.to_row(r);
        } else if c == 'w' {
            self.word_forward();
        } else if c == 'b' {
            self.word_back();
        } else if c == 'i' {
            self.enter_insert();
        } else if c == 'I' {
            self.col = exec_first_non_blank(self.lines[self.row].as_slice());
            self.enter_insert();
        } else if c == 'a' {
            self.col = if self.col < len {
                self.col + 1
            } else {
                len
            };
            self.enter_insert();
        } else if c == 'A' {
            self.col = len;
            self.enter_insert();
        } else if c == 'o' {
            self.open_below();
        } else if c == 'O' {
            self.open_above();
        } else if c == 'x' {
            self.cut_char();
        } else if c == 'D' {
            self.cut_to_end();
        } else if c == 'u' {
            self.undo_step();
        } else if c == ':' {
            self.mode = Mode::Command;
            self.cmd.clear();
        }
    }

    fn normal_plain(&mut self, k: Key)
        requires
            old(self)@.wf(),
            old(self)@.mode == Mode::Normal,
        ensures
            final(self)@ == old(self)@.normal_plain(k),
    {
        match k.code {
            KeyCode::Char(c) => self.normal_char(c),
            KeyCode::Left => self.left(),
            KeyCode::Right => self.right(),
            KeyCode::Down => self.down(),
            KeyCode::Up => self.up(),
            KeyCode::Home => {
                self.col = 0;
            },
            KeyCode::End => self.line_end(),
            _ => {},
        }
    }

    fn normal_key(&mut self, k: Key)
        requires
            old(self)@.wf(),
            old(self)@.mode == Mode::Normal,
        ensures
            final(self)@ == old(self)@.normal_key(k),
    {
        let p = self.pending;
        self.pending = None;
        match (p, k.code) {
            (Some('d'), KeyCode::Char('d')) => {
                self.delete_line();
                return ;
            },
            (Some('g'), KeyCode::Char('g')) => {
                self.row = 0;
                self.clamp_col();
                return ;
            },
            (Some('Z'), KeyCode::Char('Z')) => {
                self.saved = true;
                self.quit = true;
                return ;
            },
            _ => {},
        }
        self.normal_plain(k);
    }

    fn break_line(&mut self)
        requires
            old(self)@.wf(),
        ensures
            final(self)@ == old(self)@.break_line(),
    {
        let row = self.row;
        let col = self.col;
        let tail = self.lines[row].split_off(col);
        let count = self.lines.len();
        assert(row < count);
        self.lines.insert(row + 1, tail);
        proof {
            let l = old(self).lines@[row as int]@;
            assert(lines_view(self.lines@) =~= lines_view(old(self).lines@).update(
                row as int,
                l.subrange(0, col as int),
            ).insert(row + 1, l.subrange(col as int, l.len() as int)));
        }
        self.row = row + 1;
        self.col = 0;
        self.dirty = true;
    }

    fn backspace(&mut self)
        requires
            old(self)@.wf(),
        ensures
            final(self)@ == old(self)@.backspace(),
    {
        let row = self.row;
        let col = self.col;
        if col > 0 {
            self.col = col - 1;
            self.lines[row].remove(col - 1);
            proof {
                assert(lines_view(self.lines@) =~= lines_view(old(self).lines@).update(
                    row as int,
                    old(self).lines@[row as int]@.remove(col - 1),
                ));
            }
            self.dirty = true;
        } else if row > 0 {
            let mut line = self.lines.remove(row);
            self.row = row - 1;
            self.col = self.lines[row - 1].len();
            self.lines[row - 1].append(&mut line);
            proof {
                let ov = lines_view(old(self).lines@);
                assert(lines_view(self.lines@) =~= ov.remove(row as int).update(
                    row - 1,
                    ov[row - 1] + ov[row as int],
                ));
            }
            self.dirty = true;
        }
    }

    fn type_char(&mut self, c: char)
        requires
            old(self)@.wf(),
        ensures
            final(self)@ == old(self)@.type_text(seq![c]),
    {
        let row = self.row;
        let col = self.col;
        self.lines[row].insert(col, c);
        let l = self.lines[row].len();
        proof {
            let ol = old(self).lines@[row as int]@;
            assert(ol.insert(col as int, c) =~= ol.subrange(0, col as int) + seq![c]
                + ol.subrange(col as int, ol.len() as int));
            assert(lines_view(self.lines@) =~= lines_view(old(self).lines@).update(
                row as int,
                ol.insert(col as int, c),
            ));
        }
        self.col = col + 1;
        self.dirty = true;
    }

    fn type_tab(&mut self)
        requires
            old(self)@.wf(),
        ensures
            final(self)@ == old(self)@.type_text(seq![' ', ' ']),
    {
        let row = self.row;
        let col = self.col;
        self.lines[row].insert(col, ' ');
        let l1 = self.lines[row].len();
        self.lines[row].insert(col + 1, ' ');
        let l2 = self.lines[row].len();
        proof {
            let ol = old(self).lines@[row as int]@;
            assert(ol.insert(col as int, ' ').insert(col + 1, ' ') =~= ol.subrange(0, col as int)
                + seq![' ', ' '] + ol.subrange(col as int, ol.len() as int));
            assert(lines_view(self.lines@) =~= lines_view(old(self).lines@).update(
                row as int,
                ol.insert(col as int, ' ').insert(col + 1, ' '),
            ));
        }
        self.col = col + 2;
        self.dirty = true;
    }

    fn insert_key(&mut self, k: Key)
        requires
            old(self)@.wf(),
            old(self)@.mode == Mode::Insert,
        ensures
            final(self)@ == old(self)@.insert_key(k),
    {
        match k.code {
            KeyCode::Esc => {
                self.mode = Mode::Normal;
                self.left();
                self.clamp_col();
            },
            KeyCode::Enter => self.break_line(),
            KeyCode::Backspace => self.backspace(),
            KeyCode::Tab => self.type_tab(),
            KeyCode::Char(c) => self.type_char(c),
            KeyCode::Left => self.left(),
            KeyCode::Right => self.right(),
            KeyCode::Down => self.down(),
            KeyCode::Up => self.up(),
            KeyCode::Home => {
                self.col = 0;
            },
            KeyCode::End => self.line_end(),
            _ => {},
        }
    }

    fn command_key(&mut self, k: Key)
        requires
            old(self)@.wf(),
            old(self)@.mode == Mode::Command,
        ensures
            final(self)@ == old(self)@.command_key(k),
    {
        match k.code {
            KeyCode::Esc => {
                self.mode = Mode::Normal;
            },
            KeyCode::Backspace => {
                if self.cmd.len() > 0 {
                    self.cmd.pop();
                } else {
                    self.mode = Mode::Normal;
                }
            },
            KeyCode::Char(c) => {
                self.cmd.push(c);
            },
            KeyCode::Enter => {
                self.mode = Mode::Normal;
                let cmd = trim_chars(self.cmd.as_slice());
                self.cmd.clear();
                self.run_command(cmd);
            },
            _ => {},
        }
    }

    fn run_command(&mut self, c: Vec<char>)
        ensures
            final(self)@ == old(self)@.run_command(c@),
    {
        if is_word(&c, "w") || is_word(&c, "wq") || is_word(&c, "x") {
            self.saved = true;
            self.quit = true;
        } else if is_word(&c, "q") && self.dirty {
            self.status = Some(
                "unwritten changes \u{2014} :w to save and close, :q! to discard".to_owned(),
            );
        } else if is_word(&c, "q") || is_word(&c, "q!") {
            self.quit = true;
        } else {
            let mut msg = chars_of("not an editor command: ");
            let mut rest = c;
            msg.append(&mut rest);
            self.status = Some(string_of(msg.as_slice()));
        }
    }

    fn on_key(&mut self, k: Key)
        requires
            old(self)@.wf(),
        ensures
            final(self)@ == old(self)@.on_key(k),
    {
        self.status = None;
        if k.ctrl && k.code == KeyCode::Char('c') {
            self.quit = true;
            return ;
        }
        match self.mode {
            Mode::Normal => self.normal_key(k),
            Mode::Insert => self.insert_key(k),
            Mode::Command => self.command_key(k),
        }
    }

    fn scroll_into_view(&mut self, body_h: usize, text_w: usize)
        requires
            text_w > 0 || old(self).col < usize::MAX,
        ensures
            final(self)@ == old(self)@.scroll_into_view(body_h as int, text_w as int),
    {
        if self.row < self.scroll {
            self.scroll = self.row;
        }
        if body_h > 0 && self.row - self.scroll >= body_h {
            self.scroll = self.row - body_h + 1;
        }
        if self.col < self.hscroll {
            self.hscroll = self.col;
        }
        if self.col - self.hscroll >= text_w {
            self.hscroll = if text_w > 0 {
                self.col - text_w + 1
            } else {
                self.col + 1
            };
        }
    }

    fn undo_step(&mut self)
        requires
            old(self)@.wf(),
        ensures
            final(self)@ == old(self)@.undo_step(),
    {
        let ghost old_undo = undo_view(self.undo@);
        match self.undo.pop() {
            Some(e) => {
                let (lines, row, col) = e;
                proof {
                    assert(undo_view(self.undo@) == old_undo.drop_last());
                    assert(old_undo.last() == (lines_view(lines@), row as int, col as int));
                }
                self.lines = lines;
                self.row = if row < self.lines.len() - 1 {
                    row
                } else {
                    self.lines.len() - 1
                };
                self.col = col;
                self.dirty = true;
                self.clamp_col();
            },
            None => {
                self.status = Some("already at oldest change".to_owned());
            },
        }
    }
}

/// The editor: a buffer of lines, a cursor, a mode, and what the user asked
/// for when it closes.
pub struct Editor {
    st: State,
}

impl View for Editor {
    type V = EditorView;

    closed spec fn view(&self) -> EditorView {
        self.st@
    }
}

impl Editor {
    #[verifier::type_invariant]
    spec fn inv(&self) -> bool {
        self.st@.wf()
    }

    /// A new editor on `text`, named `name`, cursor at the top, nothing to
    /// undo. The buffer holds the text cut at its newlines, so even an empty
    /// text has a line to sit on, and writing it back gives `text` again.
    pub fn new(name: &str, text: &str, theme: Theme) -> (e: Editor)
        ensures
            e@ == (EditorView {
                name: name@,
                theme,
                lines: split_lines(text@),
                row: 0,
                col: 0,
                scroll: 0,
                hscroll: 0,
                mode: Mode::Normal,
                cmd: Seq::<char>::empty(),
                pending: None,
                undo: Seq::empty(),
                dirty: false,
                status: None,
                saved: false,
                quit: false,
            }),
            e@.text() == text@,
            e@.lines.len() >= 1,
    {
        let chars = chars_of(text);
        let lines = split_lines_exec(chars.as_slice());
        proof {
            lemma_split_lines_nonempty(text@);
            lemma_join_split(text@);
        }
        let st = State {
            name: name.to_owned(),
            theme,
            lines,
            row: 0,
            col: 0,
            scroll: 0,
            hscroll: 0,
            mode: Mode::Normal,
            cmd: Vec::new(),
            pending: None,
            undo: Vec::new(),
            dirty: false,
            status: None,
            saved: false,
            quit: false,
        };
        proof {
            assert(undo_view(st.undo@) =~= Seq::empty());
        }
        Editor { st }
    }

    /// The buffer as one text, its lines joined by newlines.
    pub fn text(&self) -> (res: String)
        ensures
            res@ == self@.text(),
    {
        let v = join_lines_exec(&self.st.lines);
        string_of(v.as_slice())
    }

    /// Performs one key press; see `EditorView::on_key`.
    pub fn on_key(&mut self, key: Key)
        ensures
            final(self)@ == old(self)@.on_key(key),
    {
        let mut st = self.take_state();
        proof {
            lemma_on_key_wf(st@, key);
        }
        st.on_key(key);
        *self = Editor { st };
    }

    /// Scrolls just enough to bring the cursor into a window `body_h` rows
    /// high and `text_w` columns wide.
    pub fn scroll_into_view(&mut self, body_h: usize, text_w: usize)
        requires
            text_w > 0 || old(self)@.col < usize::MAX,
        ensures
            final(self)@ == old(self)@.scroll_into_view(body_h as int, text_w as int),
    {
        let mut st = self.take_state();
        st.scroll_into_view(body_h, text_w);
        *self = Editor { st };
    }

    /// An editor on an empty buffer, standing in while the real one is
    /// worked on: one empty line, no name, cursor at the top, nothing to
    /// undo.
    fn blank() -> (e: Editor)
        ensures
            e@ == (EditorView {
                name: Seq::<char>::empty(),
                theme: Theme::Dark,
                lines: seq![Seq::<char>::empty()],
                row: 0,
                col: 0,
                scroll: 0,
                hscroll: 0,
                mode: Mode::Normal,
                cmd: Seq::<char>::empty(),
                pending: None,
                undo: Seq::empty(),
                dirty: false,
                status: None,
                saved: false,
                quit: false,
            }),
    {
        let mut lines: Vec<Vec<char>> = Vec::new();
        lines.push(Vec::new());
        let st = State {
            name: String::new(),
            theme: Theme::Dark,
            lines,
            row: 0,
            col: 0,
            scroll: 0,
            hscroll: 0,
            mode: Mode::Normal,
            cmd: Vec::new(),
            pending: None,
            undo: Vec::new(),
            dirty: false,
            status: None,
            saved: false,
            quit: false,
        };
        proof {
            assert(undo_view(st.undo@) =~= Seq::empty());
            assert(lines_view(st.lines@) =~= seq![Seq::<char>::empty()]);
        }
        Editor { st }
    }

    /// Hands out this editor's state, leaving a blank one in its place.
    fn take_state(&mut self) -> (st: State)
        ensures
            st@ == old(self)@,
            st@.wf(),
    {
        proof {
            use_type_invariant(&*self);
        }
        let mut other = Editor::blank();
        std::mem::swap(self, &mut other);
        let Editor { st } = other;
        st
    }

    pub fn name(&self) -> (res: &str)
        ensures
            res@ == self@.name,
    {
        self.st.name.as_str()
    }

    pub fn theme(&self) -> (res: Theme)
        ensures
            res == self@.theme,
    {
        self.st.theme
    }

    /// How many lines the buffer holds.
    pub fn line_count(&self) -> (res: usize)
        ensures
            res == self@.lines.len(),
    {
        self.st.lines.len()
    }

    /// Line `i` of the buffer.
    pub fn line(&self, i: usize) -> (res: &[char])
        requires
            i < self@.lines.len(),
        ensures
            res@ == self@.lines[i as int],
    {
        self.st.lines[i].as_slice()
    }

    pub fn row(&self) -> (res: usize)
        ensures
            res == self@.row,
    {
        self.st.row
    }

    pub fn col(&self) -> (res: usize)
        ensures
            res == self@.col,
    {
        self.st.col
    }

    pub fn scroll(&self) -> (res: usize)
        ensures
            res == self@.scroll,
    {
        self.st.scroll
    }

    pub fn hscroll(&self) -> (res: usize)
        ensures
            res == self@.hscroll,
    {
        self.st.hscroll
    }

    pub fn mode(&self) -> (res: Mode)
        ensures
            res == self@.mode,
    {
        self.st.mode
    }

    /// The command typed so far after `:`.
    pub fn cmd(&self) -> (res: &[char])
        ensures
            res@ == self@.cmd,
    {
        self.st.cmd.as_slice()
    }

    pub fn pending(&self) -> (res: Option<char>)
        ensures
            res == self@.pending,
    {
        self.st.pending
    }

    pub fn dirty(&self) -> (res: bool)
        ensures
            res == self@.dirty,
    {
        self.st.dirty
    }

    /// The message to show in place of the key hints, if any.
    pub fn status(&self) -> (res: Option<String>)
        ensures
            opt_view(res) == self@.status,
    {
        match &self.st.status {
            Some(m) => Some(m.clone()),
            None => None,
        }
    }

    /// Whether the user asked for the text to be written.
    pub fn saved(&self) -> (res: bool)
        ensures
            res == self@.saved,
    {
        self.st.saved
    }

    /// Whether the editor has been closed.
    pub fn quit(&self) -> (res: bool)
        ensures
            res == self@.quit,
    {
        self.st.quit
    }

    /// What closing the editor hands back: the text if it was written, or
    /// nothing if the edit was thrown away.
    pub fn outcome(&self) -> (res: Option<String>)
        ensures
            self@.saved ==> (res matches Some(t) && t@ == self@.text()),
            !self@.saved ==> res is None,
    {
        if self.st.saved {
            Some(self.text())
        } else {
            None
        }
    }
}

/// The right end of the editor's header: a star when there are unwritten
/// changes, the cursor's line and column counted from 1, and the mode.
pub open spec fn editor_header_right(s: EditorView) -> Seq<char> {
    (if s.dirty {
        "* "@
    } else {
        Seq::<char>::empty()
    }) + crate::text::decimal((s.row + 1) as nat) + ":"@ + crate::text::decimal((s.col + 1) as nat)
        + " \u{b7} "@ + if s.mode == Mode::Insert {
        "insert"@
    } else {
        "normal"@
    }
}

/// The foot of the editor outside command mode: the message, if any, else
/// the key hints.
pub open spec fn editor_hint(s: EditorView) -> Seq<char> {
    match s.status {
        Some(m) => m,
        None => "i insert \u{b7} esc normal \u{b7} dd cut line \u{b7} u undo \u{b7} :w save & close \u{b7} :q discard"@,
    }
}

/// The part of `line` shown from column `hscroll` in `text_w` columns.
pub open spec fn visible_part(line: Seq<char>, hscroll: int, text_w: int) -> Seq<char> {
    let a = if hscroll < line.len() {
        hscroll
    } else {
        line.len() as int
    };
    let b = if a + text_w < line.len() {
        a + text_w
    } else {
        line.len() as int
    };
    line.subrange(a, b)
}

fn append_str(v: &mut Vec<char>, s: &str)
    ensures
        final(v)@ == old(v)@ + s@,
{
    let mut w = chars_of(s);
    v.append(&mut w);
}

impl Editor {
    /// Fits the view to a screen `w` columns wide and `h` rows high (at least
    /// 4): the text gets all but the header, a blank row and the foot, and
    /// all but a column either side.
    pub fn fit(&mut self, w: usize, h: usize)
        ensures
            final(self)@ == old(self)@.scroll_into_view(
                (if h > 4 {
                    h
                } else {
                    4
                }) - 3,
                if w > 3 {
                    w - 2
                } else {
                    1
                },
            ),
    {
        let h = if h > 4 {
            h
        } else {
            4
        };
        let text_w = if w > 3 {
            w - 2
        } else {
            1
        };
        self.scroll_into_view(h - 3, text_w);
    }

    /// The right end of the header.
    pub fn header_right(&self) -> (res: String)
        ensures
            res@ == editor_header_right(self@),
    {
        proof {
            use_type_invariant(self);
        }
        let mut v: Vec<char> = Vec::new();
        if self.st.dirty {
            append_str(&mut v, "* ");
        }
        let row = self.st.row;
        let col = self.st.col;
        let mut r = crate::text::decimal_succ(row);
        v.append(&mut r);
        append_str(&mut v, ":");
        let mut c = crate::text::decimal_succ(col);
        v.append(&mut c);
        append_str(&mut v, " \u{b7} ");
        if self.st.mode == Mode::Insert {
            append_str(&mut v, "insert");
        } else {
            append_str(&mut v, "normal");
        }
        proof {
            assert(v@ =~= editor_header_right(self@));
        }
        string_of(v.as_slice())
    }

    /// The foot of the editor outside command mode.
    pub fn hint(&self) -> (res: String)
        ensures
            res@ == editor_hint(self@),
    {
        match &self.st.status {
            Some(m) => m.as_str().to_owned(),
            None => "i insert \u{b7} esc normal \u{b7} dd cut line \u{b7} u undo \u{b7} :w save & close \u{b7} :q discard".to_owned(),
        }
    }

    /// What shows of line `i` in a window `text_w` columns wide.
    pub fn visible(&self, i: usize, text_w: usize) -> (res: String)
        requires
            i < self@.lines.len(),
        ensures
            res@ == visible_part(self@.lines[i as int], self@.hscroll, text_w as int),
    {
        let line = self.st.lines[i].as_slice();
        let a = if self.st.hscroll < line.len() {
            self.st.hscroll
        } else {
            line.len()
        };
        let b = if text_w < line.len() - a {
            a + text_w
        } else {
            line.len()
        };
        string_of(slice_range(line, a, b).as_slice())
    }

    /// Where the cursor stands in the window: columns right of the first
    /// one shown, rows below the first one shown.
    pub fn cursor_offset(&self) -> (res: (usize, usize))
        requires
            self@.hscroll <= self@.col,
            self@.scroll <= self@.row,
        ensures
            res.0 == self@.col - self@.hscroll,
            res.1 == self@.row - self@.scroll,
    {
        (self.st.col - self.st.hscroll, self.st.row - self.st.scroll)
    }
}

proof fn lemma_join_cat(a: Seq<Seq<char>>, b: Seq<Seq<char>>)
    requires
        a.len() > 0,
        b.len() > 0,
    ensures
        join_lines(a + b) == join_lines(a) + seq!['\n'] + join_lines(b),
    decreases b.len(),
{
    if b.len() == 1 {
        assert((a + b).drop_last() =~= a);
        assert((a + b).last() == b[0]);
    } else {
        lemma_join_cat(a, b.drop_last());
        assert((a + b).drop_last() =~= a + b.drop_last());
        assert((a + b).last() == b.last());
        assert(join_lines(a + b) =~= join_lines(a) + seq!['\n'] + join_lines(b));
    }
}

proof fn lemma_join_cons(x: Seq<char>, b: Seq<Seq<char>>)
    ensures
        join_lines(seq![x] + b) == if b.len() == 0 {
            x
        } else {
            x + seq!['\n'] + join_lines(b)
        },
{
    if b.len() == 0 {
        assert(seq![x] + b =~= seq![x]);
    } else {
        lemma_join_cat(seq![x], b);
    }
}

/// Backspace at the start of a line in insert mode joins that line onto the
/// end of the line above: the line above keeps its text and is followed by
/// the text of the joined line, the cursor lands where they meet, and the
/// buffer's text is the old one with the newline before the line taken out.
pub proof fn law_backspace_joins_lines(s: EditorView, k: Key)
    requires
        s.wf(),
        s.mode == Mode::Insert,
        k.code == KeyCode::Backspace,
        s.row > 0,
        s.col == 0,
    ensures
        ({
            let n = s.on_key(k);
            let r = s.row;
            &&& n.lines.len() == s.lines.len() - 1
            &&& n.row == r - 1
            &&& n.col == s.lines[r - 1].len()
            &&& n.lines[r - 1] == s.lines[r - 1] + s.lines[r]
            &&& forall|i: int| 0 <= i < r - 1 ==> #[trigger] n.lines[i] == s.lines[i]
            &&& forall|i: int| r <= i < n.lines.len() ==> #[trigger] n.lines[i] == s.lines[i + 1]
            &&& s.text() == join_lines(s.lines.take(r)) + seq!['\n'] + join_lines(s.lines.skip(r))
            &&& n.text() == join_lines(s.lines.take(r)) + join_lines(s.lines.skip(r))
        }),
{
    let n = s.on_key(k);
    let r = s.row;
    let l = s.lines;
    let m = l[r - 1] + l[r];
    assert(n == EditorView { status: None, ..s }.backspace());
    assert(n.lines == l.remove(r).update(r - 1, m));
    let a = l.take(r - 1);
    let b = l.skip(r + 1);
    assert(l =~= l.take(r) + l.skip(r));
    lemma_join_cat(l.take(r), l.skip(r));
    assert(l.skip(r) =~= seq![l[r]] + b);
    lemma_join_cons(l[r], b);
    let q = join_lines(l.skip(r));
    lemma_join_cons(m, b);
    assert(join_lines(seq![m] + b) =~= l[r - 1] + q);
    if a.len() == 0 {
        assert(n.lines =~= seq![m] + b);
        assert(l.take(r) =~= seq![l[r - 1]]);
    } else {
        assert(n.lines =~= a + (seq![m] + b));
        lemma_join_cat(a, seq![m] + b);
        assert(l.take(r) =~= a + seq![l[r - 1]]);
        lemma_join_cat(a, seq![l[r - 1]]);
        assert(join_lines(seq![l[r - 1]]) == l[r - 1]);
        assert(join_lines(seq![m] + b) == l[r - 1] + q);
        assert(join_lines(n.lines) =~= join_lines(l.take(r)) + q);
    }
}

} // verus!
