//! The single-line editor at the foot of the screen that asks for a title,
//! a due date, a project name or a `:` command.

use vstd::prelude::*;

use crate::key::{Key, KeyCode};
use crate::text::{
    back_word, back_word_exec, back_ws, back_ws_exec, chars_of, lemma_back_word_bounds,
    lemma_back_ws_bounds, slice_range, string_of,
};

verus! {

/// What a key press did to the prompt.
#[derive(Debug, Clone, Copy, PartialEq, Eq, Structural)]
pub enum PromptStep {
    /// Still editing.
    Editing,
    /// Enter: the text is the answer.
    Submit,
    /// Esc or control-c: no answer.
    Cancel,
}

/// Where control-w cuts back to from `cur`: over the white space before
/// the cursor, then over the word before that.
pub open spec fn word_start(buf: Seq<char>, cur: int) -> int {
    back_word(buf, 0, back_ws(buf, 0, cur))
}

/// The text and cursor after a key press, and whether editing goes on.
pub open spec fn prompt_step(buf: Seq<char>, cur: int, k: Key) -> (Seq<char>, int, PromptStep) {
    match k.code {
        KeyCode::Enter => (buf, cur, PromptStep::Submit),
        KeyCode::Esc => (buf, cur, PromptStep::Cancel),
        KeyCode::Char(c) => if k.ctrl && c == 'c' {
            (buf, cur, PromptStep::Cancel)
        } else if k.ctrl && c == 'u' {
            (Seq::<char>::empty(), 0, PromptStep::Editing)
        } else if k.ctrl && c == 'w' {
            let i = word_start(buf, cur);
            (buf.subrange(0, i) + buf.subrange(cur, buf.len() as int), i, PromptStep::Editing)
        } else if k.ctrl && c == 'a' {
            (buf, 0, PromptStep::Editing)
        } else if k.ctrl && c == 'e' {
            (buf, buf.len() as int, PromptStep::Editing)
        } else {
            (buf.insert(cur, c), cur + 1, PromptStep::Editing)
        },
        KeyCode::Backspace => if cur > 0 {
            (buf.remove(cur - 1), cur - 1, PromptStep::Editing)
        } else {
            (buf, cur, PromptStep::Editing)
        },
        KeyCode::Delete => if cur < buf.len() {
            (buf.remove(cur), cur, PromptStep::Editing)
        } else {
            (buf, cur, PromptStep::Editing)
        },
        KeyCode::Left => (buf, if cur > 0 {
            cur - 1
        } else {
            0
        }, PromptStep::Editing),
        KeyCode::Right => (buf, if cur + 1 <= buf.len() {
            cur + 1
        } else {
            buf.len() as int
        }, PromptStep::Editing),
        KeyCode::Home => (buf, 0, PromptStep::Editing),
        KeyCode::End => (buf, buf.len() as int, PromptStep::Editing),
        _ => (buf, cur, PromptStep::Editing),
    }
}

/// The prompt line: what it asks, the text typed so far and the cursor in
/// it.
pub struct Prompt {
    prefix: String,
    buf: Vec<char>,
    cur: usize,
}

impl Prompt {
    #[verifier::type_invariant]
    spec fn cursor_in_text(self) -> bool {
        self.cur <= self.buf@.len()
    }

    /// The text typed so far.
    pub closed spec fn text_view(self) -> Seq<char> {
        self.buf@
    }

    /// Where the cursor stands in the text.
    pub closed spec fn cur_view(self) -> int {
        self.cur as int
    }

    /// What the prompt asks.
    pub closed spec fn prefix_view(self) -> Seq<char> {
        self.prefix@
    }

    /// A prompt asking `prefix`, holding `initial` with the cursor at its
    /// end.
    pub fn new(prefix: &str, initial: &str) -> (res: Prompt)
        ensures
            res.prefix_view() == prefix@,
            res.text_view() == initial@,
            res.cur_view() == initial@.len(),
    {
        let buf = chars_of(initial);
        let cur = buf.len();
        Prompt { prefix: prefix.to_owned(), buf, cur }
    }

    /// What the prompt asks.
    pub fn prefix(&self) -> (res: &str)
        ensures
            res@ == self.prefix_view(),
    {
        self.prefix.as_str()
    }

    /// The text typed so far.
    pub fn text(&self) -> (res: String)
        ensures
            res@ == self.text_view(),
    {
        string_of(self.buf.as_slice())
    }

    /// How many characters the text holds.
    pub fn len(&self) -> (res: usize)
        ensures
            res == self.text_view().len(),
    {
        self.buf.len()
    }

    /// Where the cursor stands: how many characters lie before it.
    pub fn cursor(&self) -> (res: usize)
        ensures
            res == self.cur_view(),
            res <= self.text_view().len(),
    {
        proof {
            use_type_invariant(self);
        }
        self.cur
    }

    /// Takes the text out, leaving the prompt empty.
    fn take_buf(&mut self) -> (res: Vec<char>)
        ensures
            res@ == old(self).text_view(),
            final(self).prefix_view() == old(self).prefix_view(),
    {
        self.cur = 0;
        let mut other: Vec<char> = Vec::new();
        std::mem::swap(&mut self.buf, &mut other);
        other
    }

    /// Puts `buf` back as the text, the cursor at `cur`.
    fn set(&mut self, buf: Vec<char>, cur: usize)
        requires
            cur <= buf@.len(),
        ensures
            final(self).text_view() == buf@,
            final(self).cur_view() == cur,
            final(self).prefix_view() == old(self).prefix_view(),
    {
        self.cur = 0;
        self.buf = buf;
        self.cur = cur;
    }

    /// Control-w: deletes back over any white space before the cursor, then
    /// over the word before it.
    pub fn delete_word(&mut self)
        ensures
            final(self).text_view() == old(self).text_view().subrange(
                0,
                word_start(old(self).text_view(), old(self).cur_view()),
            ) + old(self).text_view().subrange(
                old(self).cur_view(),
                old(self).text_view().len() as int,
            ),
            final(self).cur_view() == word_start(old(self).text_view(), old(self).cur_view()),
            final(self).prefix_view() == old(self).prefix_view(),
    {
        proof {
            use_type_invariant(&*self);
        }
        let cur = self.cur;
        let buf = self.take_buf();
        let j = back_ws_exec(buf.as_slice(), 0, cur);
        proof {
            lemma_back_ws_bounds(buf@, 0, cur as int);
        }
        let i = back_word_exec(buf.as_slice(), 0, j);
        proof {
            lemma_back_word_bounds(buf@, 0, j as int);
        }
        let mut head = slice_range(buf.as_slice(), 0, i);
        let mut tail = slice_range(buf.as_slice(), cur, buf.len());
        head.append(&mut tail);
        self.set(head, i);
    }

    /// What one key press does: enter answers with the text, esc and
    /// control-c give up, and the rest edit the text or move the cursor.
    pub fn on_key(&mut self, key: Key) -> (res: PromptStep)
        ensures
            (final(self).text_view(), final(self).cur_view(), res) == prompt_step(
                old(self).text_view(),
                old(self).cur_view(),
                key,
            ),
            final(self).prefix_view() == old(self).prefix_view(),
    {
        proof {
            use_type_invariant(&*self);
        }
        let cur = self.cur;
        match key.code {
            KeyCode::Enter => PromptStep::Submit,
            KeyCode::Esc => PromptStep::Cancel,
            KeyCode::Char(c) => {
                if key.ctrl && c == 'c' {
                    PromptStep::Cancel
                } else if key.ctrl && c == 'u' {
                    self.set(Vec::new(), 0);
                    PromptStep::Editing
                } else if key.ctrl && c == 'w' {
                    self.delete_word();
                    PromptStep::Editing
                } else if key.ctrl && c == 'a' {
                    let buf = self.take_buf();
                    self.set(buf, 0);
                    PromptStep::Editing
                } else if key.ctrl && c == 'e' {
                    let buf = self.take_buf();
                    let n = buf.len();
                    self.set(buf, n);
                    PromptStep::Editing
                } else {
                    let mut buf = self.take_buf();
                    buf.insert(cur, c);
                    let n = buf.len();
                    assert(cur < n);
                    self.set(buf, cur + 1);
                    PromptStep::Editing
                }
            },
            KeyCode::Backspace => {
                if cur > 0 {
                    let mut buf = self.take_buf();
                    buf.remove(cur - 1);
                    self.set(buf, cur - 1);
                }
                PromptStep::Editing
            },
            KeyCode::Delete => {
                if cur < self.buf.len() {
                    let mut buf = self.take_buf();
                    buf.remove(cur);
                    self.set(buf, cur);
                }
                PromptStep::Editing
            },
            KeyCode::Left => {
                if cur > 0 {
                    let buf = self.take_buf();
                    self.set(buf, cur - 1);
                }
                PromptStep::Editing
            },
            KeyCode::Right => {
                if cur < self.buf.len() {
                    let buf = self.take_buf();
                    self.set(buf, cur + 1);
                }
                PromptStep::Editing
            },
            KeyCode::Home => {
                let buf = self.take_buf();
                self.set(buf, 0);
                PromptStep::Editing
            },
            KeyCode::End => {
                let buf = self.take_buf();
                let n = buf.len();
                self.set(buf, n);
                PromptStep::Editing
            },
            _ => PromptStep::Editing,
        }
    }
}

} // verus!
