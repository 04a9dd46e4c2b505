//! The main screen's decisions: what each key does to the list, the
//! history and the projects, what it asks the user, and what has to be
//! written out afterwards. Drawing, reading keys and the files themselves
//! are left to the caller, who performs the effect each step returns.

use vstd::prelude::*;

use crate::config::{Config, Sort, Theme};
use crate::date::{parse_due_from, parse_due_spec, spec_display, Date};
use crate::key::{Key, KeyCode};
use crate::layout::{truncate, truncated, wrapped};
use crate::model::{
    filed, id_unused, insertion_sorted, order_of, revived, swept, swept_history, unticked, Order,
    Store, Todo,
};
use crate::project::{project_id_unused, Project, Projects};
use crate::stamp::Stamp;
use crate::text::{chars_of, decimal, decimal_chars, string_of, trim, trim_chars};

verus! {

/// The three pages of the main screen.
#[derive(Debug, Clone, Copy, PartialEq, Eq, Structural)]
pub enum Page {
    List,
    Projects,
    History,
}

/// What the prompt line is asked for.
#[derive(Debug, Clone, Copy, PartialEq, Eq, Structural)]
pub enum Ask {
    /// The `:` line.
    Command,
    NewProject,
    RenameProject,
    NewTodo,
    EditTitle,
    EditDetails,
    EditDue,
}

/// What the caller has to do once a step is decided.
#[derive(Debug, Clone, Copy, PartialEq, Eq, Structural)]
pub enum Effect {
    Nothing,
    /// Run the prompt line for this question and hand its answer back.
    Ask(Ask),
    /// Open the selected project's log in the editor and hand what it
    /// returns back.
    OpenLog,
    /// Write the todos to their file.
    SaveStore,
    /// Write the projects to their file.
    SaveProjects,
    /// Write the settings to the config file.
    SaveConfig,
}

/// The screen's state as plain values.
pub struct AppState {
    pub todos: Seq<Todo>,
    pub history: Seq<Todo>,
    pub last_id: u64,
    pub store_path: Seq<char>,
    pub projects: Seq<Project>,
    pub last_project: u64,
    pub projects_path: Seq<char>,
    pub theme: Theme,
    pub sort: Sort,
    pub phrase: Seq<char>,
    pub page: Page,
    pub sel: int,
    pub scroll: int,
    pub status: Option<Seq<char>>,
    pub trash: Option<Todo>,
    pub trash_project: Option<Project>,
    pub help: bool,
    pub quit: bool,
}

/// Position of the first todo in `s`, from `q` on, with handle `id`.
pub open spec fn todo_pos(s: Seq<Todo>, id: u64, q: int) -> Option<int>
    decreases s.len() - q,
{
    if 0 <= q < s.len() {
        if s[q].id == id {
            Some(q)
        } else {
            todo_pos(s, id, q + 1)
        }
    } else {
        None
    }
}

/// Position of the first project in `s`, from `q` on, with handle `id`.
pub open spec fn project_pos(s: Seq<Project>, id: u64, q: int) -> Option<int>
    decreases s.len() - q,
{
    if 0 <= q < s.len() {
        if s[q].id == id {
            Some(q)
        } else {
            project_pos(s, id, q + 1)
        }
    } else {
        None
    }
}

/// `s` in quotes, cut to 40 columns.
pub open spec fn quoted(s: Seq<char>) -> Seq<char> {
    "\u{201c}"@ + truncated(s, 40) + "\u{201d}"@
}

pub open spec fn filed_msg(title: Seq<char>) -> Seq<char> {
    quoted(title) + " filed to history"@
}

pub open spec fn restored_msg(title: Seq<char>) -> Seq<char> {
    quoted(title) + " restored to the list, unticked"@
}

pub open spec fn deleted_msg(name: Seq<char>) -> Seq<char> {
    "deleted "@ + quoted(name) + " \u{2014} u to undo"@
}

pub open spec fn logged_msg(name: Seq<char>) -> Seq<char> {
    quoted(name) + " logged"@
}

pub open spec fn sorting_msg(sort: Sort) -> Seq<char> {
    "sorting by "@ + sort.spec_name()
}

pub open spec fn unknown_command_msg(phrase: Seq<char>) -> Seq<char> {
    "unknown command \u{2014} try :"@ + phrase
}

pub open spec fn swept_msg(n: nat) -> Seq<char> {
    if n == 0 {
        "nothing ticked off to sweep"@
    } else if n == 1 {
        "1 todo swept to history"@
    } else {
        decimal(n) + " todos swept to history"@
    }
}

pub open spec fn save_failed_msg(err: Seq<char>) -> Seq<char> {
    "could not save: "@ + err
}

pub open spec fn no_details_msg() -> Seq<char> {
    "no details \u{2014} press d to add some"@
}

pub open spec fn nothing_to_undo_msg() -> Seq<char> {
    "nothing to undo"@
}

pub open spec fn read_only_msg() -> Seq<char> {
    "history is read-only \u{2014} a restores, h goes back"@
}

pub open spec fn due_help_msg() -> Seq<char> {
    "try: today, tomorrow, +3d, 2w, 12-25, 2026-12-25, or - to clear"@
}

/// The code of `c` with an ASCII capital made small.
pub open spec fn ascii_lower(c: char) -> u32 {
    if 'A' <= c <= 'Z' {
        ((c as u32) + 32) as u32
    } else {
        c as u32
    }
}

/// Whether `a` and `b` are equal when ASCII letters are compared without
/// case, as `str::eq_ignore_ascii_case` decides.
pub open spec fn eq_ignore_ascii_case(a: Seq<char>, b: Seq<char>) -> bool {
    a.len() == b.len() && forall|i: int| 0 <= i < a.len() ==> ascii_lower(a[i]) == ascii_lower(b[i])
}

/// A new todo as the list makes it: handle `id`, titled `title`, made at
/// `now`, unticked, undated, without details, collapsed.
pub open spec fn fresh_todo(t: Todo, id: u64, title: Seq<char>, now: Stamp) -> bool {
    &&& t.id == id
    &&& !t.done
    &&& t.created == now
    &&& t.due is None
    &&& t.title@ == title
    &&& t.details@ == Seq::<char>::empty()
    &&& t.completed is None
    &&& t.archived is None
    &&& !t.expanded
}

/// A new project: handle `id`, called `name`, with an empty log, made at
/// `now`.
pub open spec fn fresh_project(p: Project, id: u64, name: Seq<char>, now: Stamp) -> bool {
    &&& p.id == id
    &&& p.name@ == name
    &&& p.log@ == Seq::<char>::empty()
    &&& p.updated == now
}

/// The prompt's question for `ask`.
pub open spec fn ask_prefix(ask: Ask) -> Seq<char> {
    match ask {
        Ask::Command => ":"@,
        Ask::NewProject | Ask::RenameProject => "project\u{25b8} "@,
        Ask::NewTodo | Ask::EditTitle => "title\u{25b8} "@,
        Ask::EditDetails => "details\u{25b8} "@,
        Ask::EditDue => "due\u{25b8} "@,
    }
}

impl AppState {
    /// How many rows the page lists.
    pub open spec fn len(self) -> int {
        match self.page {
            Page::Projects => self.projects.len() as int,
            Page::History => self.history.len() as int,
            Page::List => self.todos.len() as int,
        }
    }

    /// The todos behind the page; the list on the projects page.
    pub open spec fn items(self) -> Seq<Todo> {
        match self.page {
            Page::History => self.history,
            _ => self.todos,
        }
    }

    pub open spec fn with_status(self, m: Seq<char>) -> AppState {
        AppState { status: Some(m), ..self }
    }

    /// The last row of the page, or 0 when it is empty.
    pub open spec fn last_row(self) -> int {
        if self.len() == 0 {
            0
        } else {
            self.len() - 1
        }
    }

    /// One row down, or up, staying on the page.
    pub open spec fn move_sel(self, down: bool) -> AppState {
        if self.len() == 0 {
            self
        } else {
            let next = if down {
                self.sel + 1
            } else {
                self.sel - 1
            };
            AppState {
                sel: if next < 0 {
                    0
                } else if next > self.len() - 1 {
                    self.len() - 1
                } else {
                    next
                },
                ..self
            }
        }
    }

    /// The selection pulled back onto the page when it shrank.
    pub open spec fn clamp_sel(self) -> AppState {
        AppState {
            sel: if self.sel < self.last_row() {
                self.sel
            } else {
                self.last_row()
            },
            ..self
        }
    }

    /// Coming to another page starts at its top.
    pub open spec fn go(self, page: Page) -> AppState {
        if self.page == page {
            self
        } else {
            AppState { page, sel: 0, scroll: 0, ..self }
        }
    }

    /// The list re-sorted, the selection following the todo with handle
    /// `id` wherever it went.
    pub open spec fn resort_keeping(self, id: u64) -> AppState {
        let todos = insertion_sorted(self.todos, order_of(self.sort));
        AppState {
            todos,
            sel: match todo_pos(todos, id, 0) {
                Some(i) => i,
                None => self.sel,
            },
            ..self
        }
    }

    /// Enter on a todo: its details open or close; a todo without details
    /// says so instead.
    pub open spec fn toggle_expand(self) -> AppState {
        let items = self.items();
        if 0 <= self.sel < items.len() {
            let t = items[self.sel];
            if t.details@.len() == 0 {
                self.with_status(no_details_msg())
            } else {
                let t2 = Todo { expanded: !t.expanded, ..t };
                if self.page == Page::History {
                    AppState { history: self.history.update(self.sel, t2), ..self }
                } else {
                    AppState { todos: self.todos.update(self.sel, t2), ..self }
                }
            }
        } else {
            self
        }
    }

    /// Space: the selected todo is ticked, and stamped now, or unticked.
    pub open spec fn toggle_done(self, now: Stamp) -> (AppState, Effect) {
        if 0 <= self.sel < self.todos.len() {
            let t = self.todos[self.sel];
            let t2 = Todo {
                done: !t.done,
                completed: if !t.done {
                    Some(now)
                } else {
                    None
                },
                ..t
            };
            (AppState { todos: self.todos.update(self.sel, t2), ..self }, Effect::SaveStore)
        } else {
            (self, Effect::Nothing)
        }
    }

    /// `a`: files the selected todo away, or on the history page brings it
    /// back to the list, unticked.
    pub open spec fn file_or_restore(self, now: Stamp) -> (AppState, Effect) {
        match self.page {
            Page::Projects => (self, Effect::Nothing),
            Page::List => if 0 <= self.sel < self.todos.len() {
                let t = self.todos[self.sel];
                (
                    AppState {
                        todos: self.todos.remove(self.sel),
                        history: insertion_sorted(
                            self.history.push(filed(t, now)),
                            Order::NewestFiled,
                        ),
                        ..self
                    }.clamp_sel().with_status(filed_msg(t.title@)),
                    Effect::SaveStore,
                )
            } else {
                (self, Effect::Nothing)
            },
            Page::History => if 0 <= self.sel < self.history.len() {
                let t = self.history[self.sel];
                (
                    AppState {
                        history: self.history.remove(self.sel),
                        todos: insertion_sorted(self.todos.push(revived(t)), order_of(self.sort)),
                        ..self
                    }.clamp_sel().with_status(restored_msg(t.title@)),
                    Effect::SaveStore,
                )
            } else {
                (self, Effect::Nothing)
            },
        }
    }

    /// `x`: the selected row goes, kept aside for one undo.
    pub open spec fn delete(self) -> (AppState, Effect) {
        if self.page == Page::Projects {
            if 0 <= self.sel < self.projects.len() {
                let p = self.projects[self.sel];
                (
                    AppState {
                        projects: self.projects.remove(self.sel),
                        trash_project: Some(p),
                        ..self.with_status(deleted_msg(p.name@))
                    }.clamp_sel(),
                    Effect::SaveProjects,
                )
            } else {
                (self, Effect::Nothing)
            }
        } else if 0 <= self.sel < self.items().len() {
            let t = self.items()[self.sel];
            let s = if self.page == Page::History {
                AppState { history: self.history.remove(self.sel), ..self }
            } else {
                AppState { todos: self.todos.remove(self.sel), ..self }
            };
            (
                AppState { trash: Some(t), ..s.with_status(deleted_msg(t.title@)) }.clamp_sel(),
                Effect::SaveStore,
            )
        } else {
            (self, Effect::Nothing)
        }
    }

    /// `u`: the last deleted row comes back. A todo remembers which side it
    /// came from, so it goes back there even if the page has changed.
    pub open spec fn undo(self) -> (AppState, Effect) {
        if self.page == Page::Projects {
            match self.trash_project {
                None => (self.with_status(nothing_to_undo_msg()), Effect::Nothing),
                Some(p) => {
                    let ps = self.projects.push(p);
                    (
                        AppState {
                            projects: ps,
                            trash_project: None,
                            sel: match project_pos(ps, p.id, 0) {
                                Some(i) => i,
                                None => self.sel,
                            },
                            ..self
                        },
                        Effect::SaveProjects,
                    )
                },
            }
        } else {
            match self.trash {
                None => (self.with_status(nothing_to_undo_msg()), Effect::Nothing),
                Some(t) => {
                    let s = AppState { trash: None, ..self };
                    if t.archived is Some {
                        let h = insertion_sorted(s.history.push(t), Order::NewestFiled);
                        (
                            AppState {
                                history: h,
                                sel: if s.page == Page::History && todo_pos(h, t.id, 0) is Some {
                                    todo_pos(h, t.id, 0)->0
                                } else {
                                    s.sel
                                },
                                ..s
                            },
                            Effect::SaveStore,
                        )
                    } else {
                        (AppState { todos: s.todos.push(t), ..s }.resort_keeping(t.id), Effect::SaveStore)
                    }
                },
            }
        }
    }

    /// `s`: the next order, the selection staying on the same todo.
    pub open spec fn cycle_sort(self) -> (AppState, Effect) {
        let sort = self.sort.next_spec();
        let todos = insertion_sorted(self.todos, order_of(sort));
        let sel = if 0 <= self.sel < self.todos.len() {
            match todo_pos(todos, self.todos[self.sel].id, 0) {
                Some(i) => i,
                None => self.sel,
            }
        } else {
            self.sel
        };
        (
            AppState { sort, todos, sel, ..self }.with_status(sorting_msg(sort)),
            Effect::SaveConfig,
        )
    }

    /// `m`: the other theme.
    pub open spec fn toggle_theme(self) -> (AppState, Effect) {
        (AppState { theme: self.theme.toggle_spec(), ..self }, Effect::SaveConfig)
    }

    /// Keys that mean something only on the current page.
    pub open spec fn page_key(self, k: Key, now: Stamp) -> (AppState, Effect) {
        if self.page == Page::Projects {
            if k.code == KeyCode::Char('o') {
                (self, Effect::Ask(Ask::NewProject))
            } else if k.code == KeyCode::Char('e') && 0 <= self.sel < self.projects.len() {
                (self, Effect::Ask(Ask::RenameProject))
            } else {
                (self, Effect::Nothing)
            }
        } else if k.code == KeyCode::Char('a') {
            self.file_or_restore(now)
        } else if self.page == Page::History {
            (self.with_status(read_only_msg()), Effect::Nothing)
        } else if k.code == KeyCode::Char(' ') {
            self.toggle_done(now)
        } else if k.code == KeyCode::Char('o') {
            (self, Effect::Ask(Ask::NewTodo))
        } else if k.code == KeyCode::Char('s') {
            self.cycle_sort()
        } else if 0 <= self.sel < self.todos.len() && k.code == KeyCode::Char('e') {
            (self, Effect::Ask(Ask::EditTitle))
        } else if 0 <= self.sel < self.todos.len() && k.code == KeyCode::Char('d') {
            (self, Effect::Ask(Ask::EditDetails))
        } else if 0 <= self.sel < self.todos.len() && k.code == KeyCode::Char('t') {
            (self, Effect::Ask(Ask::EditDue))
        } else {
            (self, Effect::Nothing)
        }
    }

    /// Keys that mean the same thing on every page, then the page's own.
    pub open spec fn common_key(self, k: Key, now: Stamp) -> (AppState, Effect) {
        let c = k.code;
        if c == KeyCode::Char('q') {
            (AppState { quit: true, ..self }, Effect::Nothing)
        } else if c == KeyCode::Char('?') {
            (AppState { help: true, ..self }, Effect::Nothing)
        } else if c == KeyCode::Char(':') {
            (self, Effect::Ask(Ask::Command))
        } else if c == KeyCode::Char('j') || c == KeyCode::Down {
            (self.move_sel(true), Effect::Nothing)
        } else if c == KeyCode::Char('k') || c == KeyCode::Up {
            (self.move_sel(false), Effect::Nothing)
        } else if c == KeyCode::Char('g') || c == KeyCode::Home {
            (AppState { sel: 0, ..self }, Effect::Nothing)
        } else if c == KeyCode::Char('G') || c == KeyCode::End {
            (AppState { sel: self.last_row(), ..self }, Effect::Nothing)
        } else if c == KeyCode::Char('1') {
            (self.go(Page::List), Effect::Nothing)
        } else if c == KeyCode::Char('2') {
            (self.go(Page::Projects), Effect::Nothing)
        } else if c == KeyCode::Enter || c == KeyCode::Tab {
            if self.page == Page::Projects {
                if 0 <= self.sel < self.projects.len() {
                    (self, Effect::OpenLog)
                } else {
                    (self, Effect::Nothing)
                }
            } else {
                (self.toggle_expand(), Effect::Nothing)
            }
        } else if c == KeyCode::Char('h') {
            (
                self.go(
                    if self.page == Page::History {
                        Page::List
                    } else {
                        Page::History
                    },
                ),
                Effect::Nothing,
            )
        } else if c == KeyCode::Esc && self.page != Page::List {
            (self.go(Page::List), Effect::Nothing)
        } else if c == KeyCode::Char('m') {
            self.toggle_theme()
        } else if c == KeyCode::Char('x') {
            self.delete()
        } else if c == KeyCode::Char('u') {
            self.undo()
        } else {
            self.page_key(k, now)
        }
    }

    /// What the prompt for `ask` starts out holding: the current value
    /// being edited, or nothing.
    pub open spec fn ask_initial(self, ask: Ask) -> Seq<char> {
        match ask {
            Ask::RenameProject => if 0 <= self.sel < self.projects.len() {
                self.projects[self.sel].name@
            } else {
                Seq::<char>::empty()
            },
            Ask::EditTitle => if 0 <= self.sel < self.todos.len() {
                self.todos[self.sel].title@
            } else {
                Seq::<char>::empty()
            },
            Ask::EditDetails => if 0 <= self.sel < self.todos.len() {
                self.todos[self.sel].details@
            } else {
                Seq::<char>::empty()
            },
            Ask::EditDue => if 0 <= self.sel < self.todos.len() {
                match self.todos[self.sel].due {
                    Some(d) => spec_display(d@),
                    None => Seq::<char>::empty(),
                }
            } else {
                Seq::<char>::empty()
            },
            _ => Seq::<char>::empty(),
        }
    }

    /// One key press, at `now`. The status line is cleared first; control-c
    /// quits from anywhere, and while help is showing any key only dismisses
    /// it, so it never traps the user.
    pub open spec fn key(self, k: Key, now: Stamp) -> (AppState, Effect) {
        let s = AppState { status: None, ..self };
        if k.ctrl && k.code == KeyCode::Char('c') {
            (AppState { quit: true, ..s }, Effect::Nothing)
        } else if s.help {
            (AppState { help: false, ..s }, Effect::Nothing)
        } else {
            s.common_key(k, now)
        }
    }

    /// The sweep: every ticked todo goes into history at `now`.
    pub open spec fn sweep(self, now: Stamp) -> (AppState, Effect) {
        let n = swept(self.todos, now).len();
        (
            AppState {
                todos: unticked(self.todos),
                history: swept_history(self.history, self.todos, now),
                ..self
            }.clamp_sel().with_status(swept_msg(n)),
            if n > 0 {
                Effect::SaveStore
            } else {
                Effect::Nothing
            },
        )
    }

    /// What the `:` line does with `input`, trimmed: `q` or `quit` quits,
    /// the sweep phrase sweeps, and anything else is unknown.
    pub open spec fn command(self, input: Seq<char>, now: Stamp) -> (AppState, Effect) {
        let i = trim(input);
        if i.len() == 0 {
            (self, Effect::Nothing)
        } else if eq_ignore_ascii_case(i, "q"@) || eq_ignore_ascii_case(i, "quit"@) {
            (AppState { quit: true, ..self }, Effect::Nothing)
        } else if eq_ignore_ascii_case(i, trim(self.phrase)) {
            self.sweep(now)
        } else {
            (self.with_status(unknown_command_msg(self.phrase)), Effect::Nothing)
        }
    }

    /// Whether `next` and `eff` are what answering `ask` with `input` at
    /// `now`, on day `today`, leads to. An answer of `None` means the prompt
    /// was given up, which leaves everything as it was.
    pub open spec fn answered(
        self,
        ask: Ask,
        input: Option<Seq<char>>,
        now: Stamp,
        today: int,
        next: AppState,
        eff: Effect,
    ) -> bool {
        match input {
            None => next == self && eff == Effect::Nothing,
            Some(i) => {
                let text = trim(i);
                match ask {
                    Ask::Command => (next, eff) == self.command(i, now),
                    Ask::NewProject => if text.len() == 0 {
                        next == self && eff == Effect::Nothing
                    } else {
                        exists|p: Project|
                            #![trigger fresh_project(p, (self.last_project + 1) as u64, text, now)]
                            fresh_project(p, (self.last_project + 1) as u64, text, now) && {
                                let ps = self.projects.push(p);
                                next == AppState {
                                    projects: ps,
                                    last_project: (self.last_project + 1) as u64,
                                    sel: match project_pos(ps, p.id, 0) {
                                        Some(k) => k,
                                        None => self.sel,
                                    },
                                    ..self
                                }
                            }
                        && eff == Effect::SaveProjects
                    },
                    Ask::RenameProject => if text.len() == 0 || !(0 <= self.sel
                        < self.projects.len()) {
                        next == self && eff == Effect::Nothing
                    } else {
                        let p = self.projects[self.sel];
                        exists|q: Project|
                            #![trigger self.projects.update(self.sel, q)]
                            q.id == p.id && q.log == p.log && q.updated == p.updated && q.name@
                                == text && next == AppState {
                                projects: self.projects.update(self.sel, q),
                                ..self
                            }
                        && eff == Effect::SaveProjects
                    },
                    Ask::NewTodo => if text.len() == 0 {
                        next == self && eff == Effect::Nothing
                    } else {
                        exists|t: Todo|
                            #![trigger fresh_todo(t, (self.last_id + 1) as u64, text, now)]
                            fresh_todo(t, (self.last_id + 1) as u64, text, now) && next
                                == AppState {
                                todos: self.todos.push(t),
                                last_id: (self.last_id + 1) as u64,
                                ..self
                            }.resort_keeping(t.id)
                        && eff == Effect::SaveStore
                    },
                    Ask::EditTitle => if text.len() == 0 || !(0 <= self.sel < self.todos.len()) {
                        next == self && eff == Effect::Nothing
                    } else {
                        let t = self.todos[self.sel];
                        exists|u: Todo|
                            #![trigger self.todos.update(self.sel, u)]
                            u == Todo { title: u.title, ..t } && u.title@ == text && next
                                == AppState {
                                todos: self.todos.update(self.sel, u),
                                ..self
                            }.resort_keeping(t.id)
                        && eff == Effect::SaveStore
                    },
                    Ask::EditDetails => if !(0 <= self.sel < self.todos.len()) {
                        next == self && eff == Effect::Nothing
                    } else {
                        let t = self.todos[self.sel];
                        exists|u: Todo|
                            #![trigger self.todos.update(self.sel, u)]
                            u == Todo { details: u.details, expanded: text.len() > 0, ..t }
                                && u.details@ == text && next == AppState {
                                todos: self.todos.update(self.sel, u),
                                ..self
                            }
                        && eff == Effect::SaveStore
                    },
                    Ask::EditDue => if !(0 <= self.sel < self.todos.len()) {
                        next == self && eff == Effect::Nothing
                    } else {
                        match parse_due_spec(i, today) {
                            Err(_) => next == self.with_status(due_help_msg()) && eff
                                == Effect::Nothing,
                            Ok(d) => {
                                let t = self.todos[self.sel];
                                exists|u: Todo|
                                    #![trigger self.todos.update(self.sel, u)]
                                    u == Todo { due: u.due, ..t } && (match u.due {
                                        Some(x) => d == Some(x@),
                                        None => d is None,
                                    }) && next == AppState {
                                        todos: self.todos.update(self.sel, u),
                                        ..self
                                    }.resort_keeping(t.id) && eff == Effect::SaveStore
                            },
                        }
                    },
                }
            },
        }
    }

    /// What the editor's answer does to the selected project: a log that
    /// was written and differs from the old one replaces it, stamped `now`.
    /// Opening and closing with no real change leaves the project looking
    /// as it did.
    pub open spec fn logged(self, text: Option<String>, now: Stamp) -> (AppState, Effect) {
        match text {
            None => (self, Effect::Nothing),
            Some(log) => if 0 <= self.sel < self.projects.len() && self.projects[self.sel].log@
                != log@ {
                let p = self.projects[self.sel];
                (
                    AppState {
                        projects: self.projects.update(self.sel, Project { log, updated: now, ..p }),
                        ..self
                    }.with_status(logged_msg(p.name@)),
                    Effect::SaveProjects,
                )
            } else {
                (self, Effect::Nothing)
            },
        }
    }
}

pub open spec fn opt_text(s: Option<String>) -> Option<Seq<char>> {
    match s {
        Some(t) => Some(t@),
        None => None,
    }
}

proof fn lemma_todo_pos(s: Seq<Todo>, id: u64, i: int, q: int)
    requires
        0 <= q <= i < s.len(),
        s[i].id == id,
        forall|k: int| q <= k < i ==> (#[trigger] s[k]).id != id,
    ensures
        todo_pos(s, id, q) == Some(i),
    decreases i - q,
{
    if q < i {
        lemma_todo_pos(s, id, i, q + 1);
    }
}

proof fn lemma_todo_pos_none(s: Seq<Todo>, id: u64, q: int)
    requires
        0 <= q <= s.len(),
        forall|k: int| q <= k < s.len() ==> (#[trigger] s[k]).id != id,
    ensures
        todo_pos(s, id, q) is None,
    decreases s.len() - q,
{
    if q < s.len() {
        lemma_todo_pos_none(s, id, q + 1);
    }
}

/// What `Store::index_of` finds is the first position with the handle.
proof fn lemma_index_of(s: Seq<Todo>, id: u64, r: Option<usize>)
    requires
        r matches Some(i) ==> i < s.len() && s[i as int].id == id && id_unused(
            s.subrange(0, i as int),
            id,
        ),
        r is None ==> id_unused(s, id),
    ensures
        todo_pos(s, id, 0) == match r {
            Some(i) => Some(i as int),
            None => None,
        },
{
    match r {
        Some(i) => {
            assert forall|k: int| 0 <= k < i implies (#[trigger] s[k]).id != id by {
                assert(s.subrange(0, i as int)[k] == s[k]);
            }
            lemma_todo_pos(s, id, i as int, 0);
        },
        None => {
            lemma_todo_pos_none(s, id, 0);
        },
    }
}

proof fn lemma_project_pos(s: Seq<Project>, id: u64, i: int, q: int)
    requires
        0 <= q <= i < s.len(),
        s[i].id == id,
        forall|k: int| q <= k < i ==> (#[trigger] s[k]).id != id,
    ensures
        project_pos(s, id, q) == Some(i),
    decreases i - q,
{
    if q < i {
        lemma_project_pos(s, id, i, q + 1);
    }
}

proof fn lemma_project_pos_none(s: Seq<Project>, id: u64, q: int)
    requires
        0 <= q <= s.len(),
        forall|k: int| q <= k < s.len() ==> (#[trigger] s[k]).id != id,
    ensures
        project_pos(s, id, q) is None,
    decreases s.len() - q,
{
    if q < s.len() {
        lemma_project_pos_none(s, id, q + 1);
    }
}

proof fn lemma_project_index_of(s: Seq<Project>, id: u64, r: Option<usize>)
    requires
        r matches Some(i) ==> i < s.len() && s[i as int].id == id && project_id_unused(
            s.subrange(0, i as int),
            id,
        ),
        r is None ==> project_id_unused(s, id),
    ensures
        project_pos(s, id, 0) == match r {
            Some(i) => Some(i as int),
            None => None,
        },
{
    match r {
        Some(i) => {
            assert forall|k: int| 0 <= k < i implies (#[trigger] s[k]).id != id by {
                assert(s.subrange(0, i as int)[k] == s[k]);
            }
            lemma_project_pos(s, id, i as int, 0);
        },
        None => {
            lemma_project_pos_none(s, id, 0);
        },
    }
}

/// `a` followed by `b`.
fn cat(a: &str, b: &str) -> (res: String)
    ensures
        res@ == a@ + b@,
{
    let mut v = chars_of(a);
    let mut w = chars_of(b);
    v.append(&mut w);
    string_of(v.as_slice())
}

/// `s` in quotes, cut to 40 columns.
fn quote(s: &str) -> (res: String)
    ensures
        res@ == quoted(s@),
{
    let t = truncate(s, 40);
    let a = cat("\u{201c}", t.as_str());
    cat(a.as_str(), "\u{201d}")
}

fn ascii_lower_exec(c: char) -> (res: u32)
    ensures
        res == ascii_lower(c),
{
    if 'A' <= c && c <= 'Z' {
        (c as u32) + 32
    } else {
        c as u32
    }
}

/// `str::eq_ignore_ascii_case` on characters.
fn eq_ignore_case_exec(a: &[char], b: &[char]) -> (res: bool)
    ensures
        res == eq_ignore_ascii_case(a@, b@),
{
    if a.len() != b.len() {
        return false;
    }
    let mut i: usize = 0;
    while i < a.len()
        invariant
            a@.len() == b@.len(),
            i <= a@.len(),
            forall|k: int| 0 <= k < i ==> ascii_lower(a@[k]) == ascii_lower(b@[k]),
        decreases a@.len() - i,
    {
        if ascii_lower_exec(a[i]) != ascii_lower_exec(b[i]) {
            return false;
        }
        i += 1;
    }
    true
}

/// The main screen: the todos, the projects, the settings, and where the
/// user is.
pub struct App {
    pub store: Store,
    pub projects: Projects,
    pub cfg: Config,
    pub page: Page,
    /// The selected row.
    pub sel: usize,
    /// The first row shown.
    pub scroll: usize,
    /// The message on the status line, if any.
    pub status: Option<String>,
    /// The last todo deleted, kept for one undo.
    pub trash: Option<Todo>,
    /// The last project deleted, kept for one undo.
    pub trash_project: Option<Project>,
    /// Whether the key help is showing.
    pub help: bool,
    /// Whether the user asked to leave.
    pub quit: bool,
}

impl View for App {
    type V = AppState;

    open spec fn view(&self) -> AppState {
        AppState {
            todos: self.store.todos@,
            history: self.store.history@,
            last_id: self.store.next_id,
            store_path: self.store.path@,
            projects: self.projects.items@,
            last_project: self.projects.next_id,
            projects_path: self.projects.path@,
            theme: self.cfg.theme,
            sort: self.cfg.sort,
            phrase: self.cfg.phrase@,
            page: self.page,
            sel: self.sel as int,
            scroll: self.scroll as int,
            status: opt_text(self.status),
            trash: self.trash,
            trash_project: self.trash_project,
            help: self.help,
            quit: self.quit,
        }
    }
}

impl App {
    /// The screen on the list page, the list in the order the settings ask
    /// for.
    pub fn new(store: Store, projects: Projects, cfg: Config) -> (res: App)
        ensures
            res@ == (AppState {
                todos: insertion_sorted(store.todos@, order_of(cfg.sort)),
                history: store.history@,
                last_id: store.next_id,
                store_path: store.path@,
                projects: projects.items@,
                last_project: projects.next_id,
                projects_path: projects.path@,
                theme: cfg.theme,
                sort: cfg.sort,
                phrase: cfg.phrase@,
                page: Page::List,
                sel: 0,
                scroll: 0,
                status: None,
                trash: None,
                trash_project: None,
                help: false,
                quit: false,
            }),
    {
        let mut store = store;
        store.sort(cfg.sort);
        App {
            store,
            projects,
            cfg,
            page: Page::List,
            sel: 0,
            scroll: 0,
            status: None,
            trash: None,
            trash_project: None,
            help: false,
            quit: false,
        }
    }

    /// How many rows the page lists.
    pub fn len(&self) -> (res: usize)
        ensures
            res == self@.len(),
    {
        match self.page {
            Page::Projects => self.projects.items.len(),
            Page::History => self.store.history.len(),
            Page::List => self.store.todos.len(),
        }
    }

    fn set_status(&mut self, m: String)
        ensures
            final(self)@ == old(self)@.with_status(m@),
    {
        self.status = Some(m);
    }

    fn move_sel(&mut self, down: bool)
        ensures
            final(self)@ == old(self)@.move_sel(down),
    {
        let len = self.len();
        if len == 0 {
            return ;
        }
        if down {
            if self.sel >= len - 1 {
                self.sel = len - 1;
            } else {
                self.sel = self.sel + 1;
            }
        } else {
            if self.sel == 0 {
                self.sel = 0;
            } else if self.sel - 1 > len - 1 {
                self.sel = len - 1;
            } else {
                self.sel = self.sel - 1;
            }
        }
    }

    fn clamp_sel(&mut self)
        ensures
            final(self)@ == old(self)@.clamp_sel(),
    {
        let len = self.len();
        let last = if len == 0 {
            0
        } else {
            len - 1
        };
        if self.sel >= last {
            self.sel = last;
        }
    }

    fn go(&mut self, page: Page)
        ensures
            final(self)@ == old(self)@.go(page),
    {
        if self.page == page {
            return ;
        }
        self.page = page;
        self.sel = 0;
        self.scroll = 0;
    }

    fn resort_keeping(&mut self, id: u64)
        ensures
            final(self)@ == old(self)@.resort_keeping(id),
    {
        self.store.sort(self.cfg.sort);
        let r = self.store.index_of(id);
        proof {
            lemma_index_of(self.store.todos@, id, r);
        }
        match r {
            Some(i) => {
                self.sel = i;
            },
            None => {},
        }
    }

    fn toggle_expand(&mut self)
        ensures
            final(self)@ == old(self)@.toggle_expand(),
    {
        let sel = self.sel;
        if self.page == Page::History {
            if sel < self.store.history.len() {
                if self.store.history[sel].details.as_str().unicode_len() == 0 {
                    self.set_status("no details \u{2014} press d to add some".to_owned());
                } else {
                    let ghost h = self.store.history@;
                    let mut t = self.store.history.remove(sel);
                    t.expanded = !t.expanded;
                    self.store.history.insert(sel, t);
                    proof {
                        assert(self.store.history@ =~= h.update(sel as int, t));
                    }
                }
            }
        } else {
            if sel < self.store.todos.len() {
                if self.store.todos[sel].details.as_str().unicode_len() == 0 {
                    self.set_status("no details \u{2014} press d to add some".to_owned());
                } else {
                    let ghost h = self.store.todos@;
                    let mut t = self.store.todos.remove(sel);
                    t.expanded = !t.expanded;
                    self.store.todos.insert(sel, t);
                    proof {
                        assert(self.store.todos@ =~= h.update(sel as int, t));
                    }
                }
            }
        }
    }

    fn toggle_done(&mut self, now: Stamp) -> (eff: Effect)
        ensures
            (final(self)@, eff) == old(self)@.toggle_done(now),
    {
        let sel = self.sel;
        if sel >= self.store.todos.len() {
            return Effect::Nothing;
        }
        let ghost h = self.store.todos@;
        let mut t = self.store.todos.remove(sel);
        t.done = !t.done;
        t.completed = if t.done {
            Some(now)
        } else {
            None
        };
        self.store.todos.insert(sel, t);
        proof {
            assert(self.store.todos@ =~= h.update(sel as int, t));
        }
        Effect::SaveStore
    }

    fn file_or_restore(&mut self, now: Stamp) -> (eff: Effect)
        ensures
            (final(self)@, eff) == old(self)@.file_or_restore(now),
    {
        match self.page {
            Page::Projects => Effect::Nothing,
            Page::List => {
                if self.sel >= self.store.todos.len() {
                    return Effect::Nothing;
                }
                let msg = {
                    let q = quote(self.store.todos[self.sel].title.as_str());
                    cat(q.as_str(), " filed to history")
                };
                let _ = self.store.archive_at(self.sel, now);
                self.clamp_sel();
                self.set_status(msg);
                Effect::SaveStore
            },
            Page::History => {
                if self.sel >= self.store.history.len() {
                    return Effect::Nothing;
                }
                let msg = {
                    let q = quote(self.store.history[self.sel].title.as_str());
                    cat(q.as_str(), " restored to the list, unticked")
                };
                let _ = self.store.restore(self.sel, self.cfg.sort);
                self.clamp_sel();
                self.set_status(msg);
                Effect::SaveStore
            },
        }
    }

    fn delete(&mut self) -> (eff: Effect)
        ensures
            (final(self)@, eff) == old(self)@.delete(),
    {
        if self.page == Page::Projects {
            if self.sel >= self.projects.items.len() {
                return Effect::Nothing;
            }
            let p = self.projects.items.remove(self.sel);
            let q = quote(p.name.as_str());
            let a = cat("deleted ", q.as_str());
            self.set_status(cat(a.as_str(), " \u{2014} u to undo"));
            self.trash_project = Some(p);
            self.clamp_sel();
            return Effect::SaveProjects;
        }
        let t = if self.page == Page::History {
            if self.sel >= self.store.history.len() {
                return Effect::Nothing;
            }
            self.store.history.remove(self.sel)
        } else {
            if self.sel >= self.store.todos.len() {
                return Effect::Nothing;
            }
            self.store.todos.remove(self.sel)
        };
        let q = quote(t.title.as_str());
        let a = cat("deleted ", q.as_str());
        self.set_status(cat(a.as_str(), " \u{2014} u to undo"));
        self.trash = Some(t);
        self.clamp_sel();
        Effect::SaveStore
    }

    fn undo(&mut self) -> (eff: Effect)
        ensures
            (final(self)@, eff) == old(self)@.undo(),
    {
        if self.page == Page::Projects {
            let taken = self.trash_project.take();
            match taken {
                None => {
                    self.set_status("nothing to undo".to_owned());
                    Effect::Nothing
                },
                Some(p) => {
                    let id = p.id;
                    self.projects.items.push(p);
                    let r = self.projects.index_of(id);
                    proof {
                        lemma_project_index_of(self.projects.items@, id, r);
                    }
                    match r {
                        Some(i) => {
                            self.sel = i;
                        },
                        None => {},
                    }
                    Effect::SaveProjects
                },
            }
        } else {
            let taken = self.trash.take();
            match taken {
                None => {
                    self.set_status("nothing to undo".to_owned());
                    Effect::Nothing
                },
                Some(t) => {
                    let id = t.id;
                    if t.archived.is_some() {
                        self.store.push_history(t);
                        if self.page == Page::History {
                            let r = self.store.history_index_of(id);
                            proof {
                                lemma_index_of(self.store.history@, id, r);
                            }
                            match r {
                                Some(i) => {
                                    self.sel = i;
                                },
                                None => {},
                            }
                        }
                    } else {
                        self.store.todos.push(t);
                        self.resort_keeping(id);
                    }
                    Effect::SaveStore
                },
            }
        }
    }

    fn cycle_sort(&mut self) -> (eff: Effect)
        ensures
            (final(self)@, eff) == old(self)@.cycle_sort(),
    {
        self.cfg.sort = self.cfg.sort.next();
        let id = if self.sel < self.store.todos.len() {
            Some(self.store.todos[self.sel].id)
        } else {
            None
        };
        self.store.sort(self.cfg.sort);
        match id {
            Some(id) => {
                let r = self.store.index_of(id);
                proof {
                    lemma_index_of(self.store.todos@, id, r);
                }
                match r {
                    Some(i) => {
                        self.sel = i;
                    },
                    None => {},
                }
            },
            None => {},
        }
        self.set_status(cat("sorting by ", self.cfg.sort.name()));
        Effect::SaveConfig
    }

    fn toggle_theme(&mut self) -> (eff: Effect)
        ensures
            (final(self)@, eff) == old(self)@.toggle_theme(),
    {
        self.cfg.theme = self.cfg.theme.toggle();
        Effect::SaveConfig
    }

    fn page_key(&mut self, key: Key, now: Stamp) -> (eff: Effect)
        ensures
            (final(self)@, eff) == old(self)@.page_key(key, now),
    {
        let c = key.code;
        if self.page == Page::Projects {
            if c == KeyCode::Char('o') {
                Effect::Ask(Ask::NewProject)
            } else if c == KeyCode::Char('e') && self.sel < self.projects.items.len() {
                Effect::Ask(Ask::RenameProject)
            } else {
                Effect::Nothing
            }
        } else if c == KeyCode::Char('a') {
            self.file_or_restore(now)
        } else if self.page == Page::History {
            self.set_status("history is read-only \u{2014} a restores, h goes back".to_owned());
            Effect::Nothing
        } else if c == KeyCode::Char(' ') {
            self.toggle_done(now)
        } else if c == KeyCode::Char('o') {
            Effect::Ask(Ask::NewTodo)
        } else if c == KeyCode::Char('s') {
            self.cycle_sort()
        } else if self.sel < self.store.todos.len() && c == KeyCode::Char('e') {
            Effect::Ask(Ask::EditTitle)
        } else if self.sel < self.store.todos.len() && c == KeyCode::Char('d') {
            Effect::Ask(Ask::EditDetails)
        } else if self.sel < self.store.todos.len() && c == KeyCode::Char('t') {
            Effect::Ask(Ask::EditDue)
        } else {
            Effect::Nothing
        }
    }

    fn common_key(&mut self, key: Key, now: Stamp) -> (eff: Effect)
        ensures
            (final(self)@, eff) == old(self)@.common_key(key, now),
    {
        let c = key.code;
        if c == KeyCode::Char('q') {
            self.quit = true;
            Effect::Nothing
        } else if c == KeyCode::Char('?') {
            self.help = true;
            Effect::Nothing
        } else if c == KeyCode::Char(':') {
            Effect::Ask(Ask::Command)
        } else if c == KeyCode::Char('j') || c == KeyCode::Down {
            self.move_sel(true);
            Effect::Nothing
        } else if c == KeyCode::Char('k') || c == KeyCode::Up {
            self.move_sel(false);
            Effect::Nothing
        } else if c == KeyCode::Char('g') || c == KeyCode::Home {
            self.sel = 0;
            Effect::Nothing
        } else if c == KeyCode::Char('G') || c == KeyCode::End {
            let len = self.len();
            self.sel = if len == 0 {
                0
            } else {
                len - 1
            };
            Effect::Nothing
        } else if c == KeyCode::Char('1') {
            self.go(Page::List);
            Effect::Nothing
        } else if c == KeyCode::Char('2') {
            self.go(Page::Projects);
            Effect::Nothing
        } else if c == KeyCode::Enter || c == KeyCode::Tab {
            if self.page == Page::Projects {
                if self.sel < self.projects.items.len() {
                    Effect::OpenLog
                } else {
                    Effect::Nothing
                }
            } else {
                self.toggle_expand();
                Effect::Nothing
            }
        } else if c == KeyCode::Char('h') {
            let to = if self.page == Page::History {
                Page::List
            } else {
                Page::History
            };
            self.go(to);
            Effect::Nothing
        } else if c == KeyCode::Esc && self.page != Page::List {
            self.go(Page::List);
            Effect::Nothing
        } else if c == KeyCode::Char('m') {
            self.toggle_theme()
        } else if c == KeyCode::Char('x') {
            self.delete()
        } else if c == KeyCode::Char('u') {
            self.undo()
        } else {
            self.page_key(key, now)
        }
    }

    /// One key press at `now`; see `AppState::key`. The caller performs the
    /// effect returned.
    pub fn on_key_at(&mut self, key: Key, now: Stamp) -> (eff: Effect)
        ensures
            (final(self)@, eff) == old(self)@.key(key, now),
    {
        self.status = None;
        if key.ctrl && key.code == KeyCode::Char('c') {
            self.quit = true;
            return Effect::Nothing;
        }
        if self.help {
            self.help = false;
            return Effect::Nothing;
        }
        self.common_key(key, now)
    }

    /// One key press, now.
    pub fn on_key(&mut self, key: Key) -> (eff: Effect)
        ensures
            exists|now: Stamp| (final(self)@, eff) == old(self)@.key(key, now),
    {
        self.on_key_at(key, Stamp::now())
    }

    /// A failed write leaves the reason on the status line.
    pub fn save_failed(&mut self, err: &str)
        ensures
            final(self)@ == old(self)@.with_status(save_failed_msg(err@)),
    {
        self.set_status(cat("could not save: ", err));
    }
}

/// The text of `s` with the white space at both ends taken off.
fn trimmed(s: &str) -> (res: String)
    ensures
        res@ == trim(s@),
{
    let cs = chars_of(s);
    let t = trim_chars(cs.as_slice());
    string_of(t.as_slice())
}

fn swept_msg_exec(n: usize) -> (res: String)
    ensures
        res@ == swept_msg(n as nat),
{
    if n == 0 {
        "nothing ticked off to sweep".to_owned()
    } else if n == 1 {
        "1 todo swept to history".to_owned()
    } else {
        let d = decimal_chars(n as u64);
        let ds = string_of(d.as_slice());
        cat(ds.as_str(), " todos swept to history")
    }
}

impl App {
    fn sweep(&mut self, now: Stamp) -> (eff: Effect)
        ensures
            (final(self)@, eff) == old(self)@.sweep(now),
    {
        let n = self.store.sweep_at(now);
        self.clamp_sel();
        self.set_status(swept_msg_exec(n));
        if n > 0 {
            Effect::SaveStore
        } else {
            Effect::Nothing
        }
    }

    fn command(&mut self, input: &str, now: Stamp) -> (eff: Effect)
        ensures
            (final(self)@, eff) == old(self)@.command(input@, now),
    {
        let cs = chars_of(input);
        let i = trim_chars(cs.as_slice());
        if i.len() == 0 {
            return Effect::Nothing;
        }
        let q = chars_of("q");
        let quit = chars_of("quit");
        if eq_ignore_case_exec(i.as_slice(), q.as_slice()) || eq_ignore_case_exec(
            i.as_slice(),
            quit.as_slice(),
        ) {
            self.quit = true;
            return Effect::Nothing;
        }
        let ph = chars_of(self.cfg.phrase.as_str());
        let pt = trim_chars(ph.as_slice());
        if eq_ignore_case_exec(i.as_slice(), pt.as_slice()) {
            return self.sweep(now);
        }
        let m = cat("unknown command \u{2014} try :", self.cfg.phrase.as_str());
        self.set_status(m);
        Effect::Nothing
    }

    /// The prompt's question for `ask` and the text it starts out holding.
    pub fn question(&self, ask: Ask) -> (res: (String, String))
        ensures
            res.0@ == ask_prefix(ask),
            res.1@ == self@.ask_initial(ask),
    {
        let prefix = match ask {
            Ask::Command => ":".to_owned(),
            Ask::NewProject | Ask::RenameProject => "project\u{25b8} ".to_owned(),
            Ask::NewTodo | Ask::EditTitle => "title\u{25b8} ".to_owned(),
            Ask::EditDetails => "details\u{25b8} ".to_owned(),
            Ask::EditDue => "due\u{25b8} ".to_owned(),
        };
        let sel = self.sel;
        let initial = match ask {
            Ask::RenameProject => if sel < self.projects.items.len() {
                self.projects.items[sel].name.as_str().to_owned()
            } else {
                String::new()
            },
            Ask::EditTitle => if sel < self.store.todos.len() {
                self.store.todos[sel].title.as_str().to_owned()
            } else {
                String::new()
            },
            Ask::EditDetails => if sel < self.store.todos.len() {
                self.store.todos[sel].details.as_str().to_owned()
            } else {
                String::new()
            },
            Ask::EditDue => if sel < self.store.todos.len() {
                match self.store.todos[sel].due {
                    Some(d) => d.display(),
                    None => String::new(),
                }
            } else {
                String::new()
            },
            _ => String::new(),
        };
        (prefix, initial)
    }

    /// What the answer `input` to `ask` does, at `now`, on day `today`;
    /// see `AppState::answered`.
    pub fn answer_at(&mut self, ask: Ask, input: Option<String>, now: Stamp, today: Date) -> (eff:
        Effect)
        requires
            ask == Ask::NewTodo ==> old(self).store.next_id < u64::MAX,
            ask == Ask::NewProject ==> old(self).projects.next_id < u64::MAX,
        ensures
            old(self)@.answered(ask, opt_text(input), now, today@, final(self)@, eff),
    {
        let input = match input {
            None => {
                return Effect::Nothing;
            },
            Some(i) => i,
        };
        let sel = self.sel;
        match ask {
            Ask::Command => self.command(input.as_str(), now),
            Ask::NewProject => {
                let name = trimmed(input.as_str());
                if name.as_str().unicode_len() == 0 {
                    return Effect::Nothing;
                }
                let id = self.projects.next_id();
                let p = Project::new_at(id, name, now);
                let ghost pv = p;
                self.projects.items.push(p);
                let r = self.projects.index_of(id);
                proof {
                    lemma_project_index_of(self.projects.items@, id, r);
                }
                match r {
                    Some(i) => {
                        self.sel = i;
                    },
                    None => {},
                }
                proof {
                    assert(fresh_project(pv, (old(self).projects.next_id + 1) as u64, trim(input@), now));
                }
                Effect::SaveProjects
            },
            Ask::RenameProject => {
                let name = trimmed(input.as_str());
                if name.as_str().unicode_len() == 0 || sel >= self.projects.items.len() {
                    return Effect::Nothing;
                }
                let ghost ps = self.projects.items@;
                let mut p = self.projects.items.remove(sel);
                p.name = name;
                let ghost q = p;
                self.projects.items.insert(sel, p);
                proof {
                    assert(self.projects.items@ =~= ps.update(sel as int, q));
                }
                Effect::SaveProjects
            },
            Ask::NewTodo => {
                let title = trimmed(input.as_str());
                if title.as_str().unicode_len() == 0 {
                    return Effect::Nothing;
                }
                let id = self.store.next_id();
                let t = Todo::new_at(id, title, now);
                let ghost tv = t;
                self.store.todos.push(t);
                let ghost mid = self@;
                self.resort_keeping(id);
                proof {
                    assert(fresh_todo(tv, (old(self).store.next_id + 1) as u64, trim(input@), now));
                    assert(mid == AppState {
                        todos: old(self)@.todos.push(tv),
                        last_id: (old(self)@.last_id + 1) as u64,
                        ..old(self)@
                    });
                }
                Effect::SaveStore
            },
            Ask::EditTitle => {
                let title = trimmed(input.as_str());
                if title.as_str().unicode_len() == 0 || sel >= self.store.todos.len() {
                    return Effect::Nothing;
                }
                let ghost ts = self.store.todos@;
                let mut t = self.store.todos.remove(sel);
                let id = t.id;
                t.title = title;
                let ghost u = t;
                self.store.todos.insert(sel, t);
                proof {
                    assert(self.store.todos@ =~= ts.update(sel as int, u));
                }
                self.resort_keeping(id);
                Effect::SaveStore
            },
            Ask::EditDetails => {
                let details = trimmed(input.as_str());
                if sel >= self.store.todos.len() {
                    return Effect::Nothing;
                }
                let ghost ts = self.store.todos@;
                let mut t = self.store.todos.remove(sel);
                let empty = details.as_str().unicode_len() == 0;
                t.details = details;
                t.expanded = !empty;
                let ghost u = t;
                self.store.todos.insert(sel, t);
                proof {
                    assert(self.store.todos@ =~= ts.update(sel as int, u));
                }
                Effect::SaveStore
            },
            Ask::EditDue => {
                if sel >= self.store.todos.len() {
                    return Effect::Nothing;
                }
                match parse_due_from(input.as_str(), today) {
                    Ok(due) => {
                        let ghost ts = self.store.todos@;
                        let mut t = self.store.todos.remove(sel);
                        let id = t.id;
                        t.due = due;
                        let ghost u = t;
                        self.store.todos.insert(sel, t);
                        proof {
                            assert(self.store.todos@ =~= ts.update(sel as int, u));
                        }
                        self.resort_keeping(id);
                        Effect::SaveStore
                    },
                    Err(()) => {
                        self.set_status(
                            "try: today, tomorrow, +3d, 2w, 12-25, 2026-12-25, or - to clear".to_owned(),
                        );
                        Effect::Nothing
                    },
                }
            },
        }
    }

    /// What the answer `input` to `ask` does, now and today.
    pub fn answer(&mut self, ask: Ask, input: Option<String>) -> (eff: Effect)
        requires
            ask == Ask::NewTodo ==> old(self).store.next_id < u64::MAX,
            ask == Ask::NewProject ==> old(self).projects.next_id < u64::MAX,
        ensures
            exists|now: Stamp, today: int|
                old(self)@.answered(ask, opt_text(input), now, today, final(self)@, eff),
    {
        let now = Stamp::now();
        let today = crate::date::today();
        self.answer_at(ask, input, now, today)
    }

    /// What the editor hands back for the selected project's log, at `now`;
    /// see `AppState::logged`.
    pub fn logged_at(&mut self, text: Option<String>, now: Stamp) -> (eff: Effect)
        ensures
            (final(self)@, eff) == old(self)@.logged(text, now),
    {
        let log = match text {
            None => {
                return Effect::Nothing;
            },
            Some(l) => l,
        };
        let sel = self.sel;
        if sel >= self.projects.items.len() {
            return Effect::Nothing;
        }
        let a = chars_of(self.projects.items[sel].log.as_str());
        let b = chars_of(log.as_str());
        if crate::text::chars_eq(a.as_slice(), b.as_slice()) {
            return Effect::Nothing;
        }
        let ghost ps = self.projects.items@;
        let mut p = self.projects.items.remove(sel);
        let q = quote(p.name.as_str());
        let msg = cat(q.as_str(), " logged");
        p.log = log;
        p.updated = now;
        let ghost u = p;
        self.projects.items.insert(sel, p);
        proof {
            assert(self.projects.items@ =~= ps.update(sel as int, u));
        }
        self.set_status(msg);
        Effect::SaveProjects
    }

    /// What the editor hands back for the selected project's log, now.
    pub fn logged(&mut self, text: Option<String>) -> (eff: Effect)
        ensures
            exists|now: Stamp| (final(self)@, eff) == old(self)@.logged(text, now),
    {
        self.logged_at(text, Stamp::now())
    }
}

/// A row of the list: a todo, or one line of the details under it.
pub enum Row {
    Item(usize),
    Detail(usize, String),
}

/// A row as plain values.
pub enum RowView {
    Item(int),
    Detail(int, Seq<char>),
}

pub open spec fn row_view(r: Row) -> RowView {
    match r {
        Row::Item(i) => RowView::Item(i as int),
        Row::Detail(i, l) => RowView::Detail(i as int, l@),
    }
}

pub open spec fn rows_view(rs: Seq<Row>) -> Seq<RowView> {
    rs.map_values(|r: Row| row_view(r))
}

/// The todo a row belongs to.
pub open spec fn row_owner(r: RowView) -> int {
    match r {
        RowView::Item(i) => i,
        RowView::Detail(i, _) => i,
    }
}

/// The rows of the todo `t` at position `i`: its own, then, when it is
/// open, its details wrapped at `width`.
pub open spec fn todo_rows(t: Todo, i: int, width: int) -> Seq<RowView> {
    seq![RowView::Item(i)] + if t.expanded {
        wrapped(t.details@, width).map_values(|l: Seq<char>| RowView::Detail(i, l))
    } else {
        Seq::empty()
    }
}

/// The rows of `items`, in order, details wrapped at `width`.
pub open spec fn rows_of(items: Seq<Todo>, width: int) -> Seq<RowView>
    decreases items.len(),
{
    if items.len() == 0 {
        Seq::empty()
    } else {
        rows_of(items.drop_last(), width) + todo_rows(items.last(), items.len() - 1, width)
    }
}

/// The first row, from `q` on, of the todo at `sel`.
pub open spec fn item_row(rows: Seq<RowView>, sel: int, q: int) -> Option<int>
    decreases rows.len() - q,
{
    if 0 <= q < rows.len() {
        if rows[q] == RowView::Item(sel) {
            Some(q)
        } else {
            item_row(rows, sel, q + 1)
        }
    } else {
        None
    }
}

/// The last row before `j` that belongs to the todo at `sel`.
pub open spec fn owned_row_before(rows: Seq<RowView>, sel: int, j: int) -> Option<int>
    decreases j,
{
    if 0 < j <= rows.len() {
        if row_owner(rows[j - 1]) == sel {
            Some(j - 1)
        } else {
            owned_row_before(rows, sel, j - 1)
        }
    } else {
        None
    }
}

/// Where the list starts after scrolling from `scroll` so that the todo at
/// `sel` shows in a window `list_h` rows high: the whole todo if it fits,
/// its first row always, and never past the end.
pub open spec fn scrolled(rows: Seq<RowView>, sel: int, scroll: int, list_h: int) -> int {
    let first = match item_row(rows, sel, 0) {
        Some(k) => k,
        None => 0,
    };
    let last = match owned_row_before(rows, sel, rows.len() as int) {
        Some(k) => k,
        None => first,
    };
    let s1 = if last >= scroll + list_h {
        last + 1 - list_h
    } else {
        scroll
    };
    let s2 = if first < s1 {
        first
    } else {
        s1
    };
    let max = if rows.len() > list_h {
        rows.len() - list_h
    } else {
        0
    };
    if s2 < max {
        s2
    } else {
        max
    }
}

proof fn lemma_item_row(rows: Seq<RowView>, sel: int, q: int)
    requires
        0 <= q,
    ensures
        item_row(rows, sel, q) matches Some(k) ==> q <= k < rows.len() && rows[k] == RowView::Item(
            sel,
        ),
    decreases rows.len() - q,
{
    if q < rows.len() {
        lemma_item_row(rows, sel, q + 1);
    }
}

proof fn lemma_owned_row_before(rows: Seq<RowView>, sel: int, j: int, k: int)
    requires
        0 <= k < j <= rows.len(),
        row_owner(rows[k]) == sel,
    ensures
        owned_row_before(rows, sel, j) matches Some(m) && k <= m < j,
    decreases j,
{
    if row_owner(rows[j - 1]) != sel {
        lemma_owned_row_before(rows, sel, j - 1, k);
    }
}

/// After scrolling, the first row of the selected todo is on screen,
/// whenever the window has room for a row and the todo is listed.
pub proof fn law_scroll_shows_selection(rows: Seq<RowView>, sel: int, scroll: int, list_h: int)
    requires
        list_h > 0,
        0 <= scroll,
        item_row(rows, sel, 0) is Some,
    ensures
        scrolled(rows, sel, scroll, list_h) <= item_row(rows, sel, 0)->0 < scrolled(
            rows,
            sel,
            scroll,
            list_h,
        ) + list_h,
        0 <= scrolled(rows, sel, scroll, list_h),
{
    lemma_item_row(rows, sel, 0);
    let first = item_row(rows, sel, 0)->0;
    lemma_owned_row_before(rows, sel, rows.len() as int, first);
}

/// How many todos of `s` are ticked.
pub open spec fn done_count(s: Seq<Todo>) -> nat
    decreases s.len(),
{
    if s.len() == 0 {
        0
    } else {
        done_count(s.drop_last()) + if s.last().done {
            1nat
        } else {
            0nat
        }
    }
}

proof fn lemma_done_count_le(s: Seq<Todo>)
    ensures
        done_count(s) <= s.len(),
    decreases s.len(),
{
    if s.len() > 0 {
        lemma_done_count_le(s.drop_last());
    }
}

/// The key help for `page`, each key with what it does.
pub open spec fn help_lines(page: Page, phrase: Seq<char>) -> Seq<(Seq<char>, Seq<char>)> {
    seq![
        ("1 / 2"@, "todos / projects"@),
        ("j / k"@, "move down / up"@),
        ("g / G"@, "first / last"@),
    ] + match page {
        Page::List => seq![
            ("enter"@, "expand or collapse details"@),
            ("space"@, "toggle done"@),
            ("o"@, "new todo"@),
            ("e"@, "edit title"@),
            ("d"@, "edit details"@),
            ("t"@, "set due date"@),
            ("a"@, "file to history"@),
            ("s"@, "cycle sort: created / due / alpha"@),
            ("h"@, "show history"@),
        ],
        Page::Projects => seq![
            ("enter"@, "open the log in the editor"@),
            ("o"@, "new project"@),
            ("e"@, "rename"@),
        ],
        Page::History => seq![
            ("enter"@, "expand or collapse details"@),
            ("a"@, "restore to the list, unticked"@),
            ("h / esc"@, "back to the list"@),
        ],
    } + seq![
        ("x"@, "delete"@),
        ("u"@, "undo delete"@),
        ("m"@, "toggle light / dark mode"@),
        (":"@, "type :"@ + phrase + " to sweep ticked todos to history"@),
        ("?"@, "toggle this help"@),
        ("q"@, "quit"@),
    ]
}

pub open spec fn pairs_view(v: Seq<(String, String)>) -> Seq<(Seq<char>, Seq<char>)> {
    v.map_values(|p: (String, String)| (p.0@, p.1@))
}

/// The right end of the header: what the page holds, and the settings.
pub open spec fn header_right(s: AppState) -> Seq<char> {
    match s.page {
        Page::List => decimal(done_count(s.todos)) + "/"@ + decimal(s.todos.len()) + " \u{b7} "@
            + s.sort.spec_name() + " \u{b7} "@ + s.theme.spec_name(),
        Page::Projects => decimal(s.projects.len()) + " logged \u{b7} "@ + s.theme.spec_name(),
        Page::History => decimal(s.history.len()) + " filed \u{b7} "@ + s.theme.spec_name(),
    }
}

/// The status line: the message, if any, else the page's key hints.
pub open spec fn footer_text(s: AppState) -> Seq<char> {
    match s.status {
        Some(m) => m,
        None => match s.page {
            Page::List => "j/k move \u{b7} space done \u{b7} o new \u{b7} t due \u{b7} a file \u{b7} h history \u{b7} ? help"@,
            Page::Projects => "j/k move \u{b7} enter open log \u{b7} o new \u{b7} e rename \u{b7} 1 todos \u{b7} ? help"@,
            Page::History => "j/k move \u{b7} a restore \u{b7} h back \u{b7} ? help"@,
        },
    }
}

/// What an empty page says.
pub open spec fn empty_text(s: AppState) -> Seq<char> {
    match s.page {
        Page::List => "nothing here yet - press o to add a todo"@,
        Page::Projects => "no projects yet - press o to start one"@,
        Page::History => "history is empty - ticked todos land here when you type :"@ + s.phrase,
    }
}

/// The right column of the todo `t`, `today` being `today`: on the history
/// page when it was filed, elsewhere when it is due.
pub open spec fn item_right(t: Todo, history: bool, today: int) -> Seq<char> {
    if history {
        match (match t.completed {
            Some(c) => Some(c),
            None => t.archived,
        }) {
            Some(st) => match crate::date::spec_local_date(
                st.secs as int,
                st.nanos as int,
                st.offset as int,
            ) {
                Some(d) => crate::date::ago_text(d, today),
                None => Seq::<char>::empty(),
            },
            None => Seq::<char>::empty(),
        }
    } else {
        match t.due {
            Some(d) => crate::date::label_text(d@, today),
            None => Seq::<char>::empty(),
        }
    }
}

/// Whether the todo `t` is shown as overdue: on the list, unticked, due
/// today or before.
pub open spec fn overdue(t: Todo, history: bool, today: int) -> bool {
    !history && !t.done && (t.due matches Some(d) && d@ <= today)
}

/// The right column of the project `p`: when its log was last written, or
/// `empty`.
pub open spec fn project_right(p: Project, today: int) -> Seq<char> {
    if p.log@.len() == 0 {
        "empty"@
    } else {
        match crate::date::spec_local_date(
            p.updated.secs as int,
            p.updated.nanos as int,
            p.updated.offset as int,
        ) {
            Some(d) => crate::date::ago_text(d, today),
            None => Seq::<char>::empty(),
        }
    }
}

fn push_pair(v: &mut Vec<(String, String)>, k: &str, d: &str)
    ensures
        pairs_view(final(v)@) == pairs_view(old(v)@).push((k@, d@)),
{
    let ghost before = pairs_view(v@);
    v.push((k.to_owned(), d.to_owned()));
    proof {
        assert(pairs_view(v@) =~= before.push((k@, d@)));
    }
}

/// The rows of the todo at `i` of `items`, appended to `rows`.
fn push_todo_rows(rows: &mut Vec<Row>, t: &Todo, i: usize, width: usize)
    ensures
        rows_view(final(rows)@) == rows_view(old(rows)@) + todo_rows(*t, i as int, width as int),
{
    let ghost before = rows_view(rows@);
    rows.push(Row::Item(i));
    proof {
        assert(rows_view(rows@) =~= before + seq![RowView::Item(i as int)]);
    }
    if t.expanded {
        let lines = crate::layout::wrap(t.details.as_str(), width);
        let ghost ls = crate::layout::strings_view(lines@);
        let ghost mid = rows_view(rows@);
        let mut k: usize = 0;
        while k < lines.len()
            invariant
                k <= lines@.len(),
                ls == crate::layout::strings_view(lines@),
                rows_view(rows@) == mid + ls.subrange(0, k as int).map_values(
                    |l: Seq<char>| RowView::Detail(i as int, l),
                ),
            decreases lines@.len() - k,
        {
            let ghost pre = rows_view(rows@);
            rows.push(Row::Detail(i, lines[k].as_str().to_owned()));
            proof {
                assert(ls[k as int] == lines@[k as int]@);
                assert(rows_view(rows@) =~= pre.push(RowView::Detail(i as int, ls[k as int])));
                let f = |l: Seq<char>| RowView::Detail(i as int, l);
                assert(ls.subrange(0, k + 1).map_values(f) =~= ls.subrange(0, k as int).map_values(
                    f,
                ).push(f(ls[k as int])));
                assert(rows_view(rows@) =~= mid + ls.subrange(0, k + 1).map_values(f));
            }
            k += 1;
        }
        proof {
            assert(ls.subrange(0, ls.len() as int) == ls);
            assert(rows_view(rows@) =~= before + todo_rows(*t, i as int, width as int));
        }
    } else {
        proof {
            assert(rows_view(rows@) =~= before + todo_rows(*t, i as int, width as int));
        }
    }
}

impl App {
    /// The rows of the page, each open todo's details wrapped to fit
    /// `width` columns once indented.
    pub fn rows(&self, width: usize) -> (res: Vec<Row>)
        ensures
            rows_view(res@) == rows_of(
                self@.items(),
                if width > 7 {
                    width - 7
                } else {
                    0
                },
            ),
    {
        let w = if width > 7 {
            width - 7
        } else {
            0
        };
        let items = if self.page == Page::History {
            &self.store.history
        } else {
            &self.store.todos
        };
        let mut rows: Vec<Row> = Vec::new();
        let mut i: usize = 0;
        proof {
            assert(items@.subrange(0, 0) =~= Seq::<Todo>::empty());
            assert(rows_view(rows@) =~= Seq::<RowView>::empty());
        }
        while i < items.len()
            invariant
                items@ == self@.items(),
                i <= items@.len(),
                rows_view(rows@) == rows_of(items@.subrange(0, i as int), w as int),
            decreases items@.len() - i,
        {
            push_todo_rows(&mut rows, &items[i], i, w);
            proof {
                let pre = items@.subrange(0, i as int);
                let nxt = items@.subrange(0, i + 1);
                assert(nxt.drop_last() == pre);
                assert(nxt.last() == items@[i as int]);
            }
            i += 1;
        }
        proof {
            assert(items@.subrange(0, items@.len() as int) == items@);
        }
        rows
    }

    /// Keeps the selected todo on screen in a window `list_h` rows high,
    /// preferring its first row when the todo and its details are taller
    /// than the window.
    pub fn update_scroll(&mut self, rows: &Vec<Row>, list_h: usize)
        ensures
            final(self)@ == (AppState {
                scroll: scrolled(rows_view(rows@), old(self)@.sel, old(self)@.scroll, list_h as int),
                ..old(self)@
            }),
    {
        let ghost rv = rows_view(rows@);
        let sel = self.sel;
        let mut first: usize = 0;
        let mut found = false;
        let mut q: usize = 0;
        while q < rows.len()
            invariant
                rv == rows_view(rows@),
                q <= rows@.len(),
                item_row(rv, sel as int, 0) == if found {
                    Some(first as int)
                } else {
                    item_row(rv, sel as int, q as int)
                },
                found ==> first < rows@.len(),
            decreases rows@.len() - q,
        {
            if !found {
                proof {
                    assert(rv[q as int] == row_view(rows@[q as int]));
                }
                match &rows[q] {
                    Row::Item(i) => {
                        if *i == sel {
                            found = true;
                            first = q;
                        }
                    },
                    _ => {},
                }
            }
            q += 1;
        }
        if !found {
            first = 0;
        }
        let mut last = first;
        let mut j: usize = rows.len();
        let mut got = false;
        while j > 0 && !got
            invariant
                rv == rows_view(rows@),
                j <= rows@.len(),
                owned_row_before(rv, sel as int, rows@.len() as int) == if got {
                    Some(last as int)
                } else {
                    owned_row_before(rv, sel as int, j as int)
                },
                got ==> last < rows@.len(),
                !got ==> last == first,
            decreases j,
        {
            proof {
                assert(rv[j - 1] == row_view(rows@[j - 1]));
            }
            let owner = match &rows[j - 1] {
                Row::Item(i) => *i,
                Row::Detail(i, _) => *i,
            };
            if owner == sel {
                got = true;
                last = j - 1;
                j = 0;
            } else {
                j -= 1;
            }
        }
        proof {
            if !got {
                assert(owned_row_before(rv, sel as int, 0) is None);
            }
        }
        let mut scroll = self.scroll;
        if last >= scroll && last - scroll >= list_h {
            scroll = last + 1 - list_h;
        }
        if first < scroll {
            scroll = first;
        }
        let max = if rows.len() > list_h {
            rows.len() - list_h
        } else {
            0
        };
        if scroll > max {
            scroll = max;
        }
        self.scroll = scroll;
    }

    /// Keeps the selected project on screen in a window `list_h` rows high.
    pub fn follow_project(&mut self, list_h: usize)
        requires
            list_h > 0,
        ensures
            final(self)@ == (AppState {
                scroll: {
                    let s1 = if old(self)@.sel < old(self)@.scroll {
                        old(self)@.sel
                    } else {
                        old(self)@.scroll
                    };
                    if old(self)@.sel >= s1 + list_h {
                        old(self)@.sel + 1 - list_h
                    } else {
                        s1
                    }
                },
                ..old(self)@
            }),
    {
        if self.sel < self.scroll {
            self.scroll = self.sel;
        }
        if self.sel >= self.scroll && self.sel - self.scroll >= list_h {
            self.scroll = self.sel - list_h + 1;
        }
    }

    /// The key help for the page.
    pub fn help_keys(&self) -> (res: Vec<(String, String)>)
        ensures
            pairs_view(res@) == help_lines(self.page, self.cfg.phrase@),
    {
        let mut v: Vec<(String, String)> = Vec::new();
        push_pair(&mut v, "1 / 2", "todos / projects");
        push_pair(&mut v, "j / k", "move down / up");
        push_pair(&mut v, "g / G", "first / last");
        match self.page {
            Page::List => {
                push_pair(&mut v, "enter", "expand or collapse details");
                push_pair(&mut v, "space", "toggle done");
                push_pair(&mut v, "o", "new todo");
                push_pair(&mut v, "e", "edit title");
                push_pair(&mut v, "d", "edit details");
                push_pair(&mut v, "t", "set due date");
                push_pair(&mut v, "a", "file to history");
                push_pair(&mut v, "s", "cycle sort: created / due / alpha");
                push_pair(&mut v, "h", "show history");
            },
            Page::Projects => {
                push_pair(&mut v, "enter", "open the log in the editor");
                push_pair(&mut v, "o", "new project");
                push_pair(&mut v, "e", "rename");
            },
            Page::History => {
                push_pair(&mut v, "enter", "expand or collapse details");
                push_pair(&mut v, "a", "restore to the list, unticked");
                push_pair(&mut v, "h / esc", "back to the list");
            },
        }
        push_pair(&mut v, "x", "delete");
        push_pair(&mut v, "u", "undo delete");
        push_pair(&mut v, "m", "toggle light / dark mode");
        let a = cat("type :", self.cfg.phrase.as_str());
        let sweep = cat(a.as_str(), " to sweep ticked todos to history");
        push_pair(&mut v, ":", sweep.as_str());
        push_pair(&mut v, "?", "toggle this help");
        push_pair(&mut v, "q", "quit");
        proof {
            assert(pairs_view(v@) =~= help_lines(self.page, self.cfg.phrase@));
        }
        v
    }

    /// The right end of the header.
    pub fn header_right(&self) -> (res: String)
        ensures
            res@ == header_right(self@),
    {
        let theme = self.cfg.theme.name();
        match self.page {
            Page::List => {
                let mut done: usize = 0;
                let mut i: usize = 0;
                proof {
                    assert(self.store.todos@.subrange(0, 0) =~= Seq::<Todo>::empty());
                }
                while i < self.store.todos.len()
                    invariant
                        i <= self.store.todos@.len(),
                        done == done_count(self.store.todos@.subrange(0, i as int)),
                        done <= i,
                    decreases self.store.todos@.len() - i,
                {
                    proof {
                        let s = self.store.todos@.subrange(0, i + 1);
                        assert(s.drop_last() == self.store.todos@.subrange(0, i as int));
                        assert(s.last() == self.store.todos@[i as int]);
                    }
                    if self.store.todos[i].done {
                        done += 1;
                    }
                    i += 1;
                }
                proof {
                    assert(self.store.todos@.subrange(0, i as int) == self.store.todos@);
                }
                let a = string_of(decimal_chars(done as u64).as_slice());
                let b = cat(a.as_str(), "/");
                let c = string_of(decimal_chars(self.store.todos.len() as u64).as_slice());
                let d = cat(b.as_str(), c.as_str());
                let e = cat(d.as_str(), " \u{b7} ");
                let f = cat(e.as_str(), self.cfg.sort.name());
                let g = cat(f.as_str(), " \u{b7} ");
                cat(g.as_str(), theme)
            },
            Page::Projects => {
                let a = string_of(decimal_chars(self.projects.items.len() as u64).as_slice());
                let b = cat(a.as_str(), " logged \u{b7} ");
                cat(b.as_str(), theme)
            },
            Page::History => {
                let a = string_of(decimal_chars(self.store.history.len() as u64).as_slice());
                let b = cat(a.as_str(), " filed \u{b7} ");
                cat(b.as_str(), theme)
            },
        }
    }

    /// The status line.
    pub fn footer_text(&self) -> (res: String)
        ensures
            res@ == footer_text(self@),
    {
        match &self.status {
            Some(m) => m.as_str().to_owned(),
            None => match self.page {
                Page::List => "j/k move \u{b7} space done \u{b7} o new \u{b7} t due \u{b7} a file \u{b7} h history \u{b7} ? help".to_owned(),
                Page::Projects => "j/k move \u{b7} enter open log \u{b7} o new \u{b7} e rename \u{b7} 1 todos \u{b7} ? help".to_owned(),
                Page::History => "j/k move \u{b7} a restore \u{b7} h back \u{b7} ? help".to_owned(),
            },
        }
    }

    /// What the page says when it is empty.
    pub fn empty_text(&self) -> (res: String)
        ensures
            res@ == empty_text(self@),
    {
        match self.page {
            Page::List => "nothing here yet - press o to add a todo".to_owned(),
            Page::Projects => "no projects yet - press o to start one".to_owned(),
            Page::History => cat(
                "history is empty - ticked todos land here when you type :",
                self.cfg.phrase.as_str(),
            ),
        }
    }
}

/// The right column of the todo `t`, `today` being `today`; see
/// `item_right`.
pub fn item_right_text(t: &Todo, history: bool, today: Date) -> (res: String)
    ensures
        res@ == item_right(*t, history, today@),
{
    if history {
        match t.filed_at() {
            Some(st) => match crate::date::local_date(st) {
                Some(d) => crate::date::ago_from(d, today),
                None => String::new(),
            },
            None => String::new(),
        }
    } else {
        match t.due {
            Some(d) => crate::date::label_from(d, today),
            None => String::new(),
        }
    }
}

/// Whether the todo `t` shows as overdue; see `overdue`.
pub fn is_overdue(t: &Todo, history: bool, today: Date) -> (res: bool)
    ensures
        res == overdue(*t, history, today@),
{
    if history || t.done {
        return false;
    }
    match t.due {
        Some(d) => d.days() <= today.days(),
        None => false,
    }
}

/// The right column of the project `p`; see `project_right`.
pub fn project_right_text(p: &Project, today: Date) -> (res: String)
    ensures
        res@ == project_right(*p, today@),
{
    if p.log.as_str().unicode_len() == 0 {
        "empty".to_owned()
    } else {
        match crate::date::local_date(p.updated) {
            Some(d) => crate::date::ago_from(d, today),
            None => String::new(),
        }
    }
}

/// Deleting a row and undoing at once gives every todo and project back:
/// the list, the history and the projects hold what they held before, a
/// todo going back to the side it came from.
pub proof fn law_undo_brings_back_deleted(s: AppState)
    requires
        0 <= s.sel < s.len(),
        s.page == Page::List ==> s.todos[s.sel].archived is None,
        s.page == Page::History ==> s.history[s.sel].archived is Some,
    ensures
        s.delete().0.undo().0.todos.to_multiset() == s.todos.to_multiset(),
        s.delete().0.undo().0.history.to_multiset() == s.history.to_multiset(),
        s.delete().0.undo().0.projects.to_multiset() == s.projects.to_multiset(),
{
    broadcast use vstd::multiset::group_multiset_axioms;

    let i = s.sel;
    match s.page {
        Page::Projects => {
            let p = s.projects[i];
            vstd::seq_lib::to_multiset_remove(s.projects, i);
            vstd::seq_lib::to_multiset_build(s.projects.remove(i), p);
            vstd::seq_lib::to_multiset_contains(s.projects, p);
            assert(s.projects.contains(p)) by {
                assert(s.projects[i] == p);
            }
            assert(s.projects.remove(i).push(p).to_multiset() =~= s.projects.to_multiset());
        },
        Page::List => {
            let t = s.todos[i];
            vstd::seq_lib::to_multiset_remove(s.todos, i);
            vstd::seq_lib::to_multiset_build(s.todos.remove(i), t);
            vstd::seq_lib::to_multiset_contains(s.todos, t);
            assert(s.todos.contains(t)) by {
                assert(s.todos[i] == t);
            }
            let u = s.todos.remove(i).push(t);
            assert(u.to_multiset() =~= s.todos.to_multiset());
            crate::model::lemma_insertion_sorted_multiset(u, order_of(s.sort));
        },
        Page::History => {
            let t = s.history[i];
            vstd::seq_lib::to_multiset_remove(s.history, i);
            vstd::seq_lib::to_multiset_build(s.history.remove(i), t);
            vstd::seq_lib::to_multiset_contains(s.history, t);
            assert(s.history.contains(t)) by {
                assert(s.history[i] == t);
            }
            let u = s.history.remove(i).push(t);
            assert(u.to_multiset() =~= s.history.to_multiset());
            crate::model::lemma_insertion_sorted_multiset(u, Order::NewestFiled);
        },
    }
}

/// Pressing `s` three times comes back to the order the list started in.
pub proof fn law_sort_cycles(sort: Sort)
    ensures
        sort.next_spec().next_spec().next_spec() == sort,
{
}

/// The screen's colours, as 256-colour indices rather than truecolour:
/// macOS Terminal.app speaks 256 colours but not 24-bit RGB.
#[derive(Debug, Clone, Copy, PartialEq, Eq, Structural)]
pub struct Palette {
    pub bg: u8,
    pub fg: u8,
    pub dim: u8,
    pub accent: u8,
    pub done: u8,
    pub overdue: u8,
    pub sel: u8,
}

pub open spec fn palette_of(theme: Theme) -> Palette {
    match theme {
        Theme::Dark => Palette {
            bg: 234,
            fg: 252,
            dim: 243,
            accent: 110,
            done: 108,
            overdue: 174,
            sel: 237,
        },
        Theme::Light => Palette {
            bg: 255,
            fg: 236,
            dim: 245,
            accent: 25,
            done: 29,
            overdue: 124,
            sel: 253,
        },
    }
}

/// The colours of `theme`.
pub fn palette(theme: Theme) -> (res: Palette)
    ensures
        res == palette_of(theme),
{
    match theme {
        Theme::Dark => Palette {
            bg: 234,
            fg: 252,
            dim: 243,
            accent: 110,
            done: 108,
            overdue: 174,
            sel: 237,
        },
        Theme::Light => Palette {
            bg: 255,
            fg: 236,
            dim: 245,
            accent: 25,
            done: 29,
            overdue: 124,
            sel: 253,
        },
    }
}

proof fn lemma_todo_pos_found(s: Seq<Todo>, id: u64, q: int)
    requires
        0 <= q,
        exists|k: int| q <= k < s.len() && #[trigger] s[k].id == id,
    ensures
        todo_pos(s, id, q) matches Some(i) && q <= i < s.len() && s[i].id == id,
    decreases s.len() - q,
{
    if s[q].id != id {
        let k = choose|k: int| q <= k < s.len() && #[trigger] s[k].id == id;
        assert(q + 1 <= k);
        lemma_todo_pos_found(s, id, q + 1);
    }
}

proof fn lemma_contains_pos(s: Seq<Todo>, t: Todo)
    requires
        s.contains(t),
    ensures
        todo_pos(s, t.id, 0) matches Some(i) && 0 <= i < s.len() && s[i].id == t.id,
{
    let k = choose|k: int| 0 <= k < s.len() && s[k] == t;
    assert(s[k].id == t.id);
    lemma_todo_pos_found(s, t.id, 0);
}

/// Undo after a delete works whatever page the user has moved to in
/// between, as long as no other change was made: the todo goes back to the
/// side it came from, the list and the history hold what they held before,
/// nothing is left to undo, and when the page shown is that side the
/// selection lands on the restored todo.
pub proof fn law_undo_after_switch(s: AppState, page: Page, sel: int, scroll: int)
    requires
        s.page != Page::Projects,
        0 <= s.sel < s.len(),
        s.page == Page::List ==> s.todos[s.sel].archived is None,
        s.page == Page::History ==> s.history[s.sel].archived is Some,
        page != Page::Projects,
    ensures
        ({
            let t = s.items()[s.sel];
            let s1 = s.delete().0;
            let s3 = (AppState { page, sel, scroll, ..s1 }).undo().0;
            &&& s1.trash == Some(t)
            &&& s3.trash is None
            &&& s3.todos.to_multiset() == s.todos.to_multiset()
            &&& s3.history.to_multiset() == s.history.to_multiset()
            &&& t.archived is Some ==> s3.history.contains(t)
            &&& t.archived is None ==> s3.todos.contains(t)
            &&& ((page == Page::List && t.archived is None) || (page == Page::History
                && t.archived is Some)) ==> 0 <= s3.sel < s3.items().len() && s3.items()[s3.sel].id
                == t.id
        }),
{
    broadcast use vstd::multiset::group_multiset_axioms;

    let i = s.sel;
    let t = s.items()[i];
    let s1 = s.delete().0;
    let s2 = AppState { page, sel, scroll, ..s1 };
    if s.page == Page::List {
        vstd::seq_lib::to_multiset_remove(s.todos, i);
        vstd::seq_lib::to_multiset_build(s.todos.remove(i), t);
        vstd::seq_lib::to_multiset_contains(s.todos, t);
        assert(s.todos.contains(t)) by {
            assert(s.todos[i] == t);
        }
        let u = s.todos.remove(i).push(t);
        assert(u.to_multiset() =~= s.todos.to_multiset());
        crate::model::lemma_insertion_sorted_multiset(u, order_of(s.sort));
        let v = insertion_sorted(u, order_of(s.sort));
        vstd::seq_lib::to_multiset_contains(v, t);
        vstd::seq_lib::to_multiset_contains(s.todos, t);
        assert(v.contains(t));
        lemma_contains_pos(v, t);
    } else {
        vstd::seq_lib::to_multiset_remove(s.history, i);
        vstd::seq_lib::to_multiset_build(s.history.remove(i), t);
        vstd::seq_lib::to_multiset_contains(s.history, t);
        assert(s.history.contains(t)) by {
            assert(s.history[i] == t);
        }
        let u = s.history.remove(i).push(t);
        assert(u.to_multiset() =~= s.history.to_multiset());
        crate::model::lemma_insertion_sorted_multiset(u, Order::NewestFiled);
        let v = insertion_sorted(u, Order::NewestFiled);
        vstd::seq_lib::to_multiset_contains(v, t);
        assert(v.contains(t));
        lemma_contains_pos(v, t);
    }
}

/// Whether a todo is ticked off.
pub open spec fn ticked() -> spec_fn(Todo) -> bool {
    |t: Todo| t.done
}

proof fn lemma_done_count_ticked(s: Seq<Todo>)
    ensures
        done_count(s) == s.filter(ticked()).len(),
    decreases s.len(),
{
    reveal(Seq::filter);
    if s.len() > 0 {
        lemma_done_count_ticked(s.drop_last());
    }
}

/// The list's header counts what is done: before the slash stands the
/// number of ticked todos on the list, after it the number of todos, then
/// the sort order and the theme.
pub proof fn law_header_counts_ticked(s: AppState)
    requires
        s.page == Page::List,
    ensures
        header_right(s) == decimal(s.todos.filter(ticked()).len()) + "/"@ + decimal(s.todos.len())
            + " \u{b7} "@ + s.sort.spec_name() + " \u{b7} "@ + s.theme.spec_name(),
{
    lemma_done_count_ticked(s.todos);
}

/// Changing the sort order keeps the same todos and keeps the selection on
/// the todo that was selected.
pub proof fn law_sort_keeps_selection(s: AppState)
    requires
        0 <= s.sel < s.todos.len(),
    ensures
        ({
            let n = s.cycle_sort().0;
            &&& n.todos.to_multiset() == s.todos.to_multiset()
            &&& 0 <= n.sel < n.todos.len()
            &&& n.todos[n.sel].id == s.todos[s.sel].id
        }),
{
    broadcast use vstd::multiset::group_multiset_axioms;

    let t = s.todos[s.sel];
    let v = insertion_sorted(s.todos, order_of(s.sort.next_spec()));
    crate::model::lemma_insertion_sorted_multiset(s.todos, order_of(s.sort.next_spec()));
    assert(s.todos.contains(t));
    vstd::seq_lib::to_multiset_contains(s.todos, t);
    vstd::seq_lib::to_multiset_contains(v, t);
    lemma_contains_pos(v, t);
}

/// Answering the due prompt with a date sets the selected todo's due date
/// to it, and answering with a word that clears it (`-`, `none`, `clear`
/// or nothing) leaves the todo without one; nothing else of the todo
/// changes, the list keeps its todos and the selection stays on it.
pub proof fn law_due_answer_sets_due(
    s: AppState,
    i: Seq<char>,
    now: Stamp,
    today: int,
    next: AppState,
    eff: Effect,
)
    requires
        s.answered(Ask::EditDue, Some(i), now, today, next, eff),
        0 <= s.sel < s.todos.len(),
        (parse_due_spec(i, today) is Ok),
    ensures
        eff == Effect::SaveStore,
        next.history == s.history,
        (exists|u: Todo|
            #![trigger s.todos.update(s.sel, u)]
            u == (Todo { due: u.due, ..s.todos[s.sel] }) && (match parse_due_spec(i, today) {
                Ok(Some(x)) => u.due matches Some(y) && y@ == x,
                _ => u.due is None,
            }) && next.todos.to_multiset() == s.todos.update(s.sel, u).to_multiset()),
        0 <= next.sel < next.todos.len(),
        next.todos[next.sel].id == s.todos[s.sel].id,
{
    broadcast use vstd::multiset::group_multiset_axioms;

    let t = s.todos[s.sel];
    let u = choose|u: Todo|
        #![trigger s.todos.update(s.sel, u)]
        u == Todo { due: u.due, ..t } && (match u.due {
            Some(x) => parse_due_spec(i, today)->Ok_0 == Some(x@),
            None => parse_due_spec(i, today)->Ok_0 is None,
        }) && next == AppState { todos: s.todos.update(s.sel, u), ..s }.resort_keeping(t.id);
    let w = s.todos.update(s.sel, u);
    let v = insertion_sorted(w, order_of(s.sort));
    crate::model::lemma_insertion_sorted_multiset(w, order_of(s.sort));
    assert(w[s.sel] == u);
    assert(w.contains(u));
    vstd::seq_lib::to_multiset_contains(w, u);
    vstd::seq_lib::to_multiset_contains(v, u);
    lemma_contains_pos(v, u);
}

/// `:q` and `:quit`, in any mix of upper and lower case and with white
/// space around them, close the program and change nothing else.
pub proof fn law_colon_q_quits(
    s: AppState,
    input: Seq<char>,
    now: Stamp,
    today: int,
    next: AppState,
    eff: Effect,
)
    requires
        s.answered(Ask::Command, Some(input), now, today, next, eff),
        ({
            let t = trim(input);
            ||| t.len() == 1 && (t[0] == 'q' || t[0] == 'Q')
            ||| t.len() == 4 && (t[0] == 'q' || t[0] == 'Q') && (t[1] == 'u' || t[1] == 'U') && (
            t[2] == 'i' || t[2] == 'I') && (t[3] == 't' || t[3] == 'T')
        }),
    ensures
        next == (AppState { quit: true, ..s }),
        eff == Effect::Nothing,
{
    let t = trim(input);
    reveal_strlit("q");
    reveal_strlit("quit");
    if t.len() == 1 {
        assert(eq_ignore_ascii_case(t, "q"@));
    } else {
        assert(eq_ignore_ascii_case(t, "quit"@));
    }
}

} // verus!
