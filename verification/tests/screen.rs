use chrono::Datelike;
use td::config::{Config, Sort, Theme};
use td::date::Date;
use td::key::{Key, KeyCode};
use td::model::{Store, Todo};
use td::project::{Project, Projects};
use td::stamp::Stamp;
use td::ui::{
    is_overdue, item_right_text, palette, project_right_text, App, Ask, Effect, Page, Palette, Row,
};

fn stamp() -> Stamp {
    Stamp {
        secs: 1_780_000_000,
        nanos: 0,
        offset: 0,
    }
}

fn day(y: i32, m: u32, d: u32) -> Date {
    let n = chrono::NaiveDate::from_ymd_opt(y, m, d).unwrap();
    Date::from_days(n.num_days_from_ce() as i64).unwrap()
}

fn app_with(titles: &[&str]) -> App {
    let mut s = Store::new("/dev/null");
    for (i, t) in titles.iter().enumerate() {
        let mut todo = Todo::new(i as u64, (*t).into());
        todo.created = Stamp {
            secs: stamp().secs + i as i64,
            ..stamp()
        };
        s.todos.push(todo);
        s.next_id = i as u64 + 1;
    }
    App::new(s, Projects::new("/dev/null"), Config::default())
}

fn key(a: &mut App, c: char) -> Effect {
    a.on_key_at(Key::plain(KeyCode::Char(c)), stamp())
}

fn titles(v: &[Todo]) -> Vec<&str> {
    v.iter().map(|t| t.title.as_str()).collect()
}

#[test]
fn movement_stays_on_the_page() {
    let mut a = app_with(&["a", "b", "c"]);
    key(&mut a, 'k');
    assert_eq!(a.sel, 0);
    key(&mut a, 'j');
    key(&mut a, 'j');
    key(&mut a, 'j');
    assert_eq!(a.sel, 2);
    key(&mut a, 'g');
    assert_eq!(a.sel, 0);
    key(&mut a, 'G');
    assert_eq!(a.sel, 2);
}

#[test]
fn space_ticks_and_unticks_and_asks_for_a_save() {
    let mut a = app_with(&["a"]);
    assert_eq!(key(&mut a, ' '), Effect::SaveStore);
    assert!(a.store.todos[0].done);
    assert_eq!(a.store.todos[0].completed, Some(stamp()));
    assert_eq!(key(&mut a, ' '), Effect::SaveStore);
    assert!(!a.store.todos[0].done);
    assert_eq!(a.store.todos[0].completed, None);
}

#[test]
fn delete_then_undo_puts_the_todo_back() {
    let mut a = app_with(&["a", "b", "c"]);
    key(&mut a, 'j');
    assert_eq!(key(&mut a, 'x'), Effect::SaveStore);
    assert_eq!(titles(&a.store.todos), ["a", "c"]);
    assert_eq!(a.status.as_deref(), Some("deleted \u{201c}b\u{201d} \u{2014} u to undo"));
    assert_eq!(key(&mut a, 'u'), Effect::SaveStore);
    assert_eq!(titles(&a.store.todos), ["a", "b", "c"]);
    assert_eq!(a.sel, 1);
    assert_eq!(key(&mut a, 'u'), Effect::Nothing);
    assert_eq!(a.status.as_deref(), Some("nothing to undo"));
}

#[test]
fn filing_and_restoring_move_between_list_and_history() {
    let mut a = app_with(&["a", "b"]);
    assert_eq!(key(&mut a, 'a'), Effect::SaveStore);
    assert_eq!(titles(&a.store.todos), ["b"]);
    assert_eq!(titles(&a.store.history), ["a"]);
    assert_eq!(a.status.as_deref(), Some("\u{201c}a\u{201d} filed to history"));
    key(&mut a, 'h');
    assert_eq!(a.page, Page::History);
    assert_eq!(key(&mut a, ' '), Effect::Nothing);
    assert_eq!(
        a.status.as_deref(),
        Some("history is read-only \u{2014} a restores, h goes back")
    );
    assert_eq!(key(&mut a, 'a'), Effect::SaveStore);
    assert!(a.store.history.is_empty());
    assert_eq!(titles(&a.store.todos), ["a", "b"]);
    assert!(a.store.todos.iter().all(|t| !t.done && t.archived.is_none()));
    a.on_key_at(Key::plain(KeyCode::Esc), stamp());
    assert_eq!(a.page, Page::List);
}

#[test]
fn help_swallows_the_next_key() {
    let mut a = app_with(&["a", "b"]);
    key(&mut a, '?');
    assert!(a.help);
    key(&mut a, 'j');
    assert!(!a.help);
    assert_eq!(a.sel, 0, "the key that dismisses help does nothing else");
}

#[test]
fn ctrl_c_and_q_quit() {
    let mut a = app_with(&[]);
    a.on_key_at(Key::ctrl(KeyCode::Char('c')), stamp());
    assert!(a.quit);
    let mut b = app_with(&[]);
    key(&mut b, 'q');
    assert!(b.quit);
}

#[test]
fn the_command_line_sweeps_on_the_phrase() {
    let mut a = app_with(&["a", "b"]);
    key(&mut a, ' ');
    assert_eq!(key(&mut a, ':'), Effect::Ask(Ask::Command));
    let eff = a.answer_at(Ask::Command, Some("  MORNING ".into()), stamp(), day(2026, 1, 1));
    assert_eq!(eff, Effect::SaveStore);
    assert_eq!(titles(&a.store.todos), ["b"]);
    assert_eq!(titles(&a.store.history), ["a"]);
    assert_eq!(a.status.as_deref(), Some("1 todo swept to history"));

    let eff = a.answer_at(Ask::Command, Some("morning".into()), stamp(), day(2026, 1, 1));
    assert_eq!(eff, Effect::Nothing);
    assert_eq!(a.status.as_deref(), Some("nothing ticked off to sweep"));

    a.answer_at(Ask::Command, Some("dance".into()), stamp(), day(2026, 1, 1));
    assert_eq!(a.status.as_deref(), Some("unknown command \u{2014} try :morning"));

    a.answer_at(Ask::Command, Some("Quit".into()), stamp(), day(2026, 1, 1));
    assert!(a.quit);
}

#[test]
fn new_todos_and_edits_keep_the_selection_on_them() {
    let mut a = app_with(&["b"]);
    a.on_key_at(Key::plain(KeyCode::Char('s')), stamp());
    a.on_key_at(Key::plain(KeyCode::Char('s')), stamp());
    assert_eq!(a.cfg.sort, Sort::Alpha);
    assert_eq!(a.status.as_deref(), Some("sorting by alpha"));
    assert_eq!(key(&mut a, 'o'), Effect::Ask(Ask::NewTodo));
    let eff = a.answer_at(Ask::NewTodo, Some("  a  ".into()), stamp(), day(2026, 1, 1));
    assert_eq!(eff, Effect::SaveStore);
    assert_eq!(titles(&a.store.todos), ["a", "b"]);
    assert_eq!(a.sel, 0);
    assert_eq!(a.store.todos[0].id, 2);

    assert_eq!(key(&mut a, 'e'), Effect::Ask(Ask::EditTitle));
    assert_eq!(a.question(Ask::EditTitle), ("title\u{25b8} ".to_string(), "a".to_string()));
    a.answer_at(Ask::EditTitle, Some("z".into()), stamp(), day(2026, 1, 1));
    assert_eq!(titles(&a.store.todos), ["b", "z"]);
    assert_eq!(a.sel, 1);

    a.answer_at(Ask::EditDetails, Some(" more ".into()), stamp(), day(2026, 1, 1));
    assert_eq!(a.store.todos[1].details, "more");
    assert!(a.store.todos[1].expanded);

    let eff = a.answer_at(Ask::EditDue, Some("soon".into()), stamp(), day(2026, 1, 1));
    assert_eq!(eff, Effect::Nothing);
    assert_eq!(
        a.status.as_deref(),
        Some("try: today, tomorrow, +3d, 2w, 12-25, 2026-12-25, or - to clear")
    );
    let eff = a.answer_at(Ask::EditDue, Some("+2d".into()), stamp(), day(2026, 1, 1));
    assert_eq!(eff, Effect::SaveStore);
    assert_eq!(a.store.todos[1].due, Some(day(2026, 1, 3)));
    assert_eq!(a.question(Ask::EditDue).1, "2026-01-03");

    let eff = a.answer_at(Ask::NewTodo, None, stamp(), day(2026, 1, 1));
    assert_eq!(eff, Effect::Nothing);
    let eff = a.answer_at(Ask::NewTodo, Some("   ".into()), stamp(), day(2026, 1, 1));
    assert_eq!(eff, Effect::Nothing);
    assert_eq!(a.store.todos.len(), 2);
}

#[test]
fn projects_are_made_renamed_logged_and_deleted() {
    let mut a = app_with(&[]);
    key(&mut a, '2');
    assert_eq!(a.page, Page::Projects);
    assert_eq!(key(&mut a, 'o'), Effect::Ask(Ask::NewProject));
    let eff = a.answer_at(Ask::NewProject, Some(" td ".into()), stamp(), day(2026, 1, 1));
    assert_eq!(eff, Effect::SaveProjects);
    assert_eq!(a.projects.items[0].name, "td");
    assert_eq!(a.projects.items[0].log, "");
    assert_eq!(key(&mut a, 'e'), Effect::Ask(Ask::RenameProject));
    a.answer_at(Ask::RenameProject, Some("td rewrite".into()), stamp(), day(2026, 1, 1));
    assert_eq!(a.projects.items[0].name, "td rewrite");

    assert_eq!(a.on_key_at(Key::plain(KeyCode::Enter), stamp()), Effect::OpenLog);
    let later = Stamp {
        secs: stamp().secs + 60,
        ..stamp()
    };
    assert_eq!(a.logged_at(Some("day one".into()), later), Effect::SaveProjects);
    assert_eq!(a.projects.items[0].log, "day one");
    assert_eq!(a.projects.items[0].updated, later);
    assert_eq!(a.status.as_deref(), Some("\u{201c}td rewrite\u{201d} logged"));
    assert_eq!(a.logged_at(Some("day one".into()), stamp()), Effect::Nothing);
    assert_eq!(a.projects.items[0].updated, later, "no change, no new stamp");

    assert_eq!(key(&mut a, 'x'), Effect::SaveProjects);
    assert!(a.projects.items.is_empty());
    assert_eq!(key(&mut a, 'u'), Effect::SaveProjects);
    assert_eq!(a.projects.items[0].name, "td rewrite");
}

#[test]
fn enter_on_a_todo_without_details_says_so() {
    let mut a = app_with(&["a"]);
    a.on_key_at(Key::plain(KeyCode::Enter), stamp());
    assert_eq!(a.status.as_deref(), Some("no details \u{2014} press d to add some"));
    a.store.todos[0].details = "x".into();
    a.on_key_at(Key::plain(KeyCode::Enter), stamp());
    assert!(a.store.todos[0].expanded);
}

#[test]
fn rows_wrap_open_details_under_their_todo() {
    let mut a = app_with(&["a", "b"]);
    a.store.todos[0].details = "one two three".into();
    a.store.todos[0].expanded = true;
    let rows = a.rows(7 + 7);
    let shape: Vec<String> = rows
        .iter()
        .map(|r| match r {
            Row::Item(i) => format!("item {i}"),
            Row::Detail(i, l) => format!("{i}: {l}"),
        })
        .collect();
    assert_eq!(shape, ["item 0", "0: one two", "0: three", "item 1"]);

    a.sel = 1;
    a.update_scroll(&rows, 2);
    assert_eq!(a.scroll, 2);
    a.sel = 0;
    a.update_scroll(&rows, 2);
    assert_eq!(a.scroll, 0);
}

#[test]
fn header_footer_and_help_follow_the_page() {
    let mut a = app_with(&["a", "b"]);
    key(&mut a, ' ');
    assert_eq!(a.header_right(), "1/2 \u{b7} created \u{b7} dark");
    assert_eq!(a.footer_text(), "j/k move \u{b7} space done \u{b7} o new \u{b7} t due \u{b7} a file \u{b7} h history \u{b7} ? help");
    key(&mut a, 'm');
    assert_eq!(a.cfg.theme, Theme::Light);
    key(&mut a, '2');
    assert_eq!(a.header_right(), "0 logged \u{b7} light");
    assert_eq!(a.empty_text(), "no projects yet - press o to start one");
    let help = a.help_keys();
    assert_eq!(help.len(), 12);
    assert_eq!(help[3], ("enter".to_string(), "open the log in the editor".to_string()));
    assert_eq!(
        help[9],
        (":".to_string(), "type :morning to sweep ticked todos to history".to_string())
    );
}

#[test]
fn right_columns_say_when() {
    let today = day(2026, 3, 10);
    let mut t = Todo::new(0, "x".into());
    assert_eq!(item_right_text(&t, false, today), "");
    t.due = Some(day(2026, 3, 9));
    assert_eq!(item_right_text(&t, false, today), "yesterday");
    assert!(is_overdue(&t, false, today));
    assert!(!is_overdue(&t, true, today));
    t.done = true;
    assert!(!is_overdue(&t, false, today));
    let noon = chrono::NaiveDate::from_ymd_opt(2026, 3, 8)
        .unwrap()
        .and_hms_opt(12, 0, 0)
        .unwrap()
        .and_utc()
        .timestamp();
    t.completed = Some(Stamp {
        secs: noon,
        nanos: 0,
        offset: 0,
    });
    assert_eq!(item_right_text(&t, true, today), "2d ago");

    let mut p = Project::new(0, "p".into());
    assert_eq!(project_right_text(&p, today), "empty");
    p.log = "entry".into();
    p.updated = Stamp {
        secs: noon,
        nanos: 0,
        offset: 0,
    };
    assert_eq!(project_right_text(&p, today), "2d ago");
}

#[test]
fn palettes_are_256_colour_indices() {
    assert_eq!(
        palette(Theme::Dark),
        Palette {
            bg: 234,
            fg: 252,
            dim: 243,
            accent: 110,
            done: 108,
            overdue: 174,
            sel: 237,
        }
    );
    assert_eq!(palette(Theme::Light).accent, 25);
}

#[test]
fn save_failures_land_on_the_status_line() {
    let mut a = app_with(&[]);
    a.save_failed("disk full");
    assert_eq!(a.status.as_deref(), Some("could not save: disk full"));
}

#[test]
fn moments_past_the_calendar_show_no_age() {
    let today = day(2026, 3, 10);
    let last = chrono::DateTime::<chrono::Utc>::MAX_UTC.timestamp();
    let mut t = Todo::new(0, "far".into());
    t.archived = Some(Stamp {
        secs: last,
        nanos: 0,
        offset: 3600,
    });
    assert_eq!(item_right_text(&t, true, today), "");
    t.archived = Some(Stamp {
        secs: last,
        nanos: 0,
        offset: 0,
    });
    assert_ne!(item_right_text(&t, true, today), "");
}

#[test]
fn undo_still_works_after_a_look_at_history() {
    let mut a = app_with(&["a", "b", "c"]);
    key(&mut a, 'j');
    key(&mut a, 'x');
    assert_eq!(titles(&a.store.todos), ["a", "c"]);
    key(&mut a, 'h');
    assert_eq!(a.page, Page::History);
    assert_eq!(key(&mut a, 'u'), Effect::SaveStore);
    assert_eq!(titles(&a.store.todos), ["a", "b", "c"]);
    assert!(a.store.history.is_empty());
    key(&mut a, 'h');
    assert_eq!(a.page, Page::List);
    key(&mut a, 'j');
    key(&mut a, 'x');
    key(&mut a, 'h');
    key(&mut a, 'h');
    assert_eq!(key(&mut a, 'u'), Effect::SaveStore);
    assert_eq!(titles(&a.store.todos), ["a", "b", "c"]);
    assert_eq!(a.store.todos[a.sel].title, "b");
}
