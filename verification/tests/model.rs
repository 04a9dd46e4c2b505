use chrono::Datelike;
use td::config::Sort;
use td::date::Date;
use td::model::{escape, tmp_path, unescape, Store, Todo};
use td::stamp::Stamp;

fn store() -> Store {
    Store::new("/dev/null")
}

/// This machine's clock now, as a stamp.
fn now() -> Stamp {
    let n = chrono::Local::now();
    Stamp {
        secs: n.timestamp(),
        nanos: n.timestamp_subsec_nanos(),
        offset: n.offset().local_minus_utc(),
    }
}

fn days_ago(days: i64) -> Stamp {
    let n = now();
    Stamp {
        secs: n.secs - days * 86_400,
        ..n
    }
}

fn ymd(y: i32, m: u32, d: u32) -> Option<Date> {
    chrono::NaiveDate::from_ymd_opt(y, m, d)
        .map(|x| Date::from_days(x.num_days_from_ce() as i64).unwrap())
}

#[test]
fn escape_round_trips_awkward_text() {
    for s in [
        "plain",
        "tab\there",
        "two\nlines",
        "back\\slash",
        "\\t literal",
        "",
    ] {
        assert_eq!(unescape(&escape(s)), s);
    }
}

#[test]
fn todo_round_trips_through_a_line() {
    let mut t = Todo::new(0, "Buy milk".into());
    t.details = "oat milk\tif they have it\nelse skip".into();
    t.due = ymd(2026, 12, 25);
    t.done = true;
    t.completed = Some(now());
    t.archived = Some(now());

    let line = t.encode();
    assert_eq!(
        line.matches('\t').count(),
        6,
        "fields must stay tab-delimited"
    );

    let back = Todo::decode(&line, 0).expect("should decode");
    assert_eq!(back.title, t.title);
    assert_eq!(back.details, t.details);
    assert_eq!(back.due, t.due);
    assert_eq!(back.done, t.done);
    assert_eq!(back.created.timestamp(), t.created.timestamp());
    assert_eq!(
        back.completed.unwrap().timestamp(),
        t.completed.unwrap().timestamp()
    );
    assert_eq!(
        back.archived.unwrap().timestamp(),
        t.archived.unwrap().timestamp()
    );
}

#[test]
fn reads_files_written_before_history_existed() {
    let old = "1\t2026-07-16T11:00:00-07:00\t2026-12-25\tBuy milk\tsome details";
    let t = Todo::decode(old, 0).expect("old 5-field line should still load");
    assert_eq!(t.title, "Buy milk");
    assert_eq!(t.details, "some details");
    assert!(t.done);
    assert_eq!(t.completed, None);
    assert_eq!(t.archived, None, "old todos must land in the live list");
}

#[test]
fn decode_rejects_junk_without_panicking() {
    for line in ["", "garbage", "1\tnot-a-date\t-\ttitle\t", "1"] {
        assert!(
            Todo::decode(line, 0).is_none(),
            "{line:?} should not decode"
        );
    }
}

#[test]
fn sweep_moves_only_ticked_todos() {
    let mut s = store();
    for (i, title) in ["alpha", "beta", "gamma"].iter().enumerate() {
        s.todos.push(Todo::new(i as u64, (*title).into()));
    }
    s.todos[1].done = true;
    s.todos[1].completed = Some(now());

    assert_eq!(s.sweep(), 1);
    assert_eq!(s.todos.len(), 2);
    assert_eq!(s.history.len(), 1);
    assert_eq!(s.history[0].title, "beta");
    assert!(s.history[0].archived.is_some());
    assert_eq!(
        s.todos.iter().map(|t| t.title.as_str()).collect::<Vec<_>>(),
        ["alpha", "gamma"],
        "surviving todos keep their order"
    );
}

#[test]
fn sweep_is_a_no_op_when_nothing_is_ticked() {
    let mut s = store();
    s.todos.push(Todo::new(0, "alpha".into()));
    assert_eq!(s.sweep(), 0);
    assert_eq!(s.todos.len(), 1);
    assert!(s.history.is_empty());
}

#[test]
fn archive_keeps_the_completion_date_not_the_sweep_date() {
    let mut s = store();
    let mut t = Todo::new(0, "finished yesterday".into());
    let yesterday = days_ago(1);
    t.done = true;
    t.completed = Some(yesterday);
    s.todos.push(t);

    s.sweep();
    assert_eq!(
        s.history[0].archived.unwrap().timestamp(),
        yesterday.timestamp()
    );
}

#[test]
fn manual_archive_files_an_unticked_todo() {
    let mut s = store();
    s.todos.push(Todo::new(0, "not doing this".into()));
    assert_eq!(s.archive(0), Some(0));
    assert_eq!(s.history.len(), 1);
    assert!(
        s.history[0].filed_at().is_some(),
        "must be datable in history"
    );
}

#[test]
fn restore_brings_it_back_unticked_so_the_next_sweep_leaves_it_alone() {
    let mut s = store();
    let mut t = Todo::new(0, "again".into());
    t.done = true;
    t.completed = Some(now());
    s.todos.push(t);
    s.sweep();

    assert_eq!(s.restore(0, Sort::Created), Some(0));
    assert!(s.history.is_empty());
    assert_eq!(s.todos.len(), 1);
    assert!(!s.todos[0].done);
    assert_eq!(s.todos[0].completed, None);
    assert_eq!(
        s.sweep(),
        0,
        "restored todo must not be swept straight back"
    );
}

#[test]
fn history_reads_newest_first() {
    let mut s = store();
    for (i, days) in [3i64, 1, 2].iter().enumerate() {
        let mut t = Todo::new(i as u64, format!("{days} days ago"));
        t.done = true;
        t.completed = Some(days_ago(*days));
        s.todos.push(t);
    }
    s.sweep();
    assert_eq!(
        s.history
            .iter()
            .map(|t| t.title.as_str())
            .collect::<Vec<_>>(),
        ["1 days ago", "2 days ago", "3 days ago"]
    );
}

#[test]
fn store_text_reads_back_as_list_and_history() {
    let mut s = store();
    for (i, title) in ["one", "two\twith tab", "three"].iter().enumerate() {
        s.todos.push(Todo::new(i as u64, (*title).into()));
    }
    s.todos[0].details = "line\nbreak".into();
    assert_eq!(s.archive(1), Some(1));
    let text = s.render();
    assert_eq!(text.lines().count(), 3);

    let back = Store::from_text(&text, "/tmp/todos.txt");
    assert_eq!(back.path(), "/tmp/todos.txt");
    assert_eq!(
        back.todos.iter().map(|t| t.title.as_str()).collect::<Vec<_>>(),
        ["one", "three"]
    );
    assert_eq!(back.todos[0].details, "line\nbreak");
    assert_eq!(back.history.len(), 1);
    assert_eq!(back.history[0].title, "two\twith tab");
    assert_eq!(back.last_handle(), 3);
}

#[test]
fn from_text_skips_blank_and_broken_lines() {
    let text = "\n   \ngarbage\n0\t2026-07-16T11:00:00-07:00\t-\tkept\r\n";
    let s = Store::from_text(text, "x");
    assert_eq!(s.todos.len(), 1);
    assert_eq!(s.todos[0].title, "kept");
    assert_eq!(s.todos[0].due, None);
    assert_eq!(s.last_handle(), 1);
}

#[test]
fn sorting_by_due_puts_undated_last_and_keeps_ties_in_creation_order() {
    let mut s = store();
    let base = now();
    for (i, (title, due)) in [
        ("later", ymd(2030, 1, 2)),
        ("undated", None),
        ("soon", ymd(2030, 1, 1)),
        ("also later", ymd(2030, 1, 2)),
    ]
    .iter()
    .enumerate()
    {
        let mut t = Todo::new(i as u64, (*title).into());
        t.created = Stamp {
            secs: base.secs + i as i64,
            ..base
        };
        t.due = *due;
        s.todos.push(t);
    }
    s.sort(Sort::Due);
    assert_eq!(
        s.todos.iter().map(|t| t.title.as_str()).collect::<Vec<_>>(),
        ["soon", "later", "also later", "undated"]
    );
    s.sort(Sort::Alpha);
    assert_eq!(
        s.todos.iter().map(|t| t.title.as_str()).collect::<Vec<_>>(),
        ["also later", "later", "soon", "undated"]
    );
    s.sort(Sort::Created);
    assert_eq!(
        s.todos.iter().map(|t| t.id).collect::<Vec<_>>(),
        [0, 1, 2, 3]
    );
}

#[test]
fn alpha_sort_ignores_case() {
    let mut s = store();
    for (i, title) in ["banana", "Apple", "cherry"].iter().enumerate() {
        s.todos.push(Todo::new(i as u64, (*title).into()));
    }
    s.sort(Sort::Alpha);
    assert_eq!(
        s.todos.iter().map(|t| t.title.as_str()).collect::<Vec<_>>(),
        ["Apple", "banana", "cherry"]
    );
}

#[test]
fn handles_are_fresh_and_findable() {
    let mut s = store();
    let a = s.next_id();
    let b = s.next_id();
    assert_eq!((a, b), (1, 2));
    s.todos.push(Todo::new(a, "a".into()));
    s.push_history(Todo::new(b, "b".into()));
    assert_eq!(s.index_of(a), Some(0));
    assert_eq!(s.index_of(b), None);
    assert_eq!(s.history_index_of(b), Some(0));
}

#[test]
fn tmp_path_sits_next_to_the_file() {
    assert_eq!(tmp_path("/a/b/todos.txt"), "/a/b/todos.txt.tmp");
    assert_eq!(tmp_path("todos.txt"), "todos.txt.tmp");
}

#[test]
fn escape_writes_backslash_sequences() {
    assert_eq!(escape("a\tb\nc\\"), "a\\tb\\nc\\\\");
    assert_eq!(unescape("x\\qy\\"), "xqy\\");
}

#[test]
fn sorting_a_sorted_list_changes_nothing() {
    let mut s = store();
    for (i, title) in ["b", "a", "b", "c", "a"].iter().enumerate() {
        s.todos.push(Todo::new(i as u64, (*title).into()));
    }
    s.sort(Sort::Alpha);
    let once: Vec<u64> = s.todos.iter().map(|t| t.id).collect();
    assert_eq!(once, [1, 4, 0, 2, 3], "equal titles keep their order");
    s.sort(Sort::Alpha);
    let twice: Vec<u64> = s.todos.iter().map(|t| t.id).collect();
    assert_eq!(once, twice);
}

#[test]
fn leap_second_moments_round_trip() {
    let leap = Stamp {
        secs: 1_483_228_799,
        nanos: 1_500_000_000,
        offset: 3600,
    };
    let mut t = Todo::new(0, "leap".into());
    t.created = leap;
    t.done = true;
    t.completed = Some(leap);
    let line = t.encode();
    assert!(line.contains(":60"), "chrono writes the leap second as 60: {line}");
    let back = Todo::decode(&line, 7).expect("should decode");
    assert_eq!((back.created.secs, back.created.nanos), (leap.secs, leap.nanos));
    let c = back.completed.expect("completion should read back");
    assert_eq!((c.secs, c.nanos), (leap.secs, leap.nanos));
    assert_eq!(back.id, 7);
}

#[test]
fn from_text_numbers_todos_in_file_order() {
    let text = "0\t2026-07-16T11:00:00+00:00\t-\ta\n\
                junk\n\
                0\t2026-07-16T11:00:00+00:00\t-\tb\t\t2026-07-17T11:00:00+00:00\t2026-07-18T11:00:00+00:00\n\
                0\t2026-07-16T11:00:00+00:00\t-\tc\n";
    let s = Store::from_text(text, "x");
    assert_eq!(s.todos.iter().map(|t| (t.id, t.title.as_str())).collect::<Vec<_>>(), [(0, "a"), (2, "c")]);
    assert_eq!(s.history.len(), 1);
    assert_eq!((s.history[0].id, s.history[0].title.as_str()), (1, "b"));
    assert_eq!(s.last_handle(), 3);
}
