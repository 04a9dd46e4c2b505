use td::config::{config_path_from, data_path_from, projects_path, Config, Sort, Theme};
use td::key::{Key, KeyCode};
use td::layout::{truncate, wrap};
use td::project::{Project, Projects};
use td::prompt::{Prompt, PromptStep};
use td::stamp::Stamp;
use td::text::is_whitespace;

#[test]
fn whitespace_agrees_with_std_on_every_char() {
    for c in (0u32..=0x10FFFF).filter_map(char::from_u32) {
        assert_eq!(is_whitespace(c), c.is_whitespace(), "{:?}", c);
    }
}

#[test]
fn truncate_keeps_what_fits_and_marks_what_does_not() {
    assert_eq!(truncate("hello", 0), "");
    assert_eq!(truncate("hello", 5), "hello");
    assert_eq!(truncate("hello", 4), "hel\u{2026}");
    assert_eq!(truncate("h\u{e9}llo w\u{f6}rld", 6), "h\u{e9}llo\u{2026}");
    assert_eq!(truncate("", 3), "");
}

#[test]
fn wrap_fills_lines_greedily_and_keeps_newlines() {
    assert_eq!(wrap("one two three", 7), ["one two", "three"]);
    assert_eq!(wrap("a\n\nb", 10), ["a", "", "b"]);
    assert_eq!(wrap("abcdefghij", 4), ["abcd", "efgh", "ij"]);
    assert_eq!(wrap("  spaced   out  ", 20), ["spaced out"]);
    assert_eq!(wrap("", 5), [""]);
    assert!(wrap("anything", 0).is_empty());
    for line in wrap("the quick brown fox jumps over the lazy dog", 6) {
        assert!(line.chars().count() <= 6);
    }
}

fn typed(p: &mut Prompt, s: &str) {
    for c in s.chars() {
        p.on_key(Key::plain(KeyCode::Char(c)));
    }
}

#[test]
fn prompt_edits_at_the_cursor() {
    let mut p = Prompt::new("title\u{25b8} ", "ac");
    assert_eq!(p.cursor(), 2);
    p.on_key(Key::plain(KeyCode::Left));
    typed(&mut p, "b");
    assert_eq!(p.text(), "abc");
    assert_eq!(p.cursor(), 2);
    p.on_key(Key::plain(KeyCode::Home));
    p.on_key(Key::plain(KeyCode::Delete));
    assert_eq!(p.text(), "bc");
    p.on_key(Key::plain(KeyCode::Backspace));
    assert_eq!(p.text(), "bc", "backspace at the start does nothing");
    p.on_key(Key::ctrl(KeyCode::Char('e')));
    assert_eq!(p.cursor(), 2);
    p.on_key(Key::plain(KeyCode::Right));
    assert_eq!(p.cursor(), 2);
    assert_eq!(p.on_key(Key::plain(KeyCode::Enter)), PromptStep::Submit);
    assert_eq!(p.on_key(Key::plain(KeyCode::Esc)), PromptStep::Cancel);
    assert_eq!(p.on_key(Key::ctrl(KeyCode::Char('c'))), PromptStep::Cancel);
    assert_eq!(p.prefix(), "title\u{25b8} ");
}

#[test]
fn ctrl_w_deletes_the_word_before_the_cursor() {
    let mut p = Prompt::new(":", "buy oat milk  ");
    p.delete_word();
    assert_eq!(p.text(), "buy oat ");
    assert_eq!(p.cursor(), 8);
    p.on_key(Key::ctrl(KeyCode::Char('w')));
    assert_eq!(p.text(), "buy ");
    p.on_key(Key::ctrl(KeyCode::Char('u')));
    assert_eq!(p.text(), "");
    assert_eq!(p.cursor(), 0);
}

#[test]
fn config_reads_what_it_writes() {
    let c = Config {
        theme: Theme::Light,
        sort: Sort::Due,
        phrase: "rise and shine".into(),
    };
    let text = c.render();
    assert_eq!(text, "theme=light\nsort=due\nphrase=rise and shine\n");
    let back = Config::parse(&text);
    assert_eq!(back.theme, Theme::Light);
    assert_eq!(back.sort, Sort::Due);
    assert_eq!(back.phrase, "rise and shine");
}

#[test]
fn config_ignores_what_it_does_not_know() {
    let c = Config::parse("# comment\ntheme = light\nsort=sideways\nphrase=\nbogus\n");
    assert_eq!(c.theme, Theme::Light);
    assert_eq!(c.sort, Sort::Created);
    assert_eq!(c.phrase, "morning");
    let d = Config::default();
    assert_eq!((d.theme, d.sort, d.phrase.as_str()), (Theme::Dark, Sort::Created, "morning"));
}

#[test]
fn theme_and_sort_cycle() {
    assert_eq!(Theme::Dark.toggle(), Theme::Light);
    assert_eq!(Theme::Light.toggle().name(), "dark");
    assert_eq!(Sort::Created.next(), Sort::Due);
    assert_eq!(Sort::Due.next().name(), "alpha");
    assert_eq!(Sort::Alpha.next(), Sort::Created);
}

#[test]
fn projects_live_next_to_the_todos() {
    assert_eq!(
        projects_path("/home/u/.local/share/td/todos.txt"),
        "/home/u/.local/share/td/projects.txt"
    );
}

#[test]
fn projects_read_back_from_their_file() {
    let mut ps = Projects::new("/tmp/projects.txt");
    let id = ps.next_id();
    let mut p = Project::new(id, "td\trewrite".into());
    p.log = "line one\nline two\\".into();
    p.updated = Stamp {
        secs: 1_780_000_000,
        nanos: 5,
        offset: 3600,
    };
    ps.items.push(p);
    ps.items.push(Project::new(2, "  spaced ".into()));
    let text = ps.render();
    assert_eq!(text.lines().count(), 2);
    let back = Projects::from_text(&text, "/tmp/projects.txt");
    assert_eq!(back.items.len(), 2);
    assert_eq!(back.items[0].name, "td\trewrite");
    assert_eq!(back.items[0].log, "line one\nline two\\");
    assert_eq!(back.items[0].updated.timestamp(), 1_780_000_000);
    assert_eq!(back.items[1].name, "  spaced ");
    assert_eq!(back.items[1].log, "");
    assert_eq!((back.items[0].id, back.items[1].id), (0, 1));
    assert_eq!(back.next_id, 2);
    assert_eq!(back.index_of(1), Some(1));
}

#[test]
fn project_lines_that_do_not_read_are_skipped() {
    let back = Projects::from_text("junk\n\nname\tlog\tnot a time\n", "p");
    assert!(back.items.is_empty());
}

#[test]
fn readme_config_block_reads_with_its_comments() {
    let c = Config::parse(
        "theme=dark        # dark | light\nsort=created      # created | due | alpha\nphrase=morning    # what you type after : to sweep ticked todos to history\n",
    );
    assert_eq!(c.theme, Theme::Dark);
    assert_eq!(c.sort, Sort::Created);
    assert_eq!(c.phrase, "morning");
    let l = Config::parse("theme = light # not dark\nsort=due#tight\nphrase=rise and shine  # two words\n");
    assert_eq!(l.theme, Theme::Light);
    assert_eq!(l.sort, Sort::Due);
    assert_eq!(l.phrase, "rise and shine");
}

#[test]
fn data_path_prefers_td_file_then_xdg_then_home() {
    let s = |x: &str| Some(x.to_string());
    assert_eq!(data_path_from(s("/x/list.txt"), s("/xdg"), s("/home/u")), "/x/list.txt");
    assert_eq!(data_path_from(None, s("/xdg"), s("/home/u")), "/xdg/td/todos.txt");
    assert_eq!(data_path_from(None, None, s("/home/u")), "/home/u/.local/share/td/todos.txt");
    assert_eq!(data_path_from(None, None, None), "./.local/share/td/todos.txt");
}

#[test]
fn config_path_prefers_xdg_then_home() {
    let s = |x: &str| Some(x.to_string());
    assert_eq!(config_path_from(s("/xdg"), s("/home/u")), "/xdg/td/config");
    assert_eq!(config_path_from(None, s("/home/u")), "/home/u/.config/td/config");
    assert_eq!(config_path_from(None, None), "./.config/td/config");
}

#[test]
fn wrap_keeps_every_word_in_order() {
    let text = "  the quick\tbrown fox\n\njumps   over the lazy dog  ";
    let solid = |s: &str| s.chars().filter(|c| !c.is_whitespace()).collect::<String>();
    for width in 1..12 {
        let lines = wrap(text, width);
        assert_eq!(solid(&lines.concat()), solid(text));
    }
}

#[test]
fn wrap_goes_line_by_line() {
    let text = "one two three\nfour five\n\nsix";
    let mut each: Vec<String> = Vec::new();
    for line in text.split('\n') {
        each.extend(wrap(line, 5));
    }
    assert_eq!(wrap(text, 5), each);
    assert_eq!(wrap(text, 5), ["one", "two", "three", "four", "five", "", "six"]);
}
