use td::config::Theme;
use td::editor::{Editor, Mode};
use td::key::{Key, KeyCode};

fn ed(text: &str) -> Editor {
    Editor::new("test", text, Theme::Dark)
}

fn press(e: &mut Editor, keys: &str) {
    for c in keys.chars() {
        e.on_key(Key::plain(KeyCode::Char(c)));
    }
}

fn esc(e: &mut Editor) {
    e.on_key(Key::plain(KeyCode::Esc));
}

fn enter(e: &mut Editor) {
    e.on_key(Key::plain(KeyCode::Enter));
}

#[test]
fn empty_text_still_has_a_line_to_sit_on() {
    let e = ed("");
    assert_eq!(e.line_count(), 1);
    assert_eq!(e.text(), "");
}

#[test]
fn insert_types_at_the_cursor() {
    let mut e = ed("bc");
    press(&mut e, "ia");
    assert_eq!(e.text(), "abc");
    esc(&mut e);
    assert_eq!(e.col(), 0, "esc steps back onto the last typed character");
}

#[test]
fn o_opens_a_line_below_and_types_into_it() {
    let mut e = ed("one");
    press(&mut e, "otwo");
    assert_eq!(e.text(), "one\ntwo");
}

#[test]
fn dd_deletes_the_line_and_never_empties_the_buffer() {
    let mut e = ed("only");
    press(&mut e, "dd");
    assert_eq!(e.text(), "");
    assert_eq!(e.line_count(), 1);
    assert_eq!(e.row(), 0);
}

#[test]
fn undo_rewinds_a_whole_insert_run() {
    let mut e = ed("x");
    press(&mut e, "ahello");
    esc(&mut e);
    assert_eq!(e.text(), "xhello");
    press(&mut e, "u");
    assert_eq!(e.text(), "x");
}

#[test]
fn normal_mode_cursor_stays_on_a_character() {
    let mut e = ed("ab");
    press(&mut e, "$");
    assert_eq!(e.col(), 1);
    press(&mut e, "llll");
    assert_eq!(e.col(), 1, "l must not walk off the end");
}

#[test]
fn a_pending_key_is_cancelled_by_an_unrelated_one() {
    let mut e = ed("one\ntwo");
    press(&mut e, "dj");
    assert_eq!(e.text(), "one\ntwo", "d then j must not delete");
    assert!(e.pending().is_none());
}

#[test]
fn write_returns_the_text_and_quit_discards_it() {
    let mut e = ed("start");
    press(&mut e, "ax");
    esc(&mut e);
    press(&mut e, ":w");
    enter(&mut e);
    assert!(e.quit() && e.saved());
    assert_eq!(e.text(), "sxtart");

    let mut e = ed("start");
    press(&mut e, ":q");
    enter(&mut e);
    assert!(e.quit() && !e.saved());
}

#[test]
fn bare_q_refuses_to_throw_away_unwritten_changes() {
    let mut e = ed("keep me");
    press(&mut e, "x");
    press(&mut e, ":q");
    enter(&mut e);
    assert!(!e.quit(), "dirty buffer must not close on a bare :q");
    assert!(e.status().is_some());

    press(&mut e, ":q!");
    enter(&mut e);
    assert!(e.quit() && !e.saved(), ":q! discards");
}

#[test]
fn zz_saves_and_closes() {
    let mut e = ed("note");
    press(&mut e, "ZZ");
    assert!(e.quit() && e.saved());
}

#[test]
fn outcome_hands_back_the_written_text_only() {
    let mut e = ed("a\nb");
    press(&mut e, "jx");
    press(&mut e, ":wq");
    enter(&mut e);
    assert_eq!(e.outcome(), Some("a\n".to_string()));

    let mut e = ed("a");
    press(&mut e, ":q!");
    enter(&mut e);
    assert_eq!(e.outcome(), None);
}

#[test]
fn ctrl_c_closes_without_writing() {
    let mut e = ed("text");
    press(&mut e, "x");
    e.on_key(Key::ctrl(KeyCode::Char('c')));
    assert!(e.quit() && !e.saved());
}

#[test]
fn undo_with_nothing_to_undo_says_so() {
    let mut e = ed("x");
    press(&mut e, "u");
    assert_eq!(e.status(), Some("already at oldest change".to_string()));
}

#[test]
fn unknown_command_is_reported() {
    let mut e = ed("x");
    press(&mut e, ":zz");
    enter(&mut e);
    assert_eq!(e.status(), Some("not an editor command: zz".to_string()));
    assert_eq!(e.mode(), Mode::Normal);
}

#[test]
fn word_motions_hop_between_words() {
    let mut e = ed("one two  three");
    press(&mut e, "w");
    assert_eq!(e.col(), 4);
    press(&mut e, "w");
    assert_eq!(e.col(), 9);
    press(&mut e, "b");
    assert_eq!(e.col(), 4);
}

#[test]
fn scrolling_keeps_the_cursor_in_the_window() {
    let mut text = String::new();
    for i in 0..50 {
        text.push_str(&format!("line {i}\n"));
    }
    let mut e = ed(&text);
    press(&mut e, "G");
    e.fit(80, 10);
    assert!(e.scroll() <= e.row() && e.row() < e.scroll() + 7);
    assert_eq!(e.cursor_offset(), (e.col() - e.hscroll(), e.row() - e.scroll()));
}

#[test]
fn header_shows_position_mode_and_changes() {
    let mut e = ed("abc");
    assert_eq!(e.header_right(), "1:1 \u{b7} normal");
    press(&mut e, "lix");
    assert_eq!(e.header_right(), "* 1:3 \u{b7} insert");
}

#[test]
fn visible_cuts_the_line_to_the_window() {
    let e = ed("abcdef");
    assert_eq!(e.visible(0, 3), "abc");
    assert_eq!(e.visible(0, 10), "abcdef");
}
