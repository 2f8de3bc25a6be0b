use tosh::editor::{needs_scroll, LineEditor, Submission};

fn strings(words: &[&str]) -> Vec<String> {
    words.iter().map(|w| w.to_string()).collect()
}

fn typed(text: &str) -> LineEditor {
    let mut e = LineEditor::new(Vec::new());
    for c in text.chars() {
        e.insert_char(c);
    }
    e
}

#[test]
fn typing_and_moving() {
    let mut e = LineEditor::new(Vec::new());
    assert!(!e.insert_char('l'));
    assert!(!e.insert_char('s'));
    assert_eq!(e.line(), "ls");
    assert_eq!(e.cursor(), 2);
    assert!(e.move_left());
    // one place before the end, a typed character still goes to the end
    assert!(!e.insert_char('x'));
    assert_eq!(e.line(), "lsx");
    assert_eq!(e.cursor(), 2);
    assert!(e.move_left());
    assert!(e.move_left());
    assert!(!e.move_left());
    assert!(e.insert_char('y'));
    assert_eq!(e.line(), "ylsx");
    assert_eq!(e.cursor(), 1);
    assert!(e.move_right());
    assert!(e.move_right());
    assert!(e.move_right());
    assert!(!e.move_right());
}

#[test]
fn delete_word_stops_at_the_last_space() {
    let mut e = typed("echo hello wor");
    assert_eq!(e.delete_word(), 4);
    assert_eq!(e.line(), "echo hello");
    assert_eq!(e.delete_word(), 6);
    assert_eq!(e.line(), "echo");
    assert_eq!(e.delete_word(), 4);
    assert_eq!(e.line(), "");
    assert_eq!(e.delete_word(), 0);
}

#[test]
fn backspace_undoes_typing_at_the_end() {
    let mut e = typed("ab");
    e.insert_char('c');
    assert!(e.backspace());
    assert_eq!(e.line(), "ab");
    assert_eq!(e.cursor(), 2);
    e.move_left();
    e.move_left();
    assert!(!e.backspace());
    assert_eq!(e.line(), "ab");
}

#[test]
fn clear_and_reset_empty_the_line() {
    let mut e = typed("abc");
    e.clear_line();
    assert_eq!(e.line(), "");
    assert_eq!(e.cursor(), 0);
    let mut f = typed("abc");
    f.reset();
    assert_eq!(f.len(), 0);
}

#[test]
fn submit_records_history() {
    let mut e = LineEditor::new(Vec::new());
    assert_eq!(e.submit(), Submission::Nothing);
    for c in "ls".chars() {
        e.insert_char(c);
    }
    assert_eq!(e.submit(), Submission::Run("ls".to_string()));
    // an empty history stays empty
    assert!(e.history().is_empty());
    assert_eq!(e.line(), "");

    let mut h = LineEditor::new(strings(&["pwd"]));
    for c in "ls".chars() {
        h.insert_char(c);
    }
    assert_eq!(h.submit(), Submission::Run("ls".to_string()));
    for c in "ls".chars() {
        h.insert_char(c);
    }
    assert_eq!(h.submit(), Submission::Run("ls".to_string()));
    assert_eq!(h.history(), &strings(&["pwd", "ls"]));
    assert_eq!(h.history_position(), 2);
    for c in " exit ".chars() {
        h.insert_char(c);
    }
    assert_eq!(h.submit(), Submission::Exit);
    assert_eq!(h.history(), &strings(&["pwd", "ls", " exit "]));
}

#[test]
fn history_up_and_down() {
    let mut e = LineEditor::new(strings(&["a", "b"]));
    assert!(!e.history_down());
    assert!(e.history_up());
    assert_eq!(e.line(), "b");
    assert!(e.history_up());
    assert_eq!(e.line(), "a");
    assert_eq!(e.cursor(), 1);
    assert!(!e.history_up());
    assert!(e.history_down());
    assert_eq!(e.line(), "b");
    assert!(e.history_down());
    assert_eq!(e.line(), "");
    assert!(!e.history_down());
}

#[test]
fn tab_completes_the_line() {
    let mut e = typed("car");
    assert_eq!(e.complete(&strings(&["cargo", "cat"])), Some(3));
    assert_eq!(e.line(), "cargo");
    assert_eq!(e.cursor(), 5);
    assert_eq!(e.history_position(), 0);
    let mut f = typed("ca");
    assert_eq!(f.complete(&strings(&["cargo", "cat"])), None);
    assert_eq!(f.line(), "ca");
}

#[test]
fn scroll_when_the_line_fills_rows_at_the_bottom() {
    // 8 characters and the prompt fill one row of 10 columns
    assert!(needs_scroll(8, 10, 24, 23));
    assert!(!needs_scroll(8, 10, 24, 22));
    assert!(needs_scroll(2, 2, 24, 22));
    assert!(!needs_scroll(8, 10, 24, 5));
    assert!(!needs_scroll(7, 10, 24, 23));
    assert!(needs_scroll(18, 10, 24, 22));
}

#[test]
fn positions_count_bytes() {
    let mut e = LineEditor::new(Vec::new());
    assert!(!e.insert_char('é'));
    assert_eq!(e.len(), 2);
    assert_eq!(e.cursor(), 1);
    assert!(e.move_left());
    assert!(e.can_insert());
    assert!(e.insert_char('a'));
    assert_eq!(e.line(), "aé");
    assert_eq!(e.cursor(), 1);
    assert!(e.move_right());
    // the cursor now lies inside `é`
    assert_eq!(e.cursor(), 2);
    assert!(!e.can_delete_word());
    assert!(e.can_backspace());
    // the character that starts just before the cursor goes
    assert!(e.backspace());
    assert_eq!(e.line(), "a");
    assert_eq!(e.cursor(), 1);

    let mut h = LineEditor::new(strings(&["né"]));
    assert!(h.history_up());
    assert_eq!(h.cursor(), 3);
    assert!(!h.can_backspace());
    assert!(h.move_left());
    assert!(h.move_left());
    assert_eq!(h.cursor(), 1);
    assert!(h.can_delete_word());
    assert_eq!(h.delete_word(), 1);
    assert_eq!(h.line(), "é");
}
