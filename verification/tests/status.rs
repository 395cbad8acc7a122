use mazest::visualize::status::{cut_budget, log_terminal, mark_fits, needs_cut, Fitted};

#[test]
fn a_message_that_fits_is_printed_whole() {
    assert_eq!(log_terminal("hello", 10), Fitted::Whole);
    assert_eq!(log_terminal("hello", 5), Fitted::Whole);
    assert_eq!(log_terminal("", 0), Fitted::Whole);
}

#[test]
fn a_wide_message_is_cut_and_marked() {
    assert_eq!(
        log_terminal("hello world", 5),
        Fitted::Cut { text: "hell".to_string(), marked: true }
    );
    assert_eq!(log_terminal("hello", 1), Fitted::Cut { text: "".to_string(), marked: true });
}

#[test]
fn wide_characters_count_two_columns() {
    assert_eq!(log_terminal("你好", 4), Fitted::Whole);
    assert_eq!(log_terminal("你好", 3), Fitted::Overlong);
    assert_eq!(log_terminal("█░", 2), Fitted::Whole);
}

#[test]
fn a_wide_message_beyond_ascii_is_left_as_it_is() {
    assert_eq!(log_terminal("你好吗", 5), Fitted::Overlong);
    assert_eq!(log_terminal("héllo world", 5), Fitted::Overlong);
    // Lam and Alef join into one column.
    assert_eq!(log_terminal("\u{644}\u{627}a", 2), Fitted::Whole);
    assert_eq!(log_terminal("\u{644}\u{627}a", 1), Fitted::Overlong);
    assert_eq!(log_terminal("\u{644}\u{627}aaa", 3), Fitted::Overlong);
    assert_eq!(log_terminal("\u{644}\u{627}aaa", 4), Fitted::Whole);
}

#[test]
fn a_line_end_counts_one_column() {
    assert_eq!(log_terminal("ab\r\ncd", 5), Fitted::Whole);
    assert_eq!(
        log_terminal("ab\r\ncd", 4),
        Fitted::Cut { text: "ab\r\n".to_string(), marked: true }
    );
    assert_eq!(log_terminal("ab\r\ncd", 3), Fitted::Cut { text: "ab".to_string(), marked: true });
    assert_eq!(log_terminal("a\tb\u{7f}c", 4), Fitted::Cut { text: "a\tb".to_string(), marked: true });
}

#[test]
fn no_terminal_width_leaves_no_room_for_the_mark() {
    assert_eq!(log_terminal("abc", 0), Fitted::Cut { text: "".to_string(), marked: false });
}

#[test]
fn the_pieces_of_fitting() {
    assert!(needs_cut(6, 5));
    assert!(!needs_cut(5, 5));
    assert_eq!(cut_budget(0), 0);
    assert_eq!(cut_budget(1), 0);
    assert_eq!(cut_budget(80), 79);
    assert!(mark_fits(5, 4));
    assert!(!mark_fits(4, 4));
}
