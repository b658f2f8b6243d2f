use h5inspect::modes::{
    is_white_space, on_key, scroll_object_info, Key, KeyOutcome, SearchQuery, SelectionMode,
};
use h5inspect::pixel::{Color, Pixel};

#[test]
fn ctrl_c_quits_everywhere() {
    for m in [
        SelectionMode::TreeBrowsing,
        SelectionMode::SearchQueryEditing,
        SelectionMode::ObjectInfoInspecting,
        SelectionMode::HelpScreen,
    ] {
        assert_eq!(on_key(m, Key::Ctrl('c')), KeyOutcome::Quit);
    }
}

#[test]
fn mode_switches() {
    assert_eq!(on_key(SelectionMode::TreeBrowsing, Key::Char('/')), KeyOutcome::Switch(SelectionMode::SearchQueryEditing));
    assert_eq!(on_key(SelectionMode::TreeBrowsing, Key::Char('q')), KeyOutcome::Quit);
    assert_eq!(on_key(SelectionMode::TreeBrowsing, Key::Right), KeyOutcome::Switch(SelectionMode::ObjectInfoInspecting));
    assert_eq!(on_key(SelectionMode::TreeBrowsing, Key::Char('j')), KeyOutcome::Tree);
    assert_eq!(on_key(SelectionMode::SearchQueryEditing, Key::Enter), KeyOutcome::Switch(SelectionMode::TreeBrowsing));
    assert_eq!(on_key(SelectionMode::SearchQueryEditing, Key::Char('q')), KeyOutcome::Search);
    assert_eq!(on_key(SelectionMode::ObjectInfoInspecting, Key::Char('h')), KeyOutcome::Switch(SelectionMode::TreeBrowsing));
    assert_eq!(on_key(SelectionMode::ObjectInfoInspecting, Key::Char('?')), KeyOutcome::Switch(SelectionMode::HelpScreen));
    assert_eq!(on_key(SelectionMode::ObjectInfoInspecting, Key::Char('j')), KeyOutcome::ObjectInfo);
    assert_eq!(on_key(SelectionMode::HelpScreen, Key::Esc), KeyOutcome::Switch(SelectionMode::TreeBrowsing));
    assert_eq!(on_key(SelectionMode::HelpScreen, Key::Char('x')), KeyOutcome::Ignore);
}

#[test]
fn query_editing_moves_the_cursor() {
    let mut q = SearchQuery::new();
    for c in "abc".chars() {
        q.insert(c);
    }
    q.move_left();
    q.move_left();
    q.insert('X');
    assert_eq!(q.search_query_and_cursor(), ("aXbc".to_string(), 2));
    q.move_right();
    q.move_right();
    q.move_right();
    assert_eq!(q.search_query_and_cursor(), ("aXbc".to_string(), 4));
    q.backspace();
    q.move_left();
    q.move_left();
    q.move_left();
    q.move_left();
    q.delete();
    assert_eq!(q.search_query_and_cursor(), ("Xb".to_string(), 0));
}

#[test]
fn pixel_new_zeroes_the_other_fields() {
    let p = Pixel::new(1, 2, Color::B);
    assert_eq!(p.x, 1);
    assert_eq!(p.y, 2);
    assert_eq!(p.color, Color::B);
    assert_eq!(p.field1, 0);
    assert_eq!(p.field50, 0);
    assert_eq!(Color::R.code(), 1);
    assert_eq!(Color::G.code(), 2);
    assert_eq!(Color::B.code(), 3);
}

#[test]
fn word_moves_stop_past_white_space() {
    let mut q = SearchQuery::new();
    for c in "ab cd ef".chars() {
        q.insert(c);
    }
    q.move_word_left();
    assert_eq!(q.search_query_and_cursor(), ("ab cd ef".to_string(), 5));
    q.move_word_left();
    assert_eq!(q.search_query_and_cursor(), ("ab cd ef".to_string(), 2));
    q.move_word_left();
    assert_eq!(q.search_query_and_cursor(), ("ab cd ef".to_string(), 0));
    q.move_word_right();
    assert_eq!(q.search_query_and_cursor(), ("ab cd ef".to_string(), 3));
    q.move_word_right();
    q.move_word_right();
    assert_eq!(q.search_query_and_cursor(), ("ab cd ef".to_string(), 8));
}

#[test]
fn white_space_follows_unicode() {

    assert!(is_white_space(' '));
    assert!(is_white_space('\t'));
    assert!(is_white_space('\u{3000}'));
    assert!(!is_white_space('a'));
    assert!(!is_white_space('\u{200b}'));
    for c in ['\u{85}', '\u{a0}', '\u{2009}', '\u{202f}'] {
        assert_eq!(is_white_space(c), c.is_whitespace());
    }
}

#[test]
fn info_pane_scrolls_and_saturates() {
    assert_eq!(scroll_object_info(0, Key::Up), 0);
    assert_eq!(scroll_object_info(3, Key::Char('k')), 2);
    assert_eq!(scroll_object_info(3, Key::Down), 4);
    assert_eq!(scroll_object_info(u16::MAX, Key::Char('j')), u16::MAX);
    assert_eq!(scroll_object_info(10, Key::PageUp), 0);
    assert_eq!(scroll_object_info(70, Key::PageUp), 20);
    assert_eq!(scroll_object_info(65500, Key::PageDown), u16::MAX);
    assert_eq!(scroll_object_info(5, Key::PageDown), 55);
    assert_eq!(scroll_object_info(5, Key::End), u16::MAX);
    assert_eq!(scroll_object_info(5, Key::Home), 0);
    assert_eq!(scroll_object_info(5, Key::Char('x')), 5);
}
