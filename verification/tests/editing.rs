use todo_cli::model::TaskStore;
use todo_cli::tui::{AppState, Key};

/// Runs the same keys on the interface and on a `String` with a byte
/// cursor; a key that the interface refuses must be one on which `String`
/// would panic.
fn replay(keys: &[Key]) -> (String, usize) {
    let store = TaskStore::from_tasks(vec![]).unwrap();
    let mut app = AppState::new(&store);
    app.handle_key(Key::Char('A'), &store);
    let mut text = String::new();
    let mut cursor: usize = 0;
    for &key in keys {
        let refused = app.refuses(key);
        match key {
            Key::Char(c) => {
                assert_eq!(refused, !text.is_char_boundary(cursor));
                if !refused {
                    text.insert(cursor, c);
                    cursor += 1;
                }
            }
            Key::Backspace => {
                if cursor > 0 {
                    let bad = !text.is_char_boundary(cursor - 1) || cursor - 1 >= text.len();
                    assert_eq!(refused, bad);
                    if !bad {
                        text.remove(cursor - 1);
                        cursor -= 1;
                    }
                } else {
                    assert!(!refused);
                }
            }
            Key::Delete => {
                if cursor < text.len() {
                    assert_eq!(refused, !text.is_char_boundary(cursor));
                    if !refused {
                        text.remove(cursor);
                    }
                } else {
                    assert!(!refused);
                }
            }
            Key::Left => {
                if cursor > 0 {
                    cursor -= 1;
                }
            }
            Key::Right => {
                if cursor < text.len() {
                    cursor += 1;
                }
            }
            Key::Home => cursor = 0,
            Key::End => cursor = text.len(),
            _ => {}
        }
        if !refused {
            app.handle_key(key, &store);
        }
        assert_eq!(app.input_text(), text);
        assert_eq!(app.input_cursor(), cursor);
    }
    (text, cursor)
}

#[test]
fn editing_follows_string_byte_offsets() {
    let keys = [
        Key::Char('a'),
        Key::Char('ß'),
        Key::Char('c'),
        Key::Left,
        Key::Left,
        Key::Char('x'),
        Key::Home,
        Key::Delete,
        Key::End,
        Key::Backspace,
        Key::Backspace,
        Key::Char('€'),
        Key::Left,
        Key::Backspace,
        Key::Right,
        Key::Right,
        Key::Right,
        Key::Char('z'),
        Key::Home,
        Key::Char('1'),
        Key::Right,
        Key::Delete,
    ];
    let (text, _) = replay(&keys);
    assert!(!text.is_empty());
}

#[test]
fn editing_ascii_only() {
    let (text, cursor) = replay(&[
        Key::Char('h'),
        Key::Char('i'),
        Key::Left,
        Key::Char('-'),
        Key::End,
        Key::Char('!'),
        Key::Home,
        Key::Delete,
    ]);
    assert_eq!(text, "-i!");
    assert_eq!(cursor, 0);
}
