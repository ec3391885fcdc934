use notnow::line::byte_index;
use notnow::line::char_index;
use notnow::line::Line;

#[test]
fn line_byte_indexing() {
    let s = "";
    assert_eq!(byte_index(s, 0), 0);
    assert_eq!(byte_index(s, 1), 0);

    let s = "s";
    assert_eq!(byte_index(s, 0), 0);
    assert_eq!(byte_index(s, 1), 1);
    assert_eq!(byte_index(s, 2), 1);

    let s = "foobar";
    assert_eq!(byte_index(s, 0), 0);
    assert_eq!(byte_index(s, 1), 1);
    assert_eq!(byte_index(s, 5), 5);
    assert_eq!(byte_index(s, 6), 6);
    assert_eq!(byte_index(s, 7), 6);

    let s = "⚠️attn⚠️";
    assert_eq!(byte_index(s, 0), 0);
    assert_eq!(byte_index(s, 1), 6);
    assert_eq!(byte_index(s, 2), 7);
    assert_eq!(byte_index(s, 3), 8);
    assert_eq!(byte_index(s, 5), 10);
    assert_eq!(byte_index(s, 6), 16);
    assert_eq!(byte_index(s, 7), 16);
}

#[test]
fn char_indexing() {
    let s = "";
    assert_eq!(char_index(s, 0), 0);
    assert_eq!(char_index(s, 1), 0);

    let s = "s";
    assert_eq!(char_index(s, 0), 0);
    assert_eq!(char_index(s, 1), 1);
    assert_eq!(char_index(s, 2), 1);

    let s = "foobar";
    assert_eq!(char_index(s, 0), 0);
    assert_eq!(char_index(s, 1), 1);
    assert_eq!(char_index(s, 5), 5);
    assert_eq!(char_index(s, 6), 6);
    assert_eq!(char_index(s, 7), 6);

    let s = "⚠️attn⚠️";
    assert_eq!(char_index(s, 0), 0);
    assert_eq!(char_index(s, 1), 0);
    assert_eq!(char_index(s, 6), 1);
    assert_eq!(char_index(s, 7), 2);
}

#[test]
fn line_substr() {
    let line = Line::default();
    assert_eq!(line.substr(0), "");
    assert_eq!(line.substr(1), "");
    assert_eq!(line.substr(2), "");

    let line = Line::from_string("s");
    assert_eq!(line.substr(0), "s");
    assert_eq!(line.substr(1), "");
    assert_eq!(line.substr(2), "");

    let line = Line::from_string("string");
    assert_eq!(line.substr(0), "string");
    assert_eq!(line.substr(1), "tring");
    assert_eq!(line.substr(2), "ring");
    assert_eq!(line.substr(5), "g");
    assert_eq!(line.substr(6), "");
}

#[test]
fn line_length() {
    let line = Line::default();
    assert_eq!(line.len(), 0);

    let line = Line::from_string("⚠️attn⚠️");
    assert_eq!(line.len(), 6);
}

#[test]
fn line_editing() {
    let mut line = Line::from_string("ac");
    line = line.select_next();
    line.insert_char('b');
    assert_eq!(line.as_str(), "abc");
    assert_eq!(line.selection(), 2);
    line = line.select_end();
    assert_eq!(line.selection(), 3);
    line.remove_char();
    assert_eq!(line.as_str(), "abc");
    line = line.select_prev();
    line.remove_char();
    assert_eq!(line.as_str(), "ab");
    assert_eq!(line.selection(), 2);
    line = line.select_start();
    assert_eq!(line.selection_byte_index(), 0);
    line = line.select_byte_index(1);
    assert_eq!(line.selection(), 1);
    assert_eq!(line.into_string(), "ab");
}

#[test]
fn removal_takes_the_whole_character() {
    let mut line = Line::from_string("⚠️attn⚠️");
    line.remove_char();
    assert_eq!(line.as_str(), "attn⚠️");
    assert_eq!(line.selection(), 0);
}
