use notnow::text::clip;
use notnow::text::cursor_byte_index;
use notnow::text::cursor_index;
use notnow::text::wrap;
use notnow::text::Cursor;
use notnow::text::CursorRange;
use notnow::text::DisplayWidth;
use notnow::text::EditableText;
use notnow::text::Text;
use notnow::text::Width;

fn c(cursor: usize) -> Cursor {
    Cursor::at_start() + Width::from(cursor)
}

fn w(width: usize) -> Width {
    Width::from(width)
}

#[test]
fn text_byte_indexing() {
    let s = "";
    assert_eq!(cursor_byte_index(s, c(0)), 0);
    assert_eq!(cursor_byte_index(s, c(1)), 0);

    let s = "s";
    assert_eq!(cursor_byte_index(s, c(0)), 0);
    assert_eq!(cursor_byte_index(s, c(1)), 1);
    assert_eq!(cursor_byte_index(s, c(2)), 1);

    let s = "foobar";
    assert_eq!(cursor_byte_index(s, c(0)), 0);
    assert_eq!(cursor_byte_index(s, c(1)), 1);
    assert_eq!(cursor_byte_index(s, c(5)), 5);
    assert_eq!(cursor_byte_index(s, c(6)), 6);
    assert_eq!(cursor_byte_index(s, c(7)), 6);

    let s = "⚠️attn⚠️";
    assert_eq!(cursor_byte_index(s, c(0)), 0);
    assert_eq!(cursor_byte_index(s, c(1)), 6);
    assert_eq!(cursor_byte_index(s, c(2)), 7);
    assert_eq!(cursor_byte_index(s, c(3)), 8);
    assert_eq!(cursor_byte_index(s, c(5)), 10);
    assert_eq!(cursor_byte_index(s, c(6)), 16);
    assert_eq!(cursor_byte_index(s, c(7)), 16);

    let s = "a｜b";
    assert_eq!(cursor_byte_index(s, c(0)), 0);
    assert_eq!(cursor_byte_index(s, c(1)), 1);
    assert_eq!(cursor_byte_index(s, c(2)), 4);
    assert_eq!(cursor_byte_index(s, c(3)), 4);
    assert_eq!(cursor_byte_index(s, c(4)), 5);
    assert_eq!(cursor_byte_index(s, c(5)), 5);
    assert_eq!(cursor_byte_index(s, c(6)), 5);
}

#[test]
fn cursor_indexing() {
    let s = "";
    assert_eq!(cursor_index(s, 0), c(0));
    assert_eq!(cursor_index(s, 1), c(0));

    let s = "s";
    assert_eq!(cursor_index(s, 0), c(0));
    assert_eq!(cursor_index(s, 1), c(1));
    assert_eq!(cursor_index(s, 2), c(1));

    let s = "foobar";
    assert_eq!(cursor_index(s, 0), c(0));
    assert_eq!(cursor_index(s, 1), c(1));
    assert_eq!(cursor_index(s, 5), c(5));
    assert_eq!(cursor_index(s, 6), c(6));
    assert_eq!(cursor_index(s, 7), c(6));

    let s = "⚠️attn⚠️";
    assert_eq!(cursor_index(s, 0), c(0));
    assert_eq!(cursor_index(s, 1), c(0));
    assert_eq!(cursor_index(s, 6), c(1));
    assert_eq!(cursor_index(s, 7), c(2));

    let s = "a｜b";
    assert_eq!(cursor_index(s, 0), c(0));
    assert_eq!(cursor_index(s, 1), c(1));
    assert_eq!(cursor_index(s, 2), c(1));
    assert_eq!(cursor_index(s, 3), c(1));
    assert_eq!(cursor_index(s, 4), c(3));
    assert_eq!(cursor_index(s, 5), c(4));
    assert_eq!(cursor_index(s, 6), c(4));
}

#[test]
fn string_clipping() {
    assert_eq!(clip("", w(0)), "");
    assert_eq!(clip("a", w(0)), "");
    assert_eq!(clip("ab", w(0)), "");

    assert_eq!(clip("", w(1)), "");
    assert_eq!(clip("a", w(1)), "a");
    assert_eq!(clip("ab", w(1)), "a");

    assert_eq!(clip("⚠️attn⚠️", w(0)), "");
    assert_eq!(clip("⚠️attn⚠️", w(1)), "⚠️");
    assert_eq!(clip("⚠️attn⚠️", w(2)), "⚠️a");

    assert_eq!(clip("｜a｜b｜", w(0)), "");
    assert_eq!(clip("｜a｜b｜", w(1)), "");
    assert_eq!(clip("｜a｜b｜", w(2)), "｜");
    assert_eq!(clip("｜a｜b｜", w(3)), "｜a");
}

#[test]
fn line_wrapping() {
    let s = "";
    assert_eq!(wrap(s, w(1)), ("", None));

    let s = "two words";
    assert_eq!(wrap(s, w(1)), ("t", Some("wo words")));
    assert_eq!(wrap(s, w(2)), ("tw", Some("o words")));
    assert_eq!(wrap(s, w(3)), ("two", Some(" words")));
    assert_eq!(wrap(s, w(4)), ("two ", Some("words")));
    assert_eq!(wrap(s, w(5)), ("two ", Some("words")));
    assert_eq!(wrap(s, w(8)), ("two ", Some("words")));
    assert_eq!(wrap(s, w(9)), ("two words", None));

    let s = "two words ";
    assert_eq!(wrap(s, w(1)), ("t", Some("wo words ")));
    assert_eq!(wrap(s, w(2)), ("tw", Some("o words ")));
    assert_eq!(wrap(s, w(3)), ("two", Some(" words ")));
    assert_eq!(wrap(s, w(4)), ("two ", Some("words ")));
    assert_eq!(wrap(s, w(5)), ("two ", Some("words ")));
    assert_eq!(wrap(s, w(8)), ("two ", Some("words ")));
    assert_eq!(wrap(s, w(9)), ("two words", Some(" ")));
    assert_eq!(wrap(s, w(10)), ("two words ", None));

    let s = "⚠️one⚠️";
    assert_eq!(wrap(s, w(1)), ("⚠️", Some("one⚠️")));
    assert_eq!(wrap(s, w(2)), ("⚠️o", Some("ne⚠️")));
    assert_eq!(wrap(s, w(3)), ("⚠️on", Some("e⚠️")));
    assert_eq!(wrap(s, w(4)), ("⚠️one", Some("⚠️")));
    assert_eq!(wrap(s, w(5)), ("⚠️one⚠️", None));

    let s = "one             ";
    assert_eq!(wrap(s, w(1)), ("o", Some("ne             ")));
    assert_eq!(wrap(s, w(2)), ("on", Some("e             ")));
    assert_eq!(wrap(s, w(3)), ("one", Some("             ")));
    assert_eq!(wrap(s, w(4)), ("one ", Some("            ")));
    assert_eq!(wrap(s, w(5)), ("one  ", Some("           ")));
    assert_eq!(wrap(s, w(15)), ("one            ", Some(" ")));
    assert_eq!(wrap(s, w(16)), ("one             ", None));

    let s = "⚠️two⚠️ words⚠️";
    assert_eq!(wrap(s, w(1)), ("⚠️", Some("two⚠️ words⚠️")));
    assert_eq!(wrap(s, w(2)), ("⚠️t", Some("wo⚠️ words⚠️")));
    assert_eq!(wrap(s, w(3)), ("⚠️tw", Some("o⚠️ words⚠️")));
    assert_eq!(wrap(s, w(4)), ("⚠️two", Some("⚠️ words⚠️")));
    assert_eq!(wrap(s, w(11)), ("⚠️two⚠️ words", Some("⚠️")));
    assert_eq!(wrap(s, w(12)), ("⚠️two⚠️ words⚠️", None));

    let s = "⚠️two⚠️ words⚠️ ";
    assert_eq!(wrap(s, w(1)), ("⚠️", Some("two⚠️ words⚠️ ")));
    assert_eq!(wrap(s, w(2)), ("⚠️t", Some("wo⚠️ words⚠️ ")));
    assert_eq!(wrap(s, w(3)), ("⚠️tw", Some("o⚠️ words⚠️ ")));
    assert_eq!(wrap(s, w(4)), ("⚠️two", Some("⚠️ words⚠️ ")));
    assert_eq!(wrap(s, w(11)), ("⚠️two⚠️ words", Some("⚠️ ")));
    assert_eq!(wrap(s, w(12)), ("⚠️two⚠️ words⚠️", Some(" ")));
    assert_eq!(wrap(s, w(13)), ("⚠️two⚠️ words⚠️ ", None));

    let s = "two｜words";
    assert_eq!(wrap(s, w(1)), ("t", Some("wo｜words")));
    assert_eq!(wrap(s, w(2)), ("tw", Some("o｜words")));
    assert_eq!(wrap(s, w(3)), ("two", Some("｜words")));
    assert_eq!(wrap(s, w(4)), ("two", Some("｜words")));
    assert_eq!(wrap(s, w(5)), ("two｜", Some("words")));
    assert_eq!(wrap(s, w(9)), ("two｜", Some("words")));
    assert_eq!(wrap(s, w(10)), ("two｜words", None));
}

#[test]
fn text_substr() {
    let text = Text::default();
    assert_eq!(text.substr(CursorRange::Full), "");
    assert_eq!(text.substr(CursorRange::From(c(0))), "");
    assert_eq!(text.substr(CursorRange::From(c(1))), "");
    assert_eq!(text.substr(CursorRange::From(c(2))), "");

    let text = Text::from_string("s");
    assert_eq!(text.substr(CursorRange::Full), "s");
    assert_eq!(text.substr(CursorRange::From(c(0))), "s");
    assert_eq!(text.substr(CursorRange::From(c(1))), "");
    assert_eq!(text.substr(CursorRange::From(c(2))), "");

    let text = Text::from_string("string");
    assert_eq!(text.substr(CursorRange::Full), "string");
    assert_eq!(text.substr(CursorRange::From(c(0))), "string");
    assert_eq!(text.substr(CursorRange::From(c(1))), "tring");
    assert_eq!(text.substr(CursorRange::From(c(2))), "ring");
    assert_eq!(text.substr(CursorRange::From(c(5))), "g");
    assert_eq!(text.substr(CursorRange::From(c(6))), "");
    assert_eq!(text.substr(CursorRange::To(c(0))), "");
    assert_eq!(text.substr(CursorRange::To(c(1))), "s");
    assert_eq!(text.substr(CursorRange::To(c(2))), "st");
    assert_eq!(text.substr(CursorRange::To(c(5))), "strin");
    assert_eq!(text.substr(CursorRange::To(c(6))), "string");
    assert_eq!(text.substr(CursorRange::To(c(7))), "string");
    assert_eq!(text.substr(CursorRange::To(c(8))), "string");
    assert_eq!(text.substr(CursorRange::ToInclusive(c(0))), "s");
    assert_eq!(text.substr(CursorRange::ToInclusive(c(1))), "st");
    assert_eq!(text.substr(CursorRange::ToInclusive(c(2))), "str");
    assert_eq!(text.substr(CursorRange::ToInclusive(c(5))), "string");
    assert_eq!(text.substr(CursorRange::ToInclusive(c(6))), "string");
    assert_eq!(text.substr(CursorRange::Range(c(0), c(0))), "");
    assert_eq!(text.substr(CursorRange::Range(c(0), c(1))), "s");
    assert_eq!(text.substr(CursorRange::RangeInclusive(c(0), c(1))), "st");
    assert_eq!(text.substr(CursorRange::Range(c(1), c(1))), "");
    assert_eq!(text.substr(CursorRange::Range(c(1), c(2))), "t");
    assert_eq!(text.substr(CursorRange::RangeInclusive(c(1), c(2))), "tr");
}

#[test]
fn text_length() {
    let text = Text::default();
    assert_eq!(text.char_count(), 0);

    let text = Text::from_string("⚠️attn⚠️");
    assert_eq!(text.char_count(), 6);
}

#[test]
fn character_insertion() {
    let mut text = EditableText::default();
    let () = text.insert_char('a');
    let () = text.insert_char('b');
    let () = text.insert_char('c');
    assert_eq!(text.as_str(), "abc");

    let mut text = EditableText::default();
    let () = text.insert_char('a');
    let () = text.insert_char('\n');
    let () = text.insert_char('c');
    assert_eq!(text.as_str(), "a\nc");

    let mut text = EditableText::from_string("⚠️attn⚠️");
    let () = text.insert_char('x');
    assert_eq!(text.as_str(), "x⚠️attn⚠️");
    let () = text.move_next();
    let () = text.insert_char('y');
    assert_eq!(text.as_str(), "x⚠️yattn⚠️");
    let () = text.move_end();
    let () = text.insert_char('z');
    assert_eq!(text.as_str(), "x⚠️yattn⚠️z");

    let mut text = EditableText::from_string("⚠️attn⚠️");
    let () = text.insert_char('x');
    assert_eq!(text.as_str(), "x⚠️attn⚠️");
    let () = text.move_next();
    let () = text.insert_char('y');
    assert_eq!(text.as_str(), "x⚠️yattn⚠️");
    let () = text.move_end();
    let () = text.insert_char('z');
    assert_eq!(text.as_str(), "x⚠️yattn⚠️z");
    let () = text.move_start();
    let () = text.remove_char();
    assert_eq!(text.as_str(), "⚠️yattn⚠️z");
    let () = text.insert_char('x');
    assert_eq!(text.as_str(), "x⚠️yattn⚠️z");

    let mut text = EditableText::from_string("｜a｜b｜");
    let () = text.insert_char('x');
    assert_eq!(text.as_str(), "x｜a｜b｜");
    let () = text.insert_char('y');
    assert_eq!(text.as_str(), "xy｜a｜b｜");
    let () = text.move_next();
    let () = text.insert_char('z');
    assert_eq!(text.as_str(), "xy｜za｜b｜");
}

#[test]
fn character_removal() {
    let mut text = EditableText::from_string("⚠️attn⚠️");
    let () = text.remove_char();
    assert_eq!(text.as_str(), "attn⚠️");

    let () = text.move_end();
    let () = text.remove_char();
    assert_eq!(text.as_str(), "attn⚠️");

    let () = text.move_prev();
    let () = text.remove_char();
    assert_eq!(text.as_str(), "attn");
}

#[test]
fn display_widths() {
    assert_eq!("a｜b".display_width(), w(4));
    assert_eq!("⚠️".display_width(), w(1));
    assert_eq!('｜'.display_width(), w(2));
    assert_eq!('\u{1}'.display_width(), w(0));
    assert_eq!(w(3) - w(5), w(0));
    assert_eq!(w(5) - w(3), w(2));
}

#[test]
fn cursor_positions_of_editable_text() {
    let mut text = EditableText::from_string("a｜b");
    assert_eq!(text.cursor(), c(0));
    assert_eq!(text.cursor_end(), c(4));
    text.move_next();
    text.move_next();
    assert_eq!(text.cursor(), c(3));
    assert_eq!(text.cursor_byte_index(), 4);
    text.set_cursor_byte_index(1);
    assert_eq!(text.cursor(), c(1));
    assert_eq!(text.into_string(), "a｜b");
}

#[test]
fn substr_pieces_join_to_the_text() {
    let text = Text::from_string("string");
    for cursor in 0..9 {
        let mut joined = text.substr(CursorRange::To(c(cursor))).to_string();
        joined.push_str(text.substr(CursorRange::From(c(cursor))));
        assert_eq!(joined, "string");
    }
    assert_eq!(text.substr(CursorRange::To(c(2))), "st");
    assert_eq!(text.substr(CursorRange::From(c(2))), "ring");
}

#[test]
fn setting_cursor_to_its_byte_index_keeps_it() {
    let mut text = EditableText::from_string("⚠️attn⚠️");
    for _ in 0..7 {
        let before = text.cursor_byte_index();
        text.set_cursor_byte_index(before);
        assert_eq!(text.cursor_byte_index(), before);
        assert_eq!(text.as_str(), "⚠️attn⚠️");
        text.move_next();
    }
}
