use xml_tree::chars::is_name_character;
use xml_tree::chars::is_space;
use xml_tree::chars::CharClass;
use xml_tree::lexer::parse_attributes;
use xml_tree::lexer::FragmentKind;
use xml_tree::lexer::LineBuffer;
use xml_tree::lexer::Scan;

fn pair(key: &str, value: &str) -> (String, String) {
    (key.to_string(), value.to_string())
}

fn found(kind: FragmentKind, start: usize, end: usize) -> Scan {
    Scan::Found { kind, start, end }
}

#[test]
fn white_space_is_what_the_standard_library_calls_so() {
    for code in 0u32..=0x10FFFF {
        if let Some(c) = char::from_u32(code) {
            assert_eq!(is_space(c), c.is_whitespace(), "U+{:04X}", code);
        }
    }
}

#[test]
fn name_characters_are_lowercase_letters_and_digits() {
    for code in 0u32..=0x10FFFF {
        if let Some(c) = char::from_u32(code) {
            let expected = c.is_ascii_lowercase() || c.is_ascii_digit();
            assert_eq!(is_name_character(c), expected, "U+{:04X}", code);
        }
    }
}

#[test]
fn character_classes() {
    assert!(CharClass::Whitespace.contains(' '));
    assert!(CharClass::Whitespace.contains('\t'));
    assert!(CharClass::Whitespace.contains('\u{3000}'));
    assert!(!CharClass::Whitespace.contains('x'));
    assert!(CharClass::NotWhitespace.contains('x'));
    assert!(!CharClass::NotWhitespace.contains('\n'));
    assert!(CharClass::NotName.contains('A'));
    assert!(CharClass::NotName.contains('-'));
    assert!(!CharClass::NotName.contains('a'));
    assert!(!CharClass::NotName.contains('0'));
    assert!(CharClass::Exactly('<').contains('<'));
    assert!(!CharClass::Exactly('<').contains('>'));
    assert!(CharClass::Except('/').contains('a'));
    assert!(!CharClass::Except('/').contains('/'));
}

#[test]
fn line_length_and_trimmed_end() {
    let line = LineBuffer::new("  <a> \t ");
    assert_eq!(line.len(), 8);
    assert_eq!(line.end(), 5);
    let blank = LineBuffer::new(" \t\u{a0} ");
    assert_eq!(blank.len(), 4);
    assert_eq!(blank.end(), 0);
    let empty = LineBuffer::new("");
    assert_eq!(empty.len(), 0);
    assert_eq!(empty.end(), 0);
    let wide = LineBuffer::new("\u{2603}\u{e9}x  ");
    assert_eq!(wide.len(), 5);
    assert_eq!(wide.end(), 3);
}

#[test]
fn fragments_of_a_line_one_after_the_other() {
    let line = LineBuffer::new("  <a x=\"1\">  some text </a> tail  ");
    assert_eq!(line.next_fragment(0), found(FragmentKind::OpenTag, 2, 11));
    assert_eq!(line.next_fragment(11), found(FragmentKind::Text, 13, 23));
    assert_eq!(line.next_fragment(23), found(FragmentKind::CloseTag, 23, 27));
    assert_eq!(line.next_fragment(27), found(FragmentKind::Text, 28, 32));
    assert_eq!(line.next_fragment(32), Scan::Done);
    assert_eq!(line.next_fragment(34), Scan::Done);
    assert_eq!(line.next_fragment(1000), Scan::Done);
}

#[test]
fn fragment_is_looked_for_from_the_given_position() {
    let line = LineBuffer::new("<a>text</a>");
    assert_eq!(line.next_fragment(1), found(FragmentKind::Text, 1, 7));
    assert_eq!(line.next_fragment(2), found(FragmentKind::Text, 2, 7));
    assert_eq!(line.next_fragment(7), found(FragmentKind::CloseTag, 7, 11));
    assert_eq!(line.next_fragment(8), found(FragmentKind::Text, 8, 11));
}

#[test]
fn tag_ends_at_the_first_closing_bracket() {
    let line = LineBuffer::new("<a x=\">\">");
    assert_eq!(line.next_fragment(0), found(FragmentKind::OpenTag, 0, 7));
    let line = LineBuffer::new("</>");
    assert_eq!(line.next_fragment(0), found(FragmentKind::CloseTag, 0, 3));
    let line = LineBuffer::new("<>");
    assert_eq!(line.next_fragment(0), found(FragmentKind::OpenTag, 0, 2));
    let line = LineBuffer::new("<<>");
    assert_eq!(line.next_fragment(0), found(FragmentKind::OpenTag, 0, 3));
}

#[test]
fn tag_without_closing_bracket_is_unterminated() {
    assert_eq!(LineBuffer::new("  <a x=\"1\"  ").next_fragment(0), Scan::Unterminated { start: 2 });
    assert_eq!(LineBuffer::new("</a").next_fragment(0), Scan::Unterminated { start: 0 });
    assert_eq!(LineBuffer::new("<a>text<b").next_fragment(3), found(FragmentKind::Text, 3, 7));
    assert_eq!(LineBuffer::new("<a>text<b").next_fragment(7), Scan::Unterminated { start: 7 });
    assert_eq!(LineBuffer::new("<").next_fragment(0), Scan::Unterminated { start: 0 });
}

#[test]
fn text_runs_to_the_next_tag_or_to_the_trimmed_end() {
    assert_eq!(LineBuffer::new("text  ").next_fragment(0), found(FragmentKind::Text, 0, 4));
    assert_eq!(LineBuffer::new("a > b <c>").next_fragment(0), found(FragmentKind::Text, 0, 6));
    assert_eq!(LineBuffer::new("\u{2603} x<c>").next_fragment(0), found(FragmentKind::Text, 0, 3));
}

#[test]
fn blank_line_has_no_fragment() {
    assert_eq!(LineBuffer::new("").next_fragment(0), Scan::Done);
    assert_eq!(LineBuffer::new("  \t  ").next_fragment(0), Scan::Done);
    assert_eq!(LineBuffer::new("  \t  ").next_fragment(3), Scan::Done);
}

#[test]
fn attributes_in_order() {
    assert_eq!(
        parse_attributes(" x=\"1\" y=\"2\""),
        Some(vec![pair("x", "1"), pair("y", "2")])
    );
    assert_eq!(
        parse_attributes("b=\"2\"\t\ta=\"1\"  b=\"3\" "),
        Some(vec![pair("b", "2"), pair("a", "1"), pair("b", "3")])
    );
    assert_eq!(parse_attributes("key9=\"\u{e9}\u{2603}\""), Some(vec![pair("key9", "\u{e9}\u{2603}")]));
}

#[test]
fn no_attributes() {
    assert_eq!(parse_attributes(""), Some(vec![]));
    assert_eq!(parse_attributes("   \t "), Some(vec![]));
}

#[test]
fn attribute_value_loses_its_quotes_only() {
    assert_eq!(parse_attributes("x=\"\""), Some(vec![pair("x", "")]));
    assert_eq!(parse_attributes("x=\"\"\""), Some(vec![pair("x", "\"")]));
    assert_eq!(parse_attributes("x=\"'v'\""), Some(vec![pair("x", "'v'")]));
    assert_eq!(parse_attributes("x=\"a>b\""), Some(vec![pair("x", "a>b")]));
}

#[test]
fn malformed_attributes() {
    for text in [
        "x",
        "x=",
        "x=1",
        "x=\"",
        "x=\"1",
        "x=1\"",
        "=\"1\"",
        "X=\"1\"",
        "1x=\"1\"",
        "x-y=\"1\"",
        "x==\"1\"",
        "x=\"1\"=",
        "x=\"a=b\"",
        "x=\"1\" y",
        "y x=\"1\"",
        "x=\"a b\"",
        "x = \"1\"",
        "/",
    ] {
        assert_eq!(parse_attributes(text), None, "{}", text);
    }
}
