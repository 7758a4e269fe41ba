use ftd_p11::p11::parser::{parse, Reading, State};
use ftd_p11::p11::section::{Body, Header, Section};
use ftd_p11::Error;

fn kv(line_number: usize, key: &str, kind: Option<&str>, value: Option<&str>) -> Header {
    Header::KV {
        line_number,
        key: key.to_string(),
        kind: kind.map(|k| k.to_string()),
        value: value.map(|v| v.to_string()),
    }
}

fn caption(line_number: usize, value: &str) -> Header {
    kv(line_number, "$caption$", None, Some(value))
}

fn section(name: &str, line_number: usize) -> Section {
    Section {
        name: name.to_string(),
        kind: None,
        caption: None,
        headers: vec![],
        body: None,
        sub_sections: vec![],
        is_commented: false,
        line_number,
        block_body: false,
    }
}

#[test]
fn section_with_inline_headers() {
    let got = parse("-- person: Alice\nage: 30\ncity: NYC", "doc").unwrap();
    let mut expected = section("person", 1);
    expected.caption = Some(caption(1, "Alice"));
    expected.headers = vec![kv(0, "age", None, Some("30")), kv(1, "city", None, Some("NYC"))];
    assert_eq!(got, vec![expected]);
}

#[test]
fn body_after_blank_line_and_comment() {
    let got = parse(";; comment\n-- greeting:\n\nHello, world.", "doc").unwrap();
    let mut expected = section("greeting", 2);
    expected.body = Some(Body { line_number: 4, value: "Hello, world.".to_string() });
    assert_eq!(got, vec![expected]);
}

#[test]
fn body_without_blank_line_is_refused() {
    let got = parse(";; comment\n-- greeting:\nHello, world.", "doc");
    assert_eq!(
        got,
        Err(Error::ParseError {
            message: "start section body 'Hello, world.' after a newline!!".to_string(),
            doc_id: "doc".to_string(),
            line_number: 3,
        })
    );
}

#[test]
fn duplicate_caption() {
    let got = parse("-- x: one\n-- x.caption:\ntwo", "doc");
    assert_eq!(
        got,
        Err(Error::MoreThanOneCaption { doc_id: "doc".to_string(), line_number: 1 })
    );
}

#[test]
fn block_headers_with_values_and_end() {
    let got = parse("-- list:\n\n-- list.item: one\n-- list.item: two\n-- end: list", "doc").unwrap();
    let mut expected = section("list", 1);
    expected.block_body = true;
    expected.headers = vec![kv(3, "item", None, Some("one")), kv(4, "item", None, Some("two"))];
    assert_eq!(got, vec![expected]);
}

#[test]
fn header_of_sections() {
    let got = parse(
        "-- list:\n\n-- list.item:\n\n-- item: one\n-- item: two\n-- end: list.item\n-- end: list",
        "doc",
    )
    .unwrap();
    let mut one = section("item", 5);
    one.caption = Some(caption(5, "one"));
    let mut two = section("item", 6);
    two.caption = Some(caption(6, "two"));
    let mut expected = section("list", 1);
    expected.block_body = true;
    expected.headers = vec![Header::Section {
        line_number: 6,
        key: "item".to_string(),
        kind: None,
        section: vec![one, two],
    }];
    assert_eq!(got, vec![expected]);
}

fn parse_error(message: &str, line_number: usize) -> Error {
    Error::ParseError {
        message: message.to_string(),
        doc_id: "doc".to_string(),
        line_number,
    }
}

#[test]
fn empty_document_has_no_sections() {
    assert_eq!(parse("", "doc"), Ok(vec![]));
    assert_eq!(parse("\n  \n\t\n", "doc"), Ok(vec![]));
    assert_eq!(parse(";; only a comment", "doc"), Ok(vec![]));
}

#[test]
fn text_before_any_section() {
    assert_eq!(
        parse("\n\nhello\n-- a:", "doc"),
        Err(Error::SectionNotFound { doc_id: "doc".to_string(), line_number: 1 })
    );
}

#[test]
fn introducer_without_colon() {
    assert_eq!(parse("\n/-- foo bar", "doc"), Err(parse_error(": is missing in:  foo bar", 2)));
    assert_eq!(parse("-- foo bar", "doc"), Err(parse_error(": is missing in:  foo bar", 1)));
}

#[test]
fn introducer_without_name() {
    assert_eq!(
        parse("-- : caption", "doc"),
        Err(parse_error("section name is missing in:  : caption", 1))
    );
}

#[test]
fn kind_name_and_caption() {
    let got = parse("  -- ftd.text list  names :  Alice and Bob  ", "doc").unwrap();
    let mut expected = section("names", 1);
    expected.kind = Some("ftd.text list ".to_string());
    expected.caption = Some(caption(1, "Alice and Bob"));
    assert_eq!(got, vec![expected]);
}

#[test]
fn commented_section() {
    let got = parse("/-- person: Alice\nage: 30", "doc").unwrap();
    let mut expected = section("person", 1);
    expected.is_commented = true;
    expected.caption = Some(caption(1, "Alice"));
    expected.headers = vec![kv(0, "age", None, Some("30"))];
    assert_eq!(got, vec![expected]);
}

#[test]
fn sections_follow_one_another() {
    let got = parse("-- a: 1\n-- b: 2\n\n\n-- c:", "doc").unwrap();
    let mut a = section("a", 1);
    a.caption = Some(caption(1, "1"));
    let mut b = section("b", 2);
    b.caption = Some(caption(2, "2"));
    let c = section("c", 5);
    assert_eq!(got, vec![a, b, c]);
}

#[test]
fn inline_headers_with_kinds_comments_and_empty_values() {
    let got = parse("-- a:\nstring name: Al\n;; a comment\nage:\n\\;; key: v\n\n", "doc").unwrap();
    let mut a = section("a", 1);
    a.headers = vec![
        kv(0, "name", Some("string"), Some("Al")),
        kv(2, "age", None, None),
        kv(3, "key", Some(";;"), Some("v")),
    ];
    assert_eq!(got, vec![a]);
}

#[test]
fn escaped_mark_in_body() {
    let got = parse("-- a:\n\n\\-- foo\nbar\n\\;; baz\n\\\\-- qux", "doc").unwrap();
    let mut a = section("a", 1);
    a.body = Some(Body { line_number: 6, value: "-- foo\nbar\n;; baz\n\\\\-- qux".to_string() });
    assert_eq!(got, vec![a]);
}

#[test]
fn body_keeps_inner_blank_lines_and_drops_comments() {
    let got = parse("-- a:\n\n\n  one\n\n;; gone\ntwo  \n\n\n-- b:", "doc").unwrap();
    let mut a = section("a", 1);
    a.body = Some(Body { line_number: 9, value: "one\n\ntwo".to_string() });
    let b = section("b", 10);
    assert_eq!(got, vec![a, b]);
}

#[test]
fn block_header_caption_and_body() {
    let got = parse(
        "-- a:\n\n-- a.caption:\n\nthe caption\n\n-- a.note:\n\nline one\nline two\n\n-- a.body:\n\nthe body\n",
        "doc",
    )
    .unwrap();
    let mut a = section("a", 1);
    a.block_body = true;
    a.caption = Some(caption(6, "the caption"));
    a.headers = vec![kv(11, "note", None, Some("line one\nline two"))];
    a.body = Some(Body { line_number: 14, value: "the body".to_string() });
    assert_eq!(got, vec![a]);
}

#[test]
fn block_header_with_an_empty_block() {
    let got = parse("-- a:\n\n-- a.note:\n\n\n-- a.other: x", "doc").unwrap();
    let mut a = section("a", 1);
    a.block_body = true;
    let mut other = section("a.other", 6);
    other.caption = Some(caption(6, "x"));
    assert_eq!(got, vec![a, other]);
    let got = parse("-- a:\n\n-- a.note:\n\n;; nothing\n\\-- \n-- a.other: x", "doc").unwrap();
    let mut a = section("a", 1);
    a.block_body = true;
    a.headers = vec![kv(6, "note", None, Some("--")), kv(7, "other", None, Some("x"))];
    assert_eq!(got, vec![a]);
}

#[test]
fn open_header_at_the_end_of_the_document() {
    let got = parse("-- a:\n\n-- a.note:\n\n", "doc").unwrap();
    let mut a = section("a", 1);
    a.block_body = true;
    assert_eq!(got, vec![a]);
}

#[test]
fn block_has_to_begin_with_a_blank_line() {
    assert_eq!(
        parse("-- a:\n\n-- a.note:\ntext", "doc"),
        Err(parse_error("start section header 'text' after a newline!!", 4))
    );
    assert_eq!(
        parse("-- a:\n\n-- a.caption:\ntext", "doc"),
        Err(parse_error("start section caption 'text' after a newline!!", 4))
    );
    assert_eq!(
        parse("-- a:\n\n-- a.body:\ntext", "doc"),
        Err(parse_error("start section body 'text' after a newline!!", 4))
    );
}

#[test]
fn second_caption_with_a_kind_is_refused() {
    assert_eq!(
        parse("-- a: one\n\n-- string a.caption:\n\ntwo", "doc"),
        Err(Error::MoreThanOneCaption { doc_id: "doc".to_string(), line_number: 1 })
    );
    assert_eq!(
        parse("-- a: one\n\n-- a.caption: two", "doc"),
        Err(Error::MoreThanOneCaption { doc_id: "doc".to_string(), line_number: 1 })
    );
    assert_eq!(
        parse("\n-- a:\n\n-- a.caption:\n\none\n\n-- string a.caption:\n\ntwo", "doc"),
        Err(Error::MoreThanOneCaption { doc_id: "doc".to_string(), line_number: 2 })
    );
}

#[test]
fn second_body_is_refused() {
    assert_eq!(
        parse("-- a:\n\n-- a.body:\n\none\n\n-- a.body:\n\ntwo", "doc"),
        Err(parse_error("more than one body", 1))
    );
    let got = parse("-- a:\n\n-- a.body:\n\n-- a.body:\n\ntwo", "doc").unwrap();
    let mut a = section("a", 1);
    a.block_body = true;
    a.body = Some(Body { line_number: 7, value: "two".to_string() });
    assert_eq!(got, vec![a]);
}

#[test]
fn a_failed_step_leaves_the_state() {
    let mut state = State::new("-- x: one\n-- x.caption:\ntwo", "doc");
    assert_eq!(state.next(), Ok(false));
    let before = (state.pos, state.line_number, state.state.len(), state.sections.len());
    assert_eq!(
        state.reading_block_headers(),
        Err(Error::MoreThanOneCaption { doc_id: "doc".to_string(), line_number: 1 })
    );
    assert_eq!((state.pos, state.line_number, state.state.len(), state.sections.len()), before);
    assert_eq!(state.state[0].readings, vec![Reading::Section]);
    assert_eq!(state.state[0].section.caption, Some(caption(1, "one")));
    let mut state = State::new("-- a:\n\n-- end: b", "doc");
    assert_eq!(state.next(), Ok(false));
    assert_eq!(state.end(), Err(parse_error("No section found to end: b", 1)));
    assert_eq!((state.pos, state.line_number, state.state.len()), (1, 1, 1));
    assert_eq!(state.state[0].readings, vec![Reading::Section]);
    let mut empty = State::new("text", "doc");
    assert_eq!(
        empty.reading_block_headers(),
        Err(Error::SectionNotFound { doc_id: "doc".to_string(), line_number: 0 })
    );
    assert_eq!((empty.pos, empty.sections.len(), empty.state.len()), (0, 0, 0));
}

#[test]
fn sub_sections_until_end() {
    let got = parse("-- a:\n\n-- b: 1\n\n-- c: 2\n\n-- end: a\n\n-- d:", "doc").unwrap();
    let mut b = section("b", 3);
    b.caption = Some(caption(3, "1"));
    let mut c = section("c", 5);
    c.caption = Some(caption(5, "2"));
    let mut a = section("a", 1);
    a.sub_sections = vec![b, c];
    let d = section("d", 9);
    assert_eq!(got, vec![a, d]);
}

#[test]
fn ends_follow_one_another() {
    let got = parse("-- a:\n\n-- b:\n\n-- c:\n\n-- end: b\n-- end: a", "doc").unwrap();
    let c = section("c", 5);
    let mut b = section("b", 3);
    b.sub_sections = vec![c];
    let mut a = section("a", 1);
    a.sub_sections = vec![b];
    assert_eq!(got, vec![a]);
}

#[test]
fn end_closes_what_is_open_above_its_target() {
    let got = parse("-- a:\n\n-- b:\n\n-- c:\n\n-- end: a", "doc").unwrap();
    let b = section("b", 3);
    let c = section("c", 5);
    let mut a = section("a", 1);
    a.sub_sections = vec![b, c];
    assert_eq!(got, vec![a]);
}

#[test]
fn end_without_open_section() {
    assert_eq!(parse("-- end: a", "doc"), Err(parse_error("No section found to end: a", 0)));
    assert_eq!(
        parse("-- a:\n\n-- end: b", "doc"),
        Err(parse_error("No section found to end: b", 1))
    );
    assert_eq!(
        parse("-- a:\n\n-- end: a\n-- end: a", "doc"),
        Err(parse_error("No section found to end: a", 3))
    );
}

#[test]
fn end_without_name() {
    assert_eq!(
        parse("-- a:\n\n-- end:", "doc"),
        Err(parse_error("section name not provided for `end`", 1))
    );
    assert_eq!(parse("-- a:\n\n-- end", "doc"), Err(parse_error(": is missing in:  end", 2)));
}

#[test]
fn second_caption_is_refused() {
    assert_eq!(
        parse("\n-- x: one\n\n-- x.caption: two", "doc"),
        Err(Error::MoreThanOneCaption { doc_id: "doc".to_string(), line_number: 2 })
    );
}

#[test]
fn comments_only_move_line_numbers() {
    let plain = parse("-- a: 1\nk: v\n\nbody\n-- b:", "doc").unwrap();
    let commented =
        parse(";; c\n-- a: 1\n;; c\nk: v\n;; c\n\n;; c\nbody\n;; c\n-- b:\n;; c", "doc").unwrap();
    let mut a = section("a", 1);
    a.caption = Some(caption(1, "1"));
    a.headers = vec![kv(0, "k", None, Some("v"))];
    a.body = Some(Body { line_number: 4, value: "body".to_string() });
    assert_eq!(plain, vec![a.clone(), section("b", 5)]);
    let mut moved = section("a", 2);
    moved.caption = Some(caption(2, "1"));
    moved.headers = vec![kv(1, "k", None, Some("v"))];
    moved.body = Some(Body { line_number: 9, value: "body".to_string() });
    assert_eq!(commented, vec![moved, section("b", 10)]);
}

#[test]
fn nested_section_error_is_reported() {
    assert_eq!(
        parse("-- a:\n\n-- a.list:\n\n/-- b", "doc"),
        Err(parse_error(": is missing in:  b", 5))
    );
}

#[test]
fn carriage_returns_are_whitespace() {
    let got = parse("-- a: 1\r\nk: v\r\n\r\nbody\r\n", "doc").unwrap();
    let mut a = section("a", 1);
    a.caption = Some(caption(1, "1"));
    a.headers = vec![kv(0, "k", None, Some("v"))];
    a.body = Some(Body { line_number: 4, value: "body".to_string() });
    assert_eq!(got, vec![a]);
}

#[test]
fn steps_of_the_parser() {
    let mut state = State::new("-- a: 1\nk: v\n\nbody\n-- end: a\n", "doc");
    assert_eq!((state.pos, state.line_number, state.total, state.lines.len()), (0, 0, 5, 5));
    assert_eq!(state.next(), Ok(false));
    assert_eq!((state.pos, state.line_number), (2, 2));
    assert_eq!(state.state.len(), 1);
    assert_eq!(state.state[0].readings, vec![Reading::Section]);
    assert_eq!(state.next(), Ok(false));
    assert_eq!(state.state[0].readings, vec![Reading::Section, Reading::Body]);
    assert_eq!(state.next(), Ok(false));
    assert_eq!((state.pos, state.line_number), (4, 4));
    assert_eq!(state.state[0].readings, vec![Reading::Section, Reading::Subsection]);
    assert_eq!(state.next(), Ok(true));
    assert_eq!((state.pos, state.line_number), (5, 5));
    assert!(state.state.is_empty());
    let mut a = section("a", 1);
    a.caption = Some(caption(1, "1"));
    a.headers = vec![kv(0, "k", None, Some("v"))];
    a.body = Some(Body { line_number: 4, value: "body".to_string() });
    assert_eq!(state.sections, vec![a]);
}

#[test]
fn section_copies() {
    let parsed = parse(
        "-- a: 1\nk: v\n\n-- a.list:\n\n-- b: 2\n\ntext\n\n-- end: a.list\n\n-- c:\n\n-- end: a",
        "doc",
    )
    .unwrap();
    assert_eq!(parsed.len(), 1);
    assert_eq!(parsed[0].sub_sections.len(), 1);
    assert_eq!(parsed[0].headers.len(), 2);
    assert_eq!(parsed.clone(), parsed);
    assert_eq!(parsed[0].duplicate(), parsed[0]);
}

#[test]
fn indented_end_marker() {
    let got = parse("-- a:\n\n-- b:\n\n  -- end: a\n\n-- c:", "doc").unwrap();
    let mut a = section("a", 1);
    a.sub_sections = vec![section("b", 3)];
    assert_eq!(got, vec![a, section("c", 7)]);
    let got = parse("-- a:\n\n-- b:\n\n  -- end: a", "doc").unwrap();
    let mut a = section("a", 1);
    a.sub_sections = vec![section("b", 3)];
    assert_eq!(got, vec![a]);
}

#[test]
fn long_document() {
    let mut content = String::new();
    for i in 0..4000 {
        content.push_str(&format!("-- s{}: caption {}\nkey: value\n\n;; note\nbody line\nmore\n\n", i, i));
    }
    content.push_str("-- top:\n\n");
    for i in 0..2000 {
        content.push_str(&format!("-- child: {}\n\n", i));
    }
    content.push_str("-- end: top\n");
    let sections = parse(&content, "doc").unwrap();
    assert_eq!(sections.len(), 4001);
    assert_eq!(sections[3999].name, "s3999");
    assert_eq!(sections[3999].line_number, 3999 * 7 + 1);
    assert_eq!(
        sections[3999].body,
        Some(Body { line_number: 3999 * 7 + 7, value: "body line\nmore".to_string() })
    );
    assert_eq!(sections[4000].sub_sections.len(), 2000);
    assert_eq!(sections[4000].sub_sections[1999].line_number, 28000 + 2 + 1999 * 2 + 1);
}

#[test]
fn a_comment_moves_what_stands_after_it() {
    let plain = parse("-- a: 1\nk: v\n\nbody\n-- b: 2\n\n-- b.note:\n\ntext\n", "doc").unwrap();
    let with = parse("-- a: 1\nk: v\n\n;; new\nbody\n-- b: 2\n\n-- b.note:\n\ntext\n", "doc").unwrap();
    assert_eq!((plain[0].line_number, with[0].line_number), (1, 1));
    assert_eq!((plain[1].line_number, with[1].line_number), (5, 6));
    assert_eq!(plain[0].headers, vec![kv(0, "k", None, Some("v"))]);
    assert_eq!(with[0].headers, plain[0].headers);
    assert_eq!(plain[0].body, Some(Body { line_number: 4, value: "body".to_string() }));
    assert_eq!(with[0].body, Some(Body { line_number: 5, value: "body".to_string() }));
    assert_eq!(plain[1].headers, vec![kv(9, "note", None, Some("text"))]);
    assert_eq!(with[1].headers, vec![kv(10, "note", None, Some("text"))]);
}

#[test]
fn a_comment_is_read_with_the_block_before_it() {
    let plain = parse("-- a:\n\nbody\n-- b:", "doc").unwrap();
    let with = parse("-- a:\n\nbody\n;; new\n-- b:", "doc").unwrap();
    assert_eq!(plain[0].body, Some(Body { line_number: 3, value: "body".to_string() }));
    assert_eq!(with[0].body, Some(Body { line_number: 4, value: "body".to_string() }));
    assert_eq!((plain[1].line_number, with[1].line_number), (4, 5));
    let between = parse("-- a:\n;; new\nk: v", "doc").unwrap();
    assert_eq!(between[0].headers, vec![kv(1, "k", None, Some("v"))]);
    let above = parse(";; new\n-- a:\nk: v", "doc").unwrap();
    assert_eq!(above[0].headers, vec![kv(0, "k", None, Some("v"))]);
    assert_eq!(above[0].line_number, 2);
}

#[test]
fn a_comment_below_the_blank_lines_at_the_end() {
    let plain = parse("-- a:\n\nbody\n\n", "doc").unwrap();
    let with = parse("-- a:\n\nbody\n\n\n;; new", "doc").unwrap();
    assert_eq!(plain[0].body, Some(Body { line_number: 3, value: "body".to_string() }));
    assert_eq!(with[0].body, Some(Body { line_number: 6, value: "body".to_string() }));
    assert_eq!((plain[0].line_number, with[0].line_number), (1, 1));
}
