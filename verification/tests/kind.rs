use ftd_p11::ast::kind::{
    BodyValue, Condition, HeaderValue, VariableKind, VariableModifier, VariableValue,
};
use ftd_p11::p11::parser::parse;
use ftd_p11::p11::section::Header;
use ftd_p11::Error;

fn is_if(key: &String, kind: &Option<String>) -> bool {
    key == "if" && kind.is_none()
}

fn text(value: &str, line_number: usize) -> VariableValue {
    VariableValue::String { value: value.to_string(), line_number }
}

fn absent() -> VariableValue {
    VariableValue::Optional(Box::new(None))
}

fn header(key: &str, value: Option<&str>, line_number: usize) -> Header {
    Header::KV {
        line_number,
        key: key.to_string(),
        kind: None,
        value: value.map(|v| v.to_string()),
    }
}

#[test]
fn kind_of_one_word() {
    assert_eq!(
        VariableKind::get_kind("string", "doc", 1),
        Ok(VariableKind { modifier: None, kind: "string".to_string() })
    );
}

#[test]
fn kind_optional() {
    assert_eq!(
        VariableKind::get_kind("optional string", "doc", 1),
        Ok(VariableKind { modifier: Some(VariableModifier::Optional), kind: "string".to_string() })
    );
}

#[test]
fn kind_list() {
    assert_eq!(
        VariableKind::get_kind("  string \t list ", "doc", 1),
        Ok(VariableKind { modifier: Some(VariableModifier::List), kind: "string".to_string() })
    );
}

#[test]
fn kind_optional_wins_over_list() {
    assert_eq!(
        VariableKind::get_kind("optional list", "doc", 1),
        Ok(VariableKind { modifier: Some(VariableModifier::Optional), kind: "list".to_string() })
    );
}

#[test]
fn modifier_words_stand_where_they_count() {
    assert_eq!(VariableModifier::get_modifier("list string"), None);
    assert_eq!(VariableModifier::get_modifier("string optional"), None);
    assert_eq!(VariableModifier::get_modifier("string list"), Some(VariableModifier::List));
    assert_eq!(VariableModifier::get_modifier("optional string"), Some(VariableModifier::Optional));
    assert_eq!(VariableModifier::get_modifier("optional"), None);
    assert_eq!(VariableModifier::get_modifier("optional string list"), None);
}

#[test]
fn kind_of_other_shapes_is_refused() {
    for annotation in ["", "   ", "a b", "list string", "a b c", "optional string list"] {
        assert_eq!(
            VariableKind::get_kind(annotation, "doc", 7),
            Err(Error::ParseError {
                message: format!("Invalid variable kind, found: `{}`", annotation),
                doc_id: "doc".to_string(),
                line_number: 7,
            })
        );
    }
}

#[test]
fn null_header_is_absent() {
    let h = header("nickname", Some("NULL"), 4);
    assert_eq!(VariableValue::from_p1_header(&h, &is_if), absent());
    let kind = VariableKind::get_kind("optional string", "doc", 4).unwrap();
    assert_eq!(
        VariableValue::from_header_with_modifier(&h, "doc", &kind.modifier, &is_if),
        Ok(absent())
    );
}

#[test]
fn header_text_is_a_string() {
    let h = header("nickname", Some("Al"), 4);
    assert_eq!(VariableValue::from_p1_header(&h, &is_if), text("Al", 4));
    assert_eq!(VariableValue::from_value(&None, 3), absent());
    assert_eq!(VariableValue::from_value(&Some("null".to_string()), 3), text("null", 3));
}

#[test]
fn list_of_absent_is_empty_and_stays() {
    let list = Some(VariableModifier::List);
    let once = absent().into_modifier("doc", 1, &list).unwrap();
    assert_eq!(once, VariableValue::List(vec![]));
    let twice = once.into_modifier("doc", 1, &list).unwrap();
    assert_eq!(twice, VariableValue::List(vec![]));
    let items = VariableValue::List(vec![text("a", 1)]);
    assert_eq!(
        items.clone().into_modifier("doc", 1, &list).unwrap().into_modifier("doc", 1, &list),
        Ok(items)
    );
}

#[test]
fn list_of_a_string_is_refused() {
    let got = text("x", 3).into_modifier("doc", 9, &Some(VariableModifier::List));
    assert_eq!(
        got,
        Err(Error::ParseError {
            message: "Expected List found: `String { value: \"x\", line_number: 3 }`".to_string(),
            doc_id: "doc".to_string(),
            line_number: 9,
        })
    );
}

#[test]
fn section_without_sub_sections_is_no_list() {
    let sections = parse("-- string list names: Alice", "doc").unwrap();
    let kind = VariableKind::get_kind(sections[0].kind.as_ref().unwrap(), "doc", 1).unwrap();
    assert_eq!(kind.modifier, Some(VariableModifier::List));
    let got = VariableValue::from_p1_with_modifier(&sections[0], "doc", &kind.modifier, &is_if);
    assert_eq!(
        got,
        Err(Error::ParseError {
            message: "Expected List found: `String { value: \"Alice\", line_number: 1 }`"
                .to_string(),
            doc_id: "doc".to_string(),
            line_number: 1,
        })
    );
}

#[test]
fn empty_section_as_list_is_empty() {
    let sections = parse("-- string list names:", "doc").unwrap();
    assert_eq!(VariableValue::from_p1(&sections[0], &is_if), absent());
    let got = VariableValue::from_p1_with_modifier(
        &sections[0],
        "doc",
        &Some(VariableModifier::List),
        &is_if,
    );
    assert_eq!(got, Ok(VariableValue::List(vec![])));
}

#[test]
fn optional_wraps_once() {
    let optional = Some(VariableModifier::Optional);
    let once = text("a", 1).into_modifier("doc", 1, &optional).unwrap();
    assert_eq!(once, VariableValue::Optional(Box::new(Some(text("a", 1)))));
    assert_eq!(once.clone().into_modifier("doc", 1, &optional), Ok(once.clone()));
    assert_eq!(once.inner(), Some(text("a", 1)));
    assert_eq!(absent().inner(), None);
    assert_eq!(text("a", 1).inner(), Some(text("a", 1)));
    assert_eq!(text("a", 1).into_modifier("doc", 1, &None), Ok(text("a", 1)));
}

#[test]
fn record_of_caption_headers_and_body() {
    let sections =
        parse("-- person: Alice\nage: 30\nif: $old\ncity: NULL\n\nShe lives here.", "doc").unwrap();
    let got = VariableValue::from_p1(&sections[0], &is_if);
    assert_eq!(
        got,
        VariableValue::Record {
            name: "person".to_string(),
            caption: Box::new(Some(text("Alice", 1))),
            headers: vec![
                HeaderValue { key: "age".to_string(), value: text("30", 0), line_number: 0 },
                HeaderValue { key: "city".to_string(), value: absent(), line_number: 2 },
            ],
            body: Some(BodyValue { value: "She lives here.".to_string(), line_number: 6 }),
            line_number: 1,
        }
    );
    assert_eq!(
        Condition::from_headers(&sections[0].headers, "doc", &is_if),
        Ok(Some(Condition { expression: "$old".to_string(), line_number: 1 }))
    );
}

#[test]
fn caption_alone_and_body_alone() {
    let sections = parse("-- a: one\n\n-- b:\n\ntwo\n\n-- c:", "doc").unwrap();
    assert_eq!(VariableValue::from_p1(&sections[0], &is_if), text("one", 1));
    assert_eq!(VariableValue::from_p1(&sections[1], &is_if), text("two", 6));
    assert_eq!(VariableValue::from_p1(&sections[2], &is_if), absent());
}

#[test]
fn sub_sections_make_a_list() {
    let sections = parse("-- list: ignored\n\n-- item: one\n\n-- item: two\n\n-- end: list", "doc")
        .unwrap();
    assert_eq!(sections.len(), 1);
    assert_eq!(
        VariableValue::from_p1(&sections[0], &is_if),
        VariableValue::List(vec![text("one", 3), text("two", 5)])
    );
}

#[test]
fn condition_without_expression() {
    let headers = vec![header("a", Some("1"), 2), header("if", None, 5)];
    assert_eq!(
        Condition::from_headers(&headers, "doc", &is_if),
        Err(Error::ParseError {
            message: "`if` condition must contain expression".to_string(),
            doc_id: "doc".to_string(),
            line_number: 5,
        })
    );
    assert_eq!(Condition::from_headers(&headers[..1].to_vec(), "doc", &is_if), Ok(None));
}

#[test]
fn modifier_words() {
    assert!(VariableModifier::is_optional_from_expr("optional"));
    assert!(!VariableModifier::is_optional_from_expr("Optional"));
    assert!(VariableModifier::is_list_from_expr("list"));
    assert!(!VariableModifier::is_list_from_expr("list "));
    assert!(VariableModifier::List.is_list());
    assert!(VariableModifier::Optional.is_optional());
    assert!(!VariableModifier::List.is_optional());
}

#[test]
fn builders() {
    assert_eq!(
        VariableKind::new("string", Some(VariableModifier::List)),
        VariableKind { modifier: Some(VariableModifier::List), kind: "string".to_string() }
    );
    assert_eq!(BodyValue::new("text", 3), BodyValue { value: "text".to_string(), line_number: 3 });
    assert_eq!(
        HeaderValue::new("k", text("v", 2), 2),
        HeaderValue { key: "k".to_string(), value: text("v", 2), line_number: 2 }
    );
    assert_eq!(Condition::new("$x", 4), Condition { expression: "$x".to_string(), line_number: 4 });
}

#[test]
fn header_parts() {
    let kv = Header::KV {
        line_number: 3,
        key: "k".to_string(),
        kind: Some("string".to_string()),
        value: None,
    };
    assert_eq!(kv.get_key(), "k");
    assert_eq!(kv.get_kind(), &Some("string".to_string()));
    assert_eq!(kv.get_line_number(), 3);
    let list = Header::Section { line_number: 9, key: "items".to_string(), kind: None, section: vec![] };
    assert_eq!(list.get_key(), "items");
    assert_eq!(list.get_kind(), &None);
    assert_eq!(list.get_line_number(), 9);
    assert_eq!(VariableValue::from_p1_header(&list, &is_if), VariableValue::List(vec![]));
    assert_eq!(list.clone(), list);
}

#[test]
fn header_of_sections_is_a_list() {
    let sections = parse(
        "-- page:\n\n-- page.items:\n\n-- item: one\nif: $show\n\n-- item: two\n\n-- end: page.items",
        "doc",
    )
    .unwrap();
    assert_eq!(sections.len(), 1);
    assert_eq!(
        VariableValue::from_p1(&sections[0], &is_if),
        VariableValue::Record {
            name: "page".to_string(),
            caption: Box::new(None),
            headers: vec![HeaderValue {
                key: "items".to_string(),
                value: VariableValue::List(vec![text("one", 5), text("two", 8)]),
                line_number: 8,
            }],
            body: None,
            line_number: 1,
        }
    );
    let everything = |_: &String, _: &Option<String>| true;
    assert_eq!(VariableValue::from_p1(&sections[0], &everything), absent());
    assert_eq!(
        Condition::from_headers(&sections[0].headers, "doc", &everything),
        Err(Error::ParseError {
            message: "`if` condition must contain expression".to_string(),
            doc_id: "doc".to_string(),
            line_number: 8,
        })
    );
}
