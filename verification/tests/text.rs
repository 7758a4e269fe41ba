use ftd_p11::p11::line::{significant, split, Line};
use ftd_p11::p11::syntax::{
    clean_line, colon_separated_values, get_name_and_kind, is_body, is_caption, is_end,
    valid_line,
};
use ftd_p11::ssr::{ssr_raw_string, ssr_raw_string_without_test};
use ftd_p11::text::{
    blank, split_whitespace, to_chars, to_text, trimmed, trimmed_end, trimmed_start, whitespace,
};
use ftd_p11::Error;

fn chars(s: &str) -> Vec<char> {
    s.chars().collect()
}

#[test]
fn whitespace_is_the_unicode_property() {
    for code in 0..=0x10FFFFu32 {
        if let Some(c) = char::from_u32(code) {
            assert_eq!(whitespace(c), c.is_whitespace(), "code point {:x}", code);
        }
    }
}

#[test]
fn trimming_is_std_trimming() {
    for s in ["", " ", "a", "  a b \t", "\u{3000}x\u{a0}", "\n\n", " \u{85}é\u{2003} "] {
        assert_eq!(to_text(&trimmed(&chars(s))), s.trim());
        assert_eq!(to_text(&trimmed_start(&chars(s))), s.trim_start());
        assert_eq!(to_text(&trimmed_end(&chars(s))), s.trim_end());
        assert_eq!(blank(&chars(s)), s.trim().is_empty());
    }
}

#[test]
fn words_are_std_words() {
    for s in ["", "  ", "a", " a  b\tc\n", "optional string", "\u{3000}x\u{a0}y"] {
        let got: Vec<String> = split_whitespace(&chars(s)).iter().map(to_text).collect();
        let expected: Vec<String> = s.split_whitespace().map(|w| w.to_string()).collect();
        assert_eq!(got, expected);
    }
}

#[test]
fn text_round_trip() {
    let s = "héllo\n-- wörld";
    assert_eq!(to_chars(s), chars(s));
    assert_eq!(to_text(&chars(s)), s);
}

#[test]
fn lines_are_std_lines() {
    for s in ["", "a", "a\n", "\n", "a\nb\n\nc", "\n\n"] {
        let got: Vec<String> = split(&chars(s)).iter().map(to_text).collect();
        let expected: Vec<String> = s.split('\n').map(|l| l.to_string()).collect();
        assert_eq!(got, expected);
    }
}

#[test]
fn significant_lines_are_numbered() {
    let (lines, total) = significant(";; c\nfirst\n\n;; d\nlast  \n\n;; e\n  \n");
    assert_eq!(
        lines,
        vec![
            Line { text: chars("first"), number: 2 },
            Line { text: chars(""), number: 3 },
            Line { text: chars("last"), number: 5 },
        ]
    );
    assert_eq!(total, 7);
    assert_eq!(significant(" \n\n"), (vec![], 0));
}

#[test]
fn escapes_lose_one_backslash() {
    assert_eq!(to_text(&clean_line(&chars("\\-- foo"))), "-- foo");
    assert_eq!(to_text(&clean_line(&chars("\\;; foo"))), ";; foo");
    assert_eq!(to_text(&clean_line(&chars("\\\\-- foo"))), "\\\\-- foo");
    assert_eq!(to_text(&clean_line(&chars("\\--foo"))), "\\--foo");
    assert_eq!(to_text(&clean_line(&chars(" \\-- foo"))), " \\-- foo");
    assert_eq!(to_text(&clean_line(&chars("a\\nb"))), "a\\nb");
}

#[test]
fn comment_lines() {
    assert!(!valid_line(&chars(";; c")));
    assert!(!valid_line(&chars(";;")));
    assert!(valid_line(&chars(" ;; c")));
    assert!(valid_line(&chars(";")));
    assert!(valid_line(&chars("\\;; c")));
}

#[test]
fn reserved_names() {
    assert!(is_caption(&chars("caption")) && !is_caption(&chars("Caption")));
    assert!(is_body(&chars("body")) && !is_body(&chars("body ")));
    assert!(is_end(&chars("end")) && !is_end(&chars("")));
}

#[test]
fn colon_splits_once() {
    let (name, value) = colon_separated_values(1, &chars(" a b : c : d "), "doc").unwrap();
    assert_eq!(to_text(&name), "a b");
    assert_eq!(value.map(|v| to_text(&v)), Some("c : d".to_string()));
    let (name, value) = colon_separated_values(1, &chars("key:   "), "doc").unwrap();
    assert_eq!(to_text(&name), "key");
    assert_eq!(value, None);
    assert_eq!(
        colon_separated_values(4, &chars("no colon"), "doc"),
        Err(Error::ParseError {
            message: ": is missing in: no colon".to_string(),
            doc_id: "doc".to_string(),
            line_number: 4,
        })
    );
}

#[test]
fn name_is_after_the_last_space() {
    let (name, kind) = get_name_and_kind(&chars("a b  c"));
    assert_eq!(to_text(&name), "c");
    assert_eq!(kind.map(|k| to_text(&k)), Some("a b ".to_string()));
    let (name, kind) = get_name_and_kind(&chars("abc"));
    assert_eq!(to_text(&name), "abc");
    assert_eq!(kind, None);
}

#[test]
fn script_for_a_page() {
    let expected = "
        let __fastn_package_name__ = \"pkg\";\nmain = 1;
        let main_wrapper = function(parent) {
            let parenti0 = fastn_dom.createKernel(parent, fastn_dom.ElementKind.Column);
            parenti0.setProperty(fastn_dom.PropertyKind.Width, fastn_dom.Resizing.FillContainer, inherited);
            parenti0.setProperty(fastn_dom.PropertyKind.Height, fastn_dom.Resizing.FillContainer, inherited);
            main(parenti0);
        };
        fastnVirtual.ssr(main_wrapper);";
    assert_eq!(ssr_raw_string("pkg", "main = 1;"), expected);
    assert_eq!(
        ssr_raw_string_without_test("runtime();", "pkg", "main = 1;"),
        format!("runtime();{}", expected)
    );
}
