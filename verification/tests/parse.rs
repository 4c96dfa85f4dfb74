use htmldom::dom::{elem, text, AttrMap, Node};
use htmldom::parser::{parse, ParseError};

fn parse_ok(source: &str) -> Node {
    match parse(source.to_string()) {
        Ok(n) => n,
        Err(_) => panic!("expected {:?} to parse", source),
    }
}

fn parse_err(source: &str) -> ParseError {
    match parse(source.to_string()) {
        Ok(_) => panic!("expected {:?} to fail", source),
        Err(e) => e,
    }
}

fn attrs_of(pairs: &[(&str, &str)]) -> AttrMap {
    let mut m = AttrMap::new();
    for (k, v) in pairs {
        m.insert(k.to_string(), v.to_string());
    }
    m
}

#[test]
fn single_element_with_text() {
    let root = parse_ok("<html><body>Hello</body></html>");
    let expected = elem(
        "html".to_string(),
        AttrMap::new(),
        vec![elem(
            "body".to_string(),
            AttrMap::new(),
            vec![text("Hello".to_string())],
        )],
    );
    assert!(root.tree_eq(&expected));
}

#[test]
fn attributes_are_parsed() {
    let root = parse_ok("<p class=\"x\" id=\"y\">hi</p>");
    assert_eq!(root.tag_name().unwrap(), "p");
    let attrs = root.attributes().unwrap();
    assert_eq!(attrs.len(), 2);
    assert_eq!(attrs.get("class").unwrap(), "x");
    assert_eq!(attrs.get("id").unwrap(), "y");
    assert!(attrs.get("href").is_none());
    let children = root.children();
    assert_eq!(children.len(), 1);
    assert_eq!(children[0].text_payload().unwrap(), "hi");
    let expected = elem(
        "p".to_string(),
        attrs_of(&[("class", "x"), ("id", "y")]),
        vec![text("hi".to_string())],
    );
    assert!(root.tree_eq(&expected));
}

#[test]
fn nested_elements() {
    let root = parse_ok("<a><b></b><c></c></a>");
    let expected = elem(
        "a".to_string(),
        AttrMap::new(),
        vec![
            elem("b".to_string(), AttrMap::new(), vec![]),
            elem("c".to_string(), AttrMap::new(), vec![]),
        ],
    );
    assert!(root.tree_eq(&expected));
}

#[test]
fn two_top_level_elements_get_html_root() {
    let root = parse_ok("<a></a><b></b>");
    let expected = elem(
        "html".to_string(),
        AttrMap::new(),
        vec![
            elem("a".to_string(), AttrMap::new(), vec![]),
            elem("b".to_string(), AttrMap::new(), vec![]),
        ],
    );
    assert!(root.tree_eq(&expected));
}

#[test]
fn text_and_elements_interleave() {
    let root = parse_ok("<p>a<b>c</b>d</p>");
    let expected = elem(
        "p".to_string(),
        AttrMap::new(),
        vec![
            text("a".to_string()),
            elem("b".to_string(), AttrMap::new(), vec![text("c".to_string())]),
            text("d".to_string()),
        ],
    );
    assert!(root.tree_eq(&expected));
}

#[test]
fn mismatched_end_tag_reports_expected_literal() {
    match parse_err("<p>oops</q>") {
        ParseError::ExpectedLiteral { literal, offset } => {
            assert_eq!(literal, "p");
            assert_eq!(offset, 10);
        }
        other => panic!("wrong failure kind: {:?}", kind_of(&other)),
    }
}

#[test]
fn empty_input_gives_empty_html_root() {
    let root = parse_ok("");
    assert_eq!(root.tag_name().unwrap(), "html");
    assert_eq!(root.attributes().unwrap().len(), 0);
    assert_eq!(root.children().len(), 0);
}

#[test]
fn whitespace_only_input_gives_empty_html_root() {
    let root = parse_ok(" \t\r\n  ");
    assert_eq!(root.tag_name().unwrap(), "html");
    assert_eq!(root.children().len(), 0);
}

#[test]
fn bare_text_is_the_root() {
    let root = parse_ok("hello world");
    assert!(root.is_text());
    assert!(!root.is_element());
    assert_eq!(root.text_payload().unwrap(), "hello world");
    assert_eq!(root.children().len(), 0);
}

#[test]
fn opposite_quote_in_attribute_value_is_kept() {
    let root = parse_ok("<a k=\"it's\"></a>");
    assert_eq!(root.attributes().unwrap().get("k").unwrap(), "it's");
    let root2 = parse_ok("<a k='say \"hi\"'></a>");
    assert_eq!(root2.attributes().unwrap().get("k").unwrap(), "say \"hi\"");
}

#[test]
fn parsing_is_deterministic() {
    let source = "<p class=\"x\">a<b>c</b>d</p>";
    let first = parse_ok(source);
    let second = parse_ok(source);
    assert!(first.tree_eq(&second));
}

#[test]
fn whitespace_between_elements_is_discarded() {
    let tight = parse_ok("<a><b></b><c></c></a>");
    let spaced = parse_ok("<a> <b></b>\n\t<c></c>  </a>");
    assert!(tight.tree_eq(&spaced));
    let lead = parse_ok("  \n<a><b></b><c></c></a> ");
    assert!(tight.tree_eq(&lead));
}

#[test]
fn whitespace_inside_text_is_kept() {
    let root = parse_ok("<p> a b </p>");
    let children = root.children();
    assert_eq!(children.len(), 1);
    assert_eq!(children[0].text_payload().unwrap(), "a b ");
}

#[test]
fn duplicate_attribute_keeps_the_later_value() {
    let root = parse_ok("<a k=\"1\" k=\"2\"></a>");
    let attrs = root.attributes().unwrap();
    assert_eq!(attrs.len(), 1);
    assert_eq!(attrs.get("k").unwrap(), "2");
}

#[test]
fn unexpected_eof_in_attribute_list() {
    match parse_err("<a ") {
        ParseError::UnexpectedEof { offset } => assert_eq!(offset, 3),
        other => panic!("wrong failure kind: {:?}", kind_of(&other)),
    }
}

#[test]
fn unexpected_eof_in_attribute_value() {
    match parse_err("<a b=") {
        ParseError::UnexpectedEof { offset } => assert_eq!(offset, 5),
        other => panic!("wrong failure kind: {:?}", kind_of(&other)),
    }
}

#[test]
fn unexpected_eof_before_closing_quote() {
    match parse_err("<a b=\"x") {
        ParseError::UnexpectedEof { offset } => assert_eq!(offset, 7),
        other => panic!("wrong failure kind: {:?}", kind_of(&other)),
    }
}

#[test]
fn malformed_attribute_quote() {
    match parse_err("<a b=x>") {
        ParseError::MalformedAttributeQuote { offset } => assert_eq!(offset, 5),
        other => panic!("wrong failure kind: {:?}", kind_of(&other)),
    }
}

#[test]
fn missing_tag_name_is_rejected() {
    match parse_err("<>") {
        ParseError::ExpectedLiteral { literal, offset } => {
            assert_eq!(literal, "");
            assert_eq!(offset, 1);
        }
        other => panic!("wrong failure kind: {:?}", kind_of(&other)),
    }
}

#[test]
fn empty_end_tag_name_is_a_mismatch() {
    match parse_err("<a></>") {
        ParseError::ExpectedLiteral { literal, offset } => {
            assert_eq!(literal, "a");
            assert_eq!(offset, 5);
        }
        other => panic!("wrong failure kind: {:?}", kind_of(&other)),
    }
}

#[test]
fn missing_equals_sign() {
    match parse_err("<a b>") {
        ParseError::ExpectedLiteral { literal, offset } => {
            assert_eq!(literal, "=");
            assert_eq!(offset, 4);
        }
        other => panic!("wrong failure kind: {:?}", kind_of(&other)),
    }
}

#[test]
fn unclosed_element_reports_missing_end_tag() {
    match parse_err("<p>hi") {
        ParseError::ExpectedLiteral { literal, offset } => {
            assert_eq!(literal, "</");
            assert_eq!(offset, 5);
        }
        other => panic!("wrong failure kind: {:?}", kind_of(&other)),
    }
}

#[test]
fn error_offsets_are_byte_offsets() {
    match parse_err("<p>\u{e9}</q>") {
        ParseError::ExpectedLiteral { literal, offset } => {
            assert_eq!(literal, "p");
            assert_eq!(offset, 8);
        }
        other => panic!("wrong failure kind: {:?}", kind_of(&other)),
    }
}

#[test]
fn non_ascii_text_is_kept_verbatim() {
    let root = parse_ok("<p>caf\u{e9} \u{2603}</p>");
    let children = root.children();
    assert_eq!(children.len(), 1);
    assert_eq!(children[0].text_payload().unwrap(), "caf\u{e9} \u{2603}");
}

#[test]
fn case_sensitive_end_tags() {
    match parse_err("<a></A>") {
        ParseError::ExpectedLiteral { literal, offset } => {
            assert_eq!(literal, "a");
            assert_eq!(offset, 6);
        }
        other => panic!("wrong failure kind: {:?}", kind_of(&other)),
    }
}

#[test]
fn trailing_end_tag_after_the_root_is_ignored() {
    let root = parse_ok("<a></a></b>");
    let expected = elem("a".to_string(), AttrMap::new(), vec![]);
    assert!(root.tree_eq(&expected));
}

#[test]
fn tree_eq_distinguishes_different_trees() {
    let a = parse_ok("<a><b></b></a>");
    let b = parse_ok("<a><c></c></a>");
    assert!(!a.tree_eq(&b));
    let c = parse_ok("<a>x</a>");
    let d = parse_ok("<a>y</a>");
    assert!(!c.tree_eq(&d));
    assert!(!a.tree_eq(&c));
}

fn kind_of(e: &ParseError) -> &'static str {
    match e {
        ParseError::ExpectedLiteral { .. } => "ExpectedLiteral",
        ParseError::UnexpectedEof { .. } => "UnexpectedEof",
        ParseError::MalformedAttributeQuote { .. } => "MalformedAttributeQuote",
    }
}

#[test]
fn unicode_whitespace_is_discarded_between_elements() {
    let tight = parse_ok("<a><b></b></a>");
    let spaced = parse_ok("<a>\u{a0}\u{2003}<b></b>\u{3000}</a>");
    assert!(tight.tree_eq(&spaced));
}

#[test]
fn duplicate_attribute_among_others() {
    let root = parse_ok("<a x=\"1\" y=\"2\" x=\"3\"></a>");
    let attrs = root.attributes().unwrap();
    assert_eq!(attrs.len(), 2);
    assert_eq!(attrs.get("x").unwrap(), "3");
    assert_eq!(attrs.get("y").unwrap(), "2");
}
