use htmldom::dom::Node;
use htmldom::parser::parse;

/// A canonical serializer: attributes in the map's storage order, no
/// white space between elements, each value wrapped in whichever quote
/// it does not contain.
fn serialize(n: &Node) -> String {
    if let Some(p) = n.text_payload() {
        return p.clone();
    }
    let tag = n.tag_name().unwrap();
    let attrs = n.attributes().unwrap();
    let mut out = String::new();
    out.push('<');
    out.push_str(tag);
    let mut i: usize = 0;
    while i < attrs.len() {
        let (k, v) = attrs.entry(i);
        let q = if v.contains('"') { '\'' } else { '"' };
        out.push(' ');
        out.push_str(k);
        out.push('=');
        out.push(q);
        out.push_str(v);
        out.push(q);
        i += 1;
    }
    out.push('>');
    let children = n.children();
    let mut j: usize = 0;
    while j < children.len() {
        out.push_str(&serialize(&children[j]));
        j += 1;
    }
    out.push_str("</");
    out.push_str(tag);
    out.push('>');
    out
}

fn assert_round_trip(source: &str) {
    let first = parse(source.to_string()).unwrap_or_else(|_| panic!("{:?} must parse", source));
    let emitted = serialize(&first);
    let second = parse(emitted.clone())
        .unwrap_or_else(|_| panic!("{:?} must reparse (emitted {:?})", source, emitted));
    assert!(
        first.tree_eq(&second),
        "round trip changed the tree for {:?} (emitted {:?})",
        source,
        emitted
    );
}

#[test]
fn round_trip_plain_nesting() {
    assert_round_trip("<html><body>Hello</body></html>");
    assert_round_trip("<a><b></b><c></c></a>");
    assert_round_trip("<p>a<b>c</b>d</p>");
}

#[test]
fn round_trip_attributes() {
    assert_round_trip("<p class=\"x\" id=\"y\">hi</p>");
    assert_round_trip("<a k=\"it's\"></a>");
    assert_round_trip("<a k='say \"hi\"'></a>");
}

#[test]
fn round_trip_synthetic_root() {
    assert_round_trip("");
    assert_round_trip("   \n ");
    assert_round_trip("<a></a><b></b>");
    assert_round_trip("x<a></a>y");
}

#[test]
fn round_trip_text_root_and_whitespace() {
    assert_round_trip("hello world");
    assert_round_trip("<p> a b </p>");
    assert_round_trip("<ul> <li>1</li> <li>2</li> </ul>");
}
