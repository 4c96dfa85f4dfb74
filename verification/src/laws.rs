//! The invariants of parsed trees, proved once and for all: text
//! payloads never contain `<`, tag names are non-empty ASCII
//! alphanumeric runs, attribute maps have no duplicate keys, and
//! parsing is a function of the input alone.
use crate::dom::attrs_contains_key;
use crate::dom::attrs_insert;
use crate::dom::attrs_unique;
use crate::dom::is_name_char;
use crate::dom::key_index;
use crate::dom::lemma_key_index;
use crate::dom::Node;
use crate::dom::NodeModel;
use crate::parser::bounded;
use crate::parser::byte_at;
use crate::parser::is_ws_char;
use crate::parser::lemma_scan;
use crate::parser::lemma_scan_is;
use crate::parser::lit_at;
use crate::parser::name_end;
use crate::parser::not_name;
use crate::parser::not_ws;
use crate::parser::parse_result_matches;
use crate::parser::scan;
use crate::parser::sp_attr;
use crate::parser::sp_attr_value;
use crate::parser::sp_attributes;
use crate::parser::sp_element;
use crate::parser::sp_node;
use crate::parser::sp_nodes;
use crate::parser::spec_parse;
use crate::parser::stop_at;
use crate::parser::text_end;
use crate::parser::ws_end;
use crate::parser::ErrModel;
use crate::parser::ParseError;
use vstd::prelude::*;
use vstd::utf8::encode_utf8;

verus! {

/// A well-formed attribute: a non-empty alphanumeric name, and a value
/// that does not hold both quote characters (it cannot hold the one
/// that delimited it).
pub open spec fn wf_attr(kv: (Seq<char>, Seq<char>)) -> bool {
    &&& kv.0.len() > 0
    &&& (forall|j: int| 0 <= j < kv.0.len() ==> is_name_char(#[trigger] kv.0[j]))
    &&& !(kv.1.contains('"') && kv.1.contains('\''))
}

/// A well-formed attribute map: unique keys, each entry well formed.
pub open spec fn wf_attrs(attrs: Seq<(Seq<char>, Seq<char>)>) -> bool {
    &&& attrs_unique(attrs)
    &&& (forall|i: int| 0 <= i < attrs.len() ==> wf_attr(#[trigger] attrs[i]))
}

/// A well-formed tree: no text payload contains `<`, every tag name is
/// a non-empty alphanumeric run, every attribute map is well formed.
pub open spec fn wf_node_model(m: NodeModel) -> bool
    decreases m,
{
    match m {
        NodeModel::Text { payload } => !payload.contains('<'),
        NodeModel::Element { tag, attrs, children } => {
            &&& tag.len() > 0
            &&& (forall|j: int| 0 <= j < tag.len() ==> is_name_char(#[trigger] tag[j]))
            &&& wf_attrs(attrs)
            &&& wf_children(children)
        },
    }
}

pub open spec fn wf_children(children: Seq<NodeModel>) -> bool
    decreases children,
{
    if children.len() == 0 {
        true
    } else {
        wf_node_model(children[0]) && wf_children(children.drop_first())
    }
}

pub proof fn lemma_wf_children_index(children: Seq<NodeModel>)
    ensures
        wf_children(children) <==> (forall|i: int|
            0 <= i < children.len() ==> wf_node_model(#[trigger] children[i])),
    decreases children,
{
    if children.len() > 0 {
        lemma_wf_children_index(children.drop_first());
        if wf_node_model(children[0]) && wf_children(children.drop_first()) {
            assert forall|i: int| 0 <= i < children.len() implies wf_node_model(
                #[trigger] children[i],
            ) by {
                if i > 0 {
                    assert(children[i] == children.drop_first()[i - 1]);
                }
            }
        }
        if forall|i: int| 0 <= i < children.len() ==> wf_node_model(#[trigger] children[i]) {
            assert forall|i: int|
                0 <= i < children.drop_first().len() implies wf_node_model(
                #[trigger] children.drop_first()[i],
            ) by {
                assert(children.drop_first()[i] == children[i + 1]);
            }
        }
    }
}

/// Inserting a well-formed attribute keeps the map well formed.
proof fn lemma_attrs_insert_wf(m: Seq<(Seq<char>, Seq<char>)>, k: Seq<char>, v: Seq<char>)
    requires
        wf_attrs(m),
        wf_attr((k, v)),
    ensures
        wf_attrs(attrs_insert(m, k, v)),
{
    if attrs_contains_key(m, k) {
        lemma_key_index(m, k);
        let i = key_index(m, k);
        let m2 = m.remove(i).push((k, v));
        assert forall|a: int, b: int| 0 <= a < b < m2.len() implies m2[a].0 != m2[b].0 by {
            if b < m2.len() - 1 {
                let oa: int = if a < i {
                    a
                } else {
                    a + 1
                };
                let ob: int = if b < i {
                    b
                } else {
                    b + 1
                };
                assert(m2[a] == m[oa]);
                assert(m2[b] == m[ob]);
            } else {
                let oa: int = if a < i {
                    a
                } else {
                    a + 1
                };
                assert(m2[a] == m[oa]);
                if m2[a].0 == k {
                    assert(m[oa].0 == m[i].0);
                }
            }
        }
        assert forall|a: int| 0 <= a < m2.len() implies wf_attr(#[trigger] m2[a]) by {
            if a < m2.len() - 1 {
                let oa: int = if a < i {
                    a
                } else {
                    a + 1
                };
                assert(m2[a] == m[oa]);
            }
        }
    } else {
        let m2 = m.push((k, v));
        assert forall|a: int, b: int| 0 <= a < b < m2.len() implies m2[a].0 != m2[b].0 by {
            if b < m2.len() - 1 {
                assert(m2[a] == m[a]);
                assert(m2[b] == m[b]);
            } else {
                assert(m2[a] == m[a]);
                if m2[a].0 == k {
                    assert(attrs_contains_key(m, k));
                }
            }
        }
        assert forall|a: int| 0 <= a < m2.len() implies wf_attr(#[trigger] m2[a]) by {
            if a < m2.len() - 1 {
                assert(m2[a] == m[a]);
            }
        }
    }
}

/// A parsed attribute value is within bounds and free of its
/// delimiting quote.
proof fn lemma_sp_attr_value_wf(s: Seq<char>, pos: int)
    requires
        0 <= pos <= s.len(),
    ensures
        sp_attr_value(s, pos) matches Ok(t) ==> pos < t.1 <= s.len() && !(t.0.contains('"')
            && t.0.contains('\'')),
{
    if pos < s.len() {
        let q = s[pos];
        if q == '"' || q == '\'' {
            lemma_scan(s, pos + 1, stop_at(q));
            let ve = scan(s, pos + 1, stop_at(q));
            if ve < s.len() {
                let value = s.subrange(pos + 1, ve);
                if value.contains(q) {
                    let j = choose|j: int| 0 <= j < value.len() && value[j] == q;
                    assert(s[pos + 1 + j] == q);
                    assert(stop_at(q)(s[pos + 1 + j]));
                }
            }
        }
    }
}

/// A parsed attribute is well formed and makes progress.
proof fn lemma_sp_attr_wf(s: Seq<char>, pos: int)
    requires
        0 <= pos <= s.len(),
    ensures
        sp_attr(s, pos) matches Ok(t) ==> pos < t.1 <= s.len() && wf_attr(t.0),
{
    let ne = name_end(s, pos);
    lemma_scan(s, pos, not_name());
    assert forall|j: int| pos <= j < ne implies is_name_char(s[j]) by {
        assert(!not_name()(s[j]));
    }
    if ne != pos && lit_at(s, ne, "="@) {
        reveal_strlit("=");
        lemma_sp_attr_value_wf(s, ne + 1);
    }
}

/// Every attribute list the grammar accepts is a well-formed map, and
/// the cursor stays within bounds.
proof fn lemma_sp_attributes_wf(s: Seq<char>, pos: int, acc: Seq<(Seq<char>, Seq<char>)>)
    requires
        0 <= pos <= s.len(),
        wf_attrs(acc),
    ensures
        sp_attributes(s, pos, acc) matches Ok(t) ==> pos <= t.1 <= s.len() && wf_attrs(t.0),
    decreases s.len() - pos,
{
    let p1 = bounded(pos, s.len() as int, ws_end(s, pos));
    if p1 < s.len() && s[p1] != '>' {
        lemma_sp_attr_wf(s, p1);
        match sp_attr(s, p1) {
            Ok(((k, v), e)) => {
                lemma_attrs_insert_wf(acc, k, v);
                lemma_sp_attributes_wf(
                    s,
                    bounded(p1 + 1, s.len() as int, e),
                    attrs_insert(acc, k, v),
                );
            },
            Err(_) => {},
        }
    }
}

/// Every node list the grammar accepts consists of well-formed trees.
proof fn lemma_sp_nodes_wf(s: Seq<char>, pos: int)
    requires
        0 <= pos <= s.len(),
    ensures
        sp_nodes(s, pos) matches Ok(t) ==> pos <= t.1 <= s.len() && wf_children(t.0),
    decreases s.len() - pos, 2int,
{
    let p1 = bounded(pos, s.len() as int, ws_end(s, pos));
    if p1 >= s.len() || lit_at(s, p1, "</"@) {
    } else {
        lemma_sp_node_wf(s, p1);
        match sp_node(s, p1) {
            Ok((n, e)) => {
                let p2 = bounded(p1 + 1, s.len() as int, e);
                lemma_sp_nodes_wf(s, p2);
                match sp_nodes(s, p2) {
                    Ok((rest, _e2)) => {
                        assert((seq![n] + rest).drop_first() =~= rest);
                        assert((seq![n] + rest)[0] == n);
                    },
                    Err(_) => {},
                }
            },
            Err(_) => {},
        }
    }
}

/// Every node the grammar accepts is a well-formed tree; a node that
/// starts before the end of the input consumes at least one character.
proof fn lemma_sp_node_wf(s: Seq<char>, pos: int)
    requires
        0 <= pos <= s.len(),
    ensures
        sp_node(s, pos) matches Ok(t) ==> pos <= t.1 <= s.len() && wf_node_model(t.0),
    decreases s.len() - pos, 1int,
{
    if 0 <= pos < s.len() && s[pos] == '<' {
        lemma_sp_element_wf(s, pos);
    } else {
        let te = text_end(s, pos);
        lemma_scan(s, pos, stop_at('<'));
        let payload = s.subrange(pos, te);
        if payload.contains('<') {
            let j = choose|j: int| 0 <= j < payload.len() && payload[j] == '<';
            assert(s[pos + j] == '<');
            assert(!stop_at('<')(s[pos + j]));
        }
    }
}

/// Every element the grammar accepts is a well-formed tree.
proof fn lemma_sp_element_wf(s: Seq<char>, pos: int)
    requires
        0 <= pos <= s.len(),
    ensures
        sp_element(s, pos) matches Ok(t) ==> pos <= t.1 <= s.len() && wf_node_model(t.0),
    decreases s.len() - pos, 0int,
{
    if lit_at(s, pos, "<"@) {
        reveal_strlit("<");
        reveal_strlit(">");
        reveal_strlit("</");
        let ne = name_end(s, pos + 1);
        lemma_scan(s, pos + 1, not_name());
        if ne != pos + 1 {
            let tag = s.subrange(pos + 1, ne);
            assert forall|j: int| 0 <= j < tag.len() implies is_name_char(tag[j]) by {
                assert(!not_name()(s[pos + 1 + j]));
            }
            lemma_sp_attributes_wf(s, bounded(pos + 1, s.len() as int, ne), Seq::empty());
            match sp_attributes(s, bounded(pos + 1, s.len() as int, ne), Seq::empty()) {
                Ok((_attrs, p2)) => {
                    if lit_at(s, p2, ">"@) {
                        lemma_sp_nodes_wf(s, bounded(pos + 1, s.len() as int, p2 + 1));
                        match sp_nodes(s, bounded(pos + 1, s.len() as int, p2 + 1)) {
                            Ok((_children, p3)) => {
                                if lit_at(s, p3, "</"@) {
                                    lemma_scan(s, p3 + 2, not_name());
                                }
                            },
                            Err(_) => {},
                        }
                    }
                },
                Err(_) => {},
            }
        }
    }
}

/// Whether `n` occurs in the tree rooted at `m`: the root itself or a
/// node inside one of its children.
pub open spec fn in_tree(n: NodeModel, m: NodeModel) -> bool
    decreases m,
{
    n == m || match m {
        NodeModel::Element { children, .. } => in_children(n, children),
        NodeModel::Text { .. } => false,
    }
}

pub open spec fn in_children(n: NodeModel, cs: Seq<NodeModel>) -> bool
    decreases cs,
{
    if cs.len() == 0 {
        false
    } else {
        in_tree(n, cs[0]) || in_children(n, cs.drop_first())
    }
}

/// Well-formedness descends to every node in the tree.
pub proof fn lemma_wf_in_tree(n: NodeModel, m: NodeModel)
    requires
        wf_node_model(m),
        in_tree(n, m),
    ensures
        wf_node_model(n),
    decreases m,
{
    if n != m {
        match m {
            NodeModel::Element { children, .. } => {
                lemma_wf_in_children(n, children);
            },
            NodeModel::Text { .. } => {},
        }
    }
}

proof fn lemma_wf_in_children(n: NodeModel, cs: Seq<NodeModel>)
    requires
        wf_children(cs),
        in_children(n, cs),
    ensures
        wf_node_model(n),
    decreases cs,
{
    if cs.len() > 0 {
        if in_tree(n, cs[0]) {
            lemma_wf_in_tree(n, cs[0]);
        } else {
            lemma_wf_in_children(n, cs.drop_first());
        }
    }
}

/// Everything `parse` accepts is a well-formed tree: the root it
/// returns, synthetic or not, satisfies `wf_node_model`.
pub proof fn lemma_parse_wf(source: Seq<char>, root: NodeModel)
    requires
        spec_parse(source) == Ok::<NodeModel, ErrModel>(root),
    ensures
        wf_node_model(root),
{
    lemma_sp_nodes_wf(source, 0);
    match sp_nodes(source, 0) {
        Ok((ns, _e)) => {
            lemma_wf_children_index(ns);
            if ns.len() == 1 {
            } else {
                reveal_strlit("html");
                assert("html"@.len() == 4);
                assert forall|j: int| 0 <= j < "html"@.len() implies is_name_char(
                    #[trigger] "html"@[j],
                ) by {
                    if j == 0 {
                        assert(is_name_char('h'));
                    } else if j == 1 {
                        assert(is_name_char('t'));
                    } else if j == 2 {
                        assert(is_name_char('m'));
                    } else {
                        assert(is_name_char('l'));
                    }
                }
            }
        },
        Err(_) => {},
    }
}

/// No text node anywhere in a parsed tree holds a `<` character.
pub proof fn lemma_parsed_text_free_of_lt(source: Seq<char>, root: NodeModel, n: NodeModel)
    requires
        spec_parse(source) == Ok::<NodeModel, ErrModel>(root),
        in_tree(n, root),
    ensures
        n matches NodeModel::Text { payload } ==> !payload.contains('<'),
{
    lemma_parse_wf(source, root);
    lemma_wf_in_tree(n, root);
}

/// Every element anywhere in a parsed tree has a non-empty ASCII
/// alphanumeric tag name.
pub proof fn lemma_parsed_tag_names(source: Seq<char>, root: NodeModel, n: NodeModel)
    requires
        spec_parse(source) == Ok::<NodeModel, ErrModel>(root),
        in_tree(n, root),
    ensures
        n matches NodeModel::Element { tag, .. } ==> tag.len() > 0 && (forall|j: int|
            0 <= j < tag.len() ==> is_name_char(#[trigger] tag[j])),
{
    lemma_parse_wf(source, root);
    lemma_wf_in_tree(n, root);
}

/// Every element anywhere in a parsed tree has an attribute map with
/// no duplicate keys.
pub proof fn lemma_parsed_attrs_unique(source: Seq<char>, root: NodeModel, n: NodeModel)
    requires
        spec_parse(source) == Ok::<NodeModel, ErrModel>(root),
        in_tree(n, root),
    ensures
        n matches NodeModel::Element { attrs, .. } ==> attrs_unique(attrs),
{
    lemma_parse_wf(source, root);
    lemma_wf_in_tree(n, root);
}

/// A text root serializes to its bare payload, and parsing a payload
/// that is non-empty, free of `<` and not starting with white space
/// gives the same tree back.
proof fn lemma_text_root_round_trip(payload: Seq<char>)
    requires
        payload.len() > 0,
        !payload.contains('<'),
        !is_ws_char(payload[0]),
    ensures
        spec_parse(payload) == Ok::<NodeModel, ErrModel>(NodeModel::Text { payload }),
{
    let s = payload;
    reveal_strlit("</");
    lemma_scan_is(s, 0, not_ws(), 0);
    assert(bounded(0, s.len() as int, ws_end(s, 0)) == 0);
    assert forall|i: int| 0 <= i < s.len() implies s[i] != '<' by {
        if s[i] == '<' {
            assert(s.contains('<'));
        }
    }
    assert(!lit_at(s, 0, "</"@)) by {
        if s.len() >= 2 {
            assert(s[0] != "</"@[0]);
        }
    }
    assert forall|i: int| 0 <= i < s.len() implies !stop_at('<')(s[i]) by {
        if s[i] == '<' {
            assert(s.contains('<'));
        }
    }
    lemma_scan_is(s, 0, stop_at('<'), s.len() as int);
    assert(s.subrange(0, s.len() as int) =~= s);
    assert(sp_node(s, 0) == Ok::<(NodeModel, int), ErrModel>((
        NodeModel::Text { payload },
        s.len() as int,
    )));
    let e = bounded(1, s.len() as int, s.len() as int);
    assert(e == s.len());
    lemma_scan_is(s, e, not_ws(), e);
    assert(sp_nodes(s, e) == Ok::<(Seq<NodeModel>, int), ErrModel>((Seq::empty(), e)));
    assert(seq![NodeModel::Text { payload }] + Seq::<NodeModel>::empty() =~= seq![
        NodeModel::Text { payload },
    ]);
    assert(sp_nodes(s, 0) == Ok::<(Seq<NodeModel>, int), ErrModel>((
        seq![NodeModel::Text { payload }],
        e,
    )));
}


/// A failure, with its byte offset moved past a prefix of `u.len()`
/// characters.
pub open spec fn shift_err(u: Seq<char>, e: ErrModel) -> ErrModel {
    match e {
        ErrModel::ExpectedLiteral { literal, offset } => (ErrModel::ExpectedLiteral {
            literal,
            offset: offset + encode_utf8(u).len(),
        }),
        ErrModel::UnexpectedEof { offset } => (ErrModel::UnexpectedEof {
            offset: offset + encode_utf8(u).len(),
        }),
        ErrModel::MalformedAttributeQuote { offset } => (ErrModel::MalformedAttributeQuote {
            offset: offset + encode_utf8(u).len(),
        }),
    }
}

/// The UTF-8 encoding of a concatenation is the concatenation of the
/// encodings.
proof fn lemma_encode_utf8_concat(a: Seq<char>, b: Seq<char>)
    ensures
        encode_utf8(a + b) == encode_utf8(a) + encode_utf8(b),
    decreases a.len(),
{
    if a.len() == 0 {
        assert(a + b =~= b);
        assert(encode_utf8(a) + encode_utf8(b) =~= encode_utf8(b));
    } else {
        assert((a + b)[0] == a[0]);
        assert((a + b).drop_first() =~= a.drop_first() + b);
        lemma_encode_utf8_concat(a.drop_first(), b);
        assert(encode_utf8(a + b) =~= encode_utf8(a) + encode_utf8(b));
    }
}

proof fn lemma_byte_at_shift(u: Seq<char>, s: Seq<char>, p: int)
    requires
        0 <= p <= s.len(),
    ensures
        byte_at(u + s, u.len() + p) == encode_utf8(u).len() + byte_at(s, p),
{
    assert((u + s).subrange(0, u.len() + p) =~= u + s.subrange(0, p));
    lemma_encode_utf8_concat(u, s.subrange(0, p));
}

proof fn lemma_scan_shift(u: Seq<char>, s: Seq<char>, p: int, f: spec_fn(char) -> bool)
    requires
        0 <= p <= s.len(),
    ensures
        scan(u + s, u.len() + p, f) == u.len() + scan(s, p, f),
{
    let e = scan(s, p, f);
    lemma_scan(s, p, f);
    assert forall|i: int| u.len() + p <= i < u.len() + e implies !f((u + s)[i]) by {
        assert((u + s)[i] == s[i - u.len()]);
    }
    if e < s.len() {
        assert((u + s)[u.len() + e] == s[e]);
    }
    lemma_scan_is(u + s, u.len() + p, f, u.len() + e);
}

proof fn lemma_lit_shift(u: Seq<char>, s: Seq<char>, p: int, lit: Seq<char>)
    requires
        0 <= p,
    ensures
        lit_at(u + s, u.len() + p, lit) == lit_at(s, p, lit),
{
    if lit_at(s, p, lit) {
        assert forall|i: int| 0 <= i < lit.len() implies (u + s)[u.len() + p + i] == lit[i] by {
            assert((u + s)[u.len() + p + i] == s[p + i]);
        }
    }
    if lit_at(u + s, u.len() + p, lit) {
        assert forall|i: int| 0 <= i < lit.len() implies s[p + i] == lit[i] by {
            assert((u + s)[u.len() + p + i] == s[p + i]);
        }
    }
}

/// Parsing depends only on the input from the cursor on: a prefix
/// shifts positions and error offsets and nothing else.
proof fn lemma_sp_attr_value_shift(u: Seq<char>, s: Seq<char>, pos: int)
    requires
        0 <= pos <= s.len(),
    ensures
        sp_attr_value(u + s, u.len() + pos) == (match sp_attr_value(s, pos) {
            Ok((v, e)) => Ok::<(Seq<char>, int), ErrModel>((v, u.len() + e)),
            Err(e) => Err::<(Seq<char>, int), ErrModel>(shift_err(u, e)),
        }),
{
    lemma_byte_at_shift(u, s, pos);
    if pos < s.len() {
        assert((u + s)[u.len() + pos] == s[pos]);
        let q = s[pos];
        if q == '"' || q == '\'' {
            lemma_scan_shift(u, s, pos + 1, stop_at(q));
            let ve = scan(s, pos + 1, stop_at(q));
            lemma_scan(s, pos + 1, stop_at(q));
            lemma_byte_at_shift(u, s, ve);
            if ve < s.len() {
                assert((u + s).subrange(u.len() + pos + 1, u.len() + ve) =~= s.subrange(
                    pos + 1,
                    ve,
                ));
            }
        }
    }
}

proof fn lemma_sp_attr_shift(u: Seq<char>, s: Seq<char>, pos: int)
    requires
        0 <= pos <= s.len(),
    ensures
        sp_attr(u + s, u.len() + pos) == (match sp_attr(s, pos) {
            Ok((kv, e)) => Ok::<((Seq<char>, Seq<char>), int), ErrModel>((kv, u.len() + e)),
            Err(e) => Err::<((Seq<char>, Seq<char>), int), ErrModel>(shift_err(u, e)),
        }),
{
    lemma_scan_shift(u, s, pos, not_name());
    let ne = name_end(s, pos);
    lemma_scan(s, pos, not_name());
    lemma_byte_at_shift(u, s, pos);
    lemma_byte_at_shift(u, s, ne);
    lemma_lit_shift(u, s, ne, "="@);
    if ne != pos && lit_at(s, ne, "="@) {
        reveal_strlit("=");
        lemma_sp_attr_value_shift(u, s, ne + 1);
        assert((u + s).subrange(u.len() + pos, u.len() + ne) =~= s.subrange(pos, ne));
    }
}

proof fn lemma_sp_attributes_shift(
    u: Seq<char>,
    s: Seq<char>,
    pos: int,
    acc: Seq<(Seq<char>, Seq<char>)>,
)
    requires
        0 <= pos <= s.len(),
    ensures
        sp_attributes(u + s, u.len() + pos, acc) == (match sp_attributes(s, pos, acc) {
            Ok((m, e)) => Ok::<(Seq<(Seq<char>, Seq<char>)>, int), ErrModel>((m, u.len() + e)),
            Err(e) => Err::<(Seq<(Seq<char>, Seq<char>)>, int), ErrModel>(shift_err(u, e)),
        }),
    decreases s.len() - pos,
{
    lemma_scan_shift(u, s, pos, not_ws());
    lemma_scan(s, pos, not_ws());
    let p1 = bounded(pos, s.len() as int, ws_end(s, pos));
    assert(bounded(u.len() + pos, (u + s).len() as int, ws_end(u + s, u.len() + pos)) == u.len()
        + p1);
    lemma_byte_at_shift(u, s, p1);
    if p1 < s.len() {
        assert((u + s)[u.len() + p1] == s[p1]);
        if s[p1] != '>' {
            lemma_sp_attr_shift(u, s, p1);
            match sp_attr(s, p1) {
                Ok(((k, v), e)) => {
                    let p2 = bounded(p1 + 1, s.len() as int, e);
                    assert(bounded(u.len() + p1 + 1, (u + s).len() as int, u.len() + e) == u.len()
                        + p2);
                    lemma_sp_attributes_shift(u, s, p2, attrs_insert(acc, k, v));
                },
                Err(_) => {},
            }
        }
    }
}

proof fn lemma_sp_nodes_shift(u: Seq<char>, s: Seq<char>, pos: int)
    requires
        0 <= pos <= s.len(),
    ensures
        sp_nodes(u + s, u.len() + pos) == (match sp_nodes(s, pos) {
            Ok((ns, e)) => Ok::<(Seq<NodeModel>, int), ErrModel>((ns, u.len() + e)),
            Err(e) => Err::<(Seq<NodeModel>, int), ErrModel>(shift_err(u, e)),
        }),
    decreases s.len() - pos, 2int,
{
    lemma_scan_shift(u, s, pos, not_ws());
    lemma_scan(s, pos, not_ws());
    let p1 = bounded(pos, s.len() as int, ws_end(s, pos));
    assert(bounded(u.len() + pos, (u + s).len() as int, ws_end(u + s, u.len() + pos)) == u.len()
        + p1);
    lemma_lit_shift(u, s, p1, "</"@);
    if p1 >= s.len() || lit_at(s, p1, "</"@) {
    } else {
        lemma_sp_node_shift(u, s, p1);
        match sp_node(s, p1) {
            Ok((_n, e)) => {
                let p2 = bounded(p1 + 1, s.len() as int, e);
                assert(bounded(u.len() + p1 + 1, (u + s).len() as int, u.len() + e) == u.len()
                    + p2);
                lemma_sp_nodes_shift(u, s, p2);
            },
            Err(_) => {},
        }
    }
}

proof fn lemma_sp_node_shift(u: Seq<char>, s: Seq<char>, pos: int)
    requires
        0 <= pos <= s.len(),
    ensures
        sp_node(u + s, u.len() + pos) == (match sp_node(s, pos) {
            Ok((n, e)) => Ok::<(NodeModel, int), ErrModel>((n, u.len() + e)),
            Err(e) => Err::<(NodeModel, int), ErrModel>(shift_err(u, e)),
        }),
    decreases s.len() - pos, 1int,
{
    if pos < s.len() {
        assert((u + s)[u.len() + pos] == s[pos]);
    }
    if 0 <= pos < s.len() && s[pos] == '<' {
        lemma_sp_element_shift(u, s, pos);
    } else {
        lemma_scan_shift(u, s, pos, stop_at('<'));
        let te = text_end(s, pos);
        lemma_scan(s, pos, stop_at('<'));
        assert((u + s).subrange(u.len() + pos, u.len() + te) =~= s.subrange(pos, te));
    }
}

#[verifier::rlimit(100)]
#[verifier::spinoff_prover]
proof fn lemma_sp_element_shift(u: Seq<char>, s: Seq<char>, pos: int)
    requires
        0 <= pos <= s.len(),
    ensures
        sp_element(u + s, u.len() + pos) == (match sp_element(s, pos) {
            Ok((n, e)) => Ok::<(NodeModel, int), ErrModel>((n, u.len() + e)),
            Err(e) => Err::<(NodeModel, int), ErrModel>(shift_err(u, e)),
        }),
    decreases s.len() - pos, 0int,
{
    lemma_lit_shift(u, s, pos, "<"@);
    lemma_byte_at_shift(u, s, pos);
    if lit_at(s, pos, "<"@) {
        reveal_strlit("<");
        lemma_scan_shift(u, s, pos + 1, not_name());
        let ne = name_end(s, pos + 1);
        lemma_scan(s, pos + 1, not_name());
        lemma_byte_at_shift(u, s, pos + 1);
        if ne != pos + 1 {
            assert((u + s).subrange(u.len() + pos + 1, u.len() + ne) =~= s.subrange(pos + 1, ne));
            let pa = bounded(pos + 1, s.len() as int, ne);
            assert(bounded(u.len() + pos + 1, (u + s).len() as int, u.len() + ne) == u.len() + pa);
            lemma_sp_attributes_shift(u, s, pa, Seq::empty());
            match sp_attributes(s, pa, Seq::empty()) {
                Ok((_attrs, p2)) => {
                    lemma_sp_attributes_wf(s, pa, Seq::empty());
                    lemma_lit_shift(u, s, p2, ">"@);
                    lemma_byte_at_shift(u, s, p2);
                    if lit_at(s, p2, ">"@) {
                        reveal_strlit(">");
                        let pc = bounded(pos + 1, s.len() as int, p2 + 1);
                        assert(bounded(u.len() + pos + 1, (u + s).len() as int, u.len() + p2 + 1)
                            == u.len() + pc);
                        lemma_sp_nodes_shift(u, s, pc);
                        match sp_nodes(s, pc) {
                            Ok((_children, p3)) => {
                                lemma_sp_nodes_wf(s, pc);
                                lemma_lit_shift(u, s, p3, "</"@);
                                lemma_byte_at_shift(u, s, p3);
                                if lit_at(s, p3, "</"@) {
                                    reveal_strlit("</");
                                    lemma_scan_shift(u, s, p3 + 2, not_name());
                                    let ene = name_end(s, p3 + 2);
                                    lemma_scan(s, p3 + 2, not_name());
                                    lemma_byte_at_shift(u, s, ene);
                                    assert((u + s).subrange(u.len() + p3 + 2, u.len() + ene)
                                        =~= s.subrange(p3 + 2, ene));
                                    lemma_lit_shift(u, s, ene, ">"@);
                                }
                            },
                            Err(_) => {},
                        }
                    }
                },
                Err(_) => {},
            }
        }
    }
}

/// A run of white space standing before a node list can also be taken
/// away entirely: parsing from the start of the run and parsing the
/// input without the run yield the same nodes, at shifted positions.
proof fn lemma_ws_prefix_absorbed(w: Seq<char>, s: Seq<char>)
    requires
        forall|i: int| 0 <= i < w.len() ==> is_ws_char(#[trigger] w[i]),
    ensures
        sp_nodes(w + s, 0) == sp_nodes(w + s, w.len() as int),
{
    crate::parser::lemma_sp_nodes_ws(w + s, 0);
    crate::parser::lemma_sp_nodes_ws(w + s, w.len() as int);
    let e = ws_end(w + s, w.len() as int);
    lemma_scan(w + s, w.len() as int, not_ws());
    assert forall|i: int| 0 <= i < e implies !not_ws()((w + s)[i]) by {
        if i < w.len() {
            assert((w + s)[i] == w[i]);
        }
    }
    lemma_scan_is(w + s, 0, not_ws(), e);
}

/// Inserting (or removing) a run of white space at the top of the
/// source does not change the tree: for any whitespace run `w`, if `s`
/// parses to a tree, `w + s` parses to the same tree.
pub proof fn lemma_leading_ws_insertion(w: Seq<char>, s: Seq<char>, m: NodeModel)
    requires
        forall|i: int| 0 <= i < w.len() ==> is_ws_char(#[trigger] w[i]),
        spec_parse(s) == Ok::<NodeModel, ErrModel>(m),
    ensures
        spec_parse(w + s) == Ok::<NodeModel, ErrModel>(m),
{
    lemma_ws_prefix_absorbed(w, s);
    lemma_sp_nodes_shift(w, s, 0);
}

/// The quote a canonical serializer picks for a value: `"` unless the
/// value holds one, then `'`.
pub open spec fn quote_of(v: Seq<char>) -> char {
    if v.contains('"') {
        '\''
    } else {
        '"'
    }
}

/// The canonical serialization of an attribute list: one leading space
/// before each `name=` and quoted value, in the map's order.
pub open spec fn ser_attrs(attrs: Seq<(Seq<char>, Seq<char>)>) -> Seq<char>
    decreases attrs.len(),
{
    if attrs.len() == 0 {
        Seq::empty()
    } else {
        seq![' '] + attrs[0].0 + seq!['='] + seq![quote_of(attrs[0].1)] + attrs[0].1 + seq![
            quote_of(attrs[0].1),
        ] + ser_attrs(attrs.drop_first())
    }
}

/// The canonical serialization of a node: a text payload as it stands;
/// an element as `<tag ...attrs>children</tag>`, with no white space of
/// its own.
pub open spec fn ser_node(m: NodeModel) -> Seq<char>
    decreases m,
{
    match m {
        NodeModel::Text { payload } => payload,
        NodeModel::Element { tag, attrs, children } => seq!['<'] + tag + ser_attrs(attrs) + seq![
            '>',
        ] + ser_children(children) + seq!['<', '/'] + tag + seq!['>'],
    }
}

pub open spec fn ser_children(cs: Seq<NodeModel>) -> Seq<char>
    decreases cs,
{
    if cs.len() == 0 {
        Seq::empty()
    } else {
        ser_node(cs[0]) + ser_children(cs.drop_first())
    }
}

/// The shape every parsed tree has, and which the serializer relies
/// on: text nodes are non-empty, do not begin with white space, and
/// are never followed by another text node.
pub open spec fn emit_shape(m: NodeModel) -> bool
    decreases m,
{
    match m {
        NodeModel::Text { payload } => payload.len() > 0 && !is_ws_char(payload[0]),
        NodeModel::Element { children, .. } => emit_shape_children(children),
    }
}

pub open spec fn emit_shape_children(cs: Seq<NodeModel>) -> bool
    decreases cs,
{
    if cs.len() == 0 {
        true
    } else {
        &&& emit_shape(cs[0])
        &&& emit_shape_children(cs.drop_first())
        &&& (cs[0] is Text && cs.len() > 1 ==> cs[1] is Element)
    }
}

/// Name characters are not white space and are none of the grammar's
/// delimiters.
proof fn lemma_name_char_facts(c: char)
    requires
        is_name_char(c),
    ensures
        !is_ws_char(c),
        c != '<' && c != '>' && c != '/' && c != '=' && c != ' ',
{
}

/// Parsing the serialization of an attribute list, followed by `>`,
/// yields exactly those attributes after the ones already collected.
proof fn lemma_parse_ser_attrs(
    s: Seq<char>,
    pos: int,
    acc: Seq<(Seq<char>, Seq<char>)>,
    attrs: Seq<(Seq<char>, Seq<char>)>,
)
    requires
        wf_attrs(acc + attrs),
        0 <= pos,
        pos + ser_attrs(attrs).len() < s.len(),
        s.subrange(pos, pos + ser_attrs(attrs).len()) == ser_attrs(attrs),
        s[pos + ser_attrs(attrs).len()] == '>',
    ensures
        sp_attributes(s, pos, acc) == Ok::<(Seq<(Seq<char>, Seq<char>)>, int), ErrModel>((
            acc + attrs,
            pos + ser_attrs(attrs).len(),
        )),
    decreases attrs.len(),
{
    let ser = ser_attrs(attrs);
    if attrs.len() == 0 {
        lemma_scan_is(s, pos, not_ws(), pos);
        assert(bounded(pos, s.len() as int, ws_end(s, pos)) == pos);
        assert(acc + attrs =~= acc);
    } else {
        let k = attrs[0].0;
        let v = attrs[0].1;
        let q = quote_of(v);
        let rest = attrs.drop_first();
        let sr = ser_attrs(rest);
        let block = seq![' '] + k + seq!['='] + seq![q] + v + seq![q] + sr;
        assert(ser == block);
        let nk = k.len() as int;
        let nv = v.len() as int;
        let b0 = nk + nv + 4;
        assert(ser.len() == b0 + sr.len());
        assert(wf_attr((k, v))) by {
            assert((acc + attrs)[acc.len() as int] == attrs[0]);
            assert(attrs[0] == (k, v));
        }
        assert forall|i: int| 0 <= i < ser.len() implies s[pos + i] == ser[i] by {
            assert(s.subrange(pos, pos + ser.len())[i] == s[pos + i]);
        }
        assert(s[pos] == ' ') by {
            assert(ser[0] == ' ');
            assert(s[pos + 0] == ser[0]);
        }
        assert forall|j: int| 0 <= j < nk implies s[pos + 1 + j] == k[j] by {
            assert(ser[1 + j] == k[j]);
        }
        assert(s[pos + 1 + nk] == '=') by {
            assert(ser[1 + nk] == '=');
        }
        assert(s[pos + 2 + nk] == q) by {
            assert(ser[2 + nk] == q);
        }
        assert forall|j: int| 0 <= j < nv implies s[pos + 3 + nk + j] == v[j] by {
            assert(ser[3 + nk + j] == v[j]);
        }
        assert(s[pos + 3 + nk + nv] == q) by {
            assert(ser[3 + nk + nv] == q);
        }
        // the single space is consumed, the name follows
        assert(is_ws_char(' '));
        lemma_name_char_facts(k[0]);
        lemma_scan_is(s, pos, not_ws(), pos + 1);
        assert(bounded(pos, s.len() as int, ws_end(s, pos)) == pos + 1);
        let p1 = pos + 1;
        assert(s[p1] != '>') by {
            lemma_name_char_facts(k[0]);
        }
        // the attribute itself: name, `=`, quoted value
        assert forall|j: int| p1 <= j < p1 + nk implies !not_name()(s[j]) by {
            assert(s[j] == k[j - p1]);
        }
        assert(!is_name_char('=')) by {}
        lemma_scan_is(s, p1, not_name(), p1 + nk);
        let ne = p1 + nk;
        reveal_strlit("=");
        assert(lit_at(s, ne, "="@));
        assert(q == '"' || q == '\'');
        assert(!v.contains(q));
        assert forall|j: int| ne + 2 <= j < ne + 2 + nv implies !stop_at(q)(s[j]) by {
            assert(s[j] == v[j - (ne + 2)]);
            if s[j] == q {
                assert(v.contains(q));
            }
        }
        lemma_scan_is(s, ne + 2, stop_at(q), ne + 2 + nv);
        assert(s.subrange(ne + 2, ne + 2 + nv) =~= v);
        assert(s.subrange(p1, ne) =~= k);
        assert(sp_attr(s, p1) == Ok::<((Seq<char>, Seq<char>), int), ErrModel>(((k, v), pos + b0)));
        // the later entries, after this one is appended
        let acc2 = acc.push((k, v));
        assert(!attrs_contains_key(acc, k)) by {
            if attrs_contains_key(acc, k) {
                let i = choose|i: int| 0 <= i < acc.len() && acc[i].0 == k;
                assert((acc + attrs)[i].0 == k);
                assert((acc + attrs)[acc.len() as int].0 == k);
            }
        }
        assert(attrs_insert(acc, k, v) == acc2);
        assert(bounded(p1 + 1, s.len() as int, pos + b0) == pos + b0);
        assert(acc2 + rest =~= acc + attrs);
        assert(s.subrange(pos + b0, pos + b0 + sr.len()) =~= sr) by {
            assert forall|j: int| 0 <= j < sr.len() implies s[pos + b0 + j] == sr[j] by {
                assert(ser[b0 + j] == sr[j]);
            }
        }
        lemma_parse_ser_attrs(s, pos + b0, acc2, rest);
    }
}

/// Parsing the serialization of a well-formed element, wherever it
/// stands in a larger input, consumes exactly that serialization and
/// rebuilds the element.
#[verifier::rlimit(100)]
#[verifier::spinoff_prover]
proof fn lemma_parse_ser_element(s: Seq<char>, pos: int, m: NodeModel)
    requires
        m is Element,
        wf_node_model(m),
        emit_shape(m),
        0 <= pos,
        pos + ser_node(m).len() <= s.len(),
        s.subrange(pos, pos + ser_node(m).len()) == ser_node(m),
    ensures
        sp_element(s, pos) == Ok::<(NodeModel, int), ErrModel>((m, pos + ser_node(m).len())),
    decreases m,
{
    reveal_strlit("<");
    reveal_strlit(">");
    reveal_strlit("</");
    let ser = ser_node(m);
    match m {
        NodeModel::Element { tag, attrs, children } => {
            let n = tag.len() as int;
            let sa = ser_attrs(attrs);
            let sc = ser_children(children);
            let a1 = pos + 1 + n;
            let a2 = a1 + sa.len();
            let a3 = a2 + 1;
            let a4 = a3 + sc.len();
            let a6 = a4 + 2 + n;
            let end = a6 + 1;
            assert(ser == seq!['<'] + tag + sa + seq!['>'] + sc + seq!['<', '/'] + tag + seq![
                '>',
            ]);
            assert(end == pos + ser.len());
            assert forall|i: int| 0 <= i < ser.len() implies s[pos + i] == ser[i] by {
                assert(s.subrange(pos, pos + ser.len())[i] == s[pos + i]);
            }
            assert(s[pos] == '<') by {
                assert(ser[0] == '<');
                assert(s[pos + 0] == ser[0]);
            }
            assert(lit_at(s, pos, "<"@));
            assert forall|j: int| 0 <= j < n implies s[pos + 1 + j] == tag[j] by {
                assert(ser[1 + j] == tag[j]);
            }
            assert(s[a1] == (if sa.len() == 0 {
                '>'
            } else {
                ' '
            })) by {
                assert(ser[1 + n] == (if sa.len() == 0 {
                    '>'
                } else {
                    ' '
                }));
            }
            assert(s[a2] == '>') by {
                assert(ser[1 + n + sa.len()] == '>');
            }
            assert forall|j: int| 0 <= j < sc.len() implies s[a3 + j] == sc[j] by {
                assert(ser[2 + n + sa.len() + j] == sc[j]);
            }
            assert(s[a4] == '<') by {
                assert(ser[a4 - pos] == '<');
            }
            assert(s[a4 + 1] == '/') by {
                assert(ser[a4 + 1 - pos] == '/');
            }
            assert forall|j: int| 0 <= j < n implies s[a4 + 2 + j] == tag[j] by {
                assert(ser[a4 + 2 - pos + j] == tag[j]);
            }
            assert(s[a6] == '>') by {
                assert(ser[a6 - pos] == '>');
            }
            // the tag name ends where the attribute list (or the `>`)
            // begins
            assert forall|j: int| pos + 1 <= j < a1 implies !not_name()(s[j]) by {
                assert(s[j] == tag[j - pos - 1]);
            }
            assert(!is_name_char('>') && !is_name_char(' ')) by {}
            lemma_scan_is(s, pos + 1, not_name(), a1);
            assert(name_end(s, pos + 1) == a1);
            assert(a1 != pos + 1);
            assert(s.subrange(pos + 1, a1) =~= tag);
            assert(bounded(pos + 1, s.len() as int, a1) == a1);
            // the attribute list
            assert(s.subrange(a1, a1 + sa.len()) =~= sa) by {
                assert forall|j: int| 0 <= j < sa.len() implies s[a1 + j] == sa[j] by {
                    assert(ser[1 + n + j] == sa[j]);
                }
            }
            assert(Seq::<(Seq<char>, Seq<char>)>::empty() + attrs =~= attrs);
            lemma_parse_ser_attrs(s, a1, Seq::empty(), attrs);
            assert(lit_at(s, a2, ">"@));
            assert(bounded(pos + 1, s.len() as int, a3) == a3);
            // the children region, ending at the end tag
            assert(s.subrange(a3, a4) =~= sc) by {
                assert forall|j: int| 0 <= j < sc.len() implies s.subrange(a3, a4)[j] == sc[j] by {
                    assert(s[a3 + j] == sc[j]);
                }
            }
            assert(lit_at(s, a4, "</"@));
            lemma_parse_ser_children(s, a3, children);
            assert(sp_nodes(s, a3) == Ok::<(Seq<NodeModel>, int), ErrModel>((children, a4)));
            // the end tag carries the same name
            assert forall|j: int| a4 + 2 <= j < a6 implies !not_name()(s[j]) by {
                assert(s[j] == tag[j - (a4 + 2)]);
            }
            lemma_scan_is(s, a4 + 2, not_name(), a6);
            assert(s.subrange(a4 + 2, a6) =~= tag);
            assert(lit_at(s, a6, ">"@));
        },
        NodeModel::Text { .. } => {},
    }
}

/// Parsing the serialization of a well-formed child list, placed right
/// before an end tag, consumes exactly that serialization and rebuilds
/// the children.
#[verifier::rlimit(100)]
#[verifier::spinoff_prover]
proof fn lemma_parse_ser_children(s: Seq<char>, pos: int, cs: Seq<NodeModel>)
    requires
        wf_children(cs),
        emit_shape_children(cs),
        0 <= pos,
        pos + ser_children(cs).len() + 2 <= s.len(),
        s.subrange(pos, pos + ser_children(cs).len()) == ser_children(cs),
        lit_at(s, pos + ser_children(cs).len(), "</"@),
    ensures
        sp_nodes(s, pos) == Ok::<(Seq<NodeModel>, int), ErrModel>((
            cs,
            pos + ser_children(cs).len(),
        )),
    decreases cs,
{
    reveal_strlit("</");
    let ser = ser_children(cs);
    let e = pos + ser.len();
    assert(s[e] == '<' && s[e + 1] == '/') by {
        assert(s[e + 0] == "</"@[0]);
        assert(s[e + 1] == "</"@[1]);
    }
    assert forall|i: int| 0 <= i < ser.len() implies s[pos + i] == ser[i] by {
        assert(s.subrange(pos, pos + ser.len())[i] == s[pos + i]);
    }
    if cs.len() == 0 {
        assert(!is_ws_char('<'));
        lemma_scan_is(s, pos, not_ws(), pos);
        assert(bounded(pos, s.len() as int, ws_end(s, pos)) == pos);
        assert(cs =~= Seq::<NodeModel>::empty());
    } else {
        let c0 = cs[0];
        let rest = cs.drop_first();
        let s0 = ser_node(c0);
        let sr = ser_children(rest);
        assert(ser == s0 + sr);
        assert(emit_shape(c0) && emit_shape_children(rest));
        assert(wf_node_model(c0) && wf_children(rest));
        let e0 = pos + s0.len();
        assert forall|j: int| 0 <= j < s0.len() implies s[pos + j] == s0[j] by {
            assert(ser[j] == s0[j]);
        }
        assert(s.subrange(pos, e0) =~= s0);
        assert forall|j: int| 0 <= j < sr.len() implies s[e0 + j] == sr[j] by {
            assert(ser[s0.len() + j] == sr[j]);
        }
        assert(s.subrange(e0, e0 + sr.len()) =~= sr);
        match c0 {
            NodeModel::Text { payload } => {
                assert(s0 == payload);
                assert(payload.len() > 0 && !is_ws_char(payload[0]));
                assert(s[pos] == payload[0]);
                lemma_scan_is(s, pos, not_ws(), pos);
                assert(bounded(pos, s.len() as int, ws_end(s, pos)) == pos);
                assert(s[pos] != '<') by {
                    if payload[0] == '<' {
                        assert(payload.contains('<'));
                    }
                }
                assert(!lit_at(s, pos, "</"@)) by {
                    assert(s[pos + 0] != "</"@[0]);
                }
                // the text run ends at the next `<`: the following
                // child is an element, or the end tag follows at once
                assert(s[e0] == '<') by {
                    if rest.len() == 0 {
                    } else {
                        assert(rest[0] is Element) by {
                            assert(cs[1] == rest[0]);
                        }
                        match rest[0] {
                            NodeModel::Element { .. } => {
                                assert(sr == ser_node(rest[0]) + ser_children(
                                    rest.drop_first(),
                                ));
                                assert(sr[0] == '<');
                                assert(s[e0 + 0] == sr[0]);
                            },
                            NodeModel::Text { .. } => {},
                        }
                    }
                }
                assert forall|j: int| pos <= j < e0 implies !stop_at('<')(s[j]) by {
                    assert(s[j] == payload[j - pos]);
                    if s[j] == '<' {
                        assert(payload.contains('<'));
                    }
                }
                lemma_scan_is(s, pos, stop_at('<'), e0);
                assert(s.subrange(pos, e0) =~= payload);
                assert(sp_node(s, pos) == Ok::<(NodeModel, int), ErrModel>((c0, e0)));
                assert(bounded(pos + 1, s.len() as int, e0) == e0);
                lemma_parse_ser_children(s, e0, rest);
                assert(seq![c0] + rest =~= cs);
            },
            NodeModel::Element { tag, attrs, children } => {
                assert(s0 == seq!['<'] + tag + ser_attrs(attrs) + seq!['>'] + ser_children(
                    children,
                ) + seq!['<', '/'] + tag + seq!['>']);
                assert(tag.len() > 0);
                assert(s[pos] == '<') by {
                    assert(s0[0] == '<');
                }
                assert(!is_ws_char('<'));
                lemma_scan_is(s, pos, not_ws(), pos);
                assert(bounded(pos, s.len() as int, ws_end(s, pos)) == pos);
                assert(!lit_at(s, pos, "</"@)) by {
                    assert(s0[1] == tag[0]);
                    assert(s[pos + 1] == s0[1]);
                    assert(is_name_char(tag[0]));
                    lemma_name_char_facts(tag[0]);
                    assert(s[pos + 1] != "</"@[1]);
                }
                lemma_parse_ser_element(s, pos, c0);
                assert(sp_node(s, pos) == Ok::<(NodeModel, int), ErrModel>((c0, e0)));
                assert(s0.len() >= 5);
                assert(bounded(pos + 1, s.len() as int, e0) == e0);
                lemma_parse_ser_children(s, e0, rest);
                assert(seq![c0] + rest =~= cs);
            },
        }
    }
}

/// Every node list the grammar accepts has the serializer's shape; a
/// list whose scan stands on `<` begins with an element.
proof fn lemma_sp_nodes_shape(s: Seq<char>, pos: int)
    requires
        0 <= pos <= s.len(),
    ensures
        sp_nodes(s, pos) matches Ok(t) ==> emit_shape_children(t.0) && (t.0.len() > 0 && s[bounded(
            pos,
            s.len() as int,
            ws_end(s, pos),
        )] == '<' ==> t.0[0] is Element),
    decreases s.len() - pos, 2int,
{
    let p1 = bounded(pos, s.len() as int, ws_end(s, pos));
    lemma_scan(s, pos, not_ws());
    if p1 >= s.len() || lit_at(s, p1, "</"@) {
    } else {
        lemma_sp_node_shape(s, p1);
        lemma_sp_node_wf(s, p1);
        match sp_node(s, p1) {
            Ok((n, e)) => {
                let p2 = bounded(p1 + 1, s.len() as int, e);
                lemma_sp_nodes_shape(s, p2);
                match sp_nodes(s, p2) {
                    Ok((rest, _e2)) => {
                        let cs = seq![n] + rest;
                        assert(cs.drop_first() =~= rest);
                        assert(cs[0] == n);
                        if n is Text && rest.len() > 0 {
                            assert(e == s.len() || s[e] == '<');
                            if e == s.len() {
                                lemma_scan_is(s, e, not_ws(), e);
                                assert(sp_nodes(s, e) == Ok::<
                                    (Seq<NodeModel>, int),
                                    ErrModel,
                                >((Seq::empty(), e)));
                            } else {
                                assert(!is_ws_char('<'));
                                lemma_scan_is(s, e, not_ws(), e);
                                assert(bounded(e, s.len() as int, ws_end(s, e)) == e);
                                assert(rest[0] is Element);
                            }
                            assert(cs[1] == rest[0]);
                        }
                    },
                    Err(_) => {},
                }
            },
            Err(_) => {},
        }
    }
}

/// Every node the grammar accepts at a scanned position has the
/// serializer's shape; it is an element exactly when the position
/// holds `<`, and a text run ends at the end of the input or on `<`.
proof fn lemma_sp_node_shape(s: Seq<char>, pos: int)
    requires
        0 <= pos < s.len(),
        !is_ws_char(s[pos]),
    ensures
        sp_node(s, pos) matches Ok(t) ==> emit_shape(t.0) && (t.0 is Element <==> s[pos] == '<')
            && (t.0 is Text ==> t.1 == s.len() || s[t.1] == '<'),
    decreases s.len() - pos, 1int,
{
    if s[pos] == '<' {
        lemma_sp_element_shape(s, pos);
    } else {
        let te = text_end(s, pos);
        lemma_scan(s, pos, stop_at('<'));
        assert(te > pos) by {
            if te == pos {
                assert(stop_at('<')(s[pos]));
            }
        }
        let payload = s.subrange(pos, te);
        assert(payload[0] == s[pos]);
    }
}

/// Every element the grammar accepts has the serializer's shape.
proof fn lemma_sp_element_shape(s: Seq<char>, pos: int)
    requires
        0 <= pos <= s.len(),
    ensures
        sp_element(s, pos) matches Ok(t) ==> emit_shape(t.0),
    decreases s.len() - pos, 0int,
{
    if lit_at(s, pos, "<"@) {
        let ne = name_end(s, pos + 1);
        reveal_strlit("<");
        reveal_strlit(">");
        lemma_scan(s, pos + 1, not_name());
        if ne != pos + 1 {
            match sp_attributes(s, bounded(pos + 1, s.len() as int, ne), Seq::empty()) {
                Ok((_attrs, p2)) => {
                    if lit_at(s, p2, ">"@) {
                        lemma_sp_nodes_shape(s, bounded(pos + 1, s.len() as int, p2 + 1));
                    }
                },
                Err(_) => {},
            }
        }
    }
}

/// Every tree `parse` returns has the serializer's shape.
pub proof fn lemma_parse_shape(source: Seq<char>, root: NodeModel)
    requires
        spec_parse(source) == Ok::<NodeModel, ErrModel>(root),
    ensures
        emit_shape(root),
{
    lemma_sp_nodes_shape(source, 0);
}

/// A well-formed tree of the serializer's shape, emitted by the
/// canonical serializer (`ser_node`), parses back to the very same
/// tree.
#[verifier::rlimit(100)]
#[verifier::spinoff_prover]
pub proof fn lemma_ser_parses_back(root: NodeModel)
    requires
        wf_node_model(root),
        emit_shape(root),
    ensures
        spec_parse(ser_node(root)) == Ok::<NodeModel, ErrModel>(root),
{
    match root {
        NodeModel::Text { payload } => {
            lemma_text_root_round_trip(payload);
        },
        NodeModel::Element { tag, attrs, children } => {
            let t = ser_node(root);
            let len = t.len() as int;
            assert(t.subrange(0, len) =~= t);
            lemma_parse_ser_element(t, 0, root);
            reveal_strlit("<");
            reveal_strlit("</");
            assert(t == seq!['<'] + tag + ser_attrs(attrs) + seq!['>'] + ser_children(children)
                + seq!['<', '/'] + tag + seq!['>']);
            assert(t[0] == '<');
            assert(t[1] == tag[0]);
            assert(!is_ws_char('<'));
            lemma_scan_is(t, 0, not_ws(), 0);
            assert(bounded(0, len, ws_end(t, 0)) == 0);
            assert(!lit_at(t, 0, "</"@)) by {
                lemma_name_char_facts(tag[0]);
                assert(t[1int] != "</"@[1]);
            }
            assert(sp_node(t, 0) == Ok::<(NodeModel, int), ErrModel>((root, len)));
            assert(bounded(1int, len, len) == len);
            lemma_scan_is(t, len, not_ws(), len);
            assert(sp_nodes(t, len) == Ok::<(Seq<NodeModel>, int), ErrModel>((Seq::empty(), len)));
            assert(seq![root] + Seq::<NodeModel>::empty() =~= seq![root]);
            assert(sp_nodes(t, 0) == Ok::<(Seq<NodeModel>, int), ErrModel>((seq![root], len)));
        },
    }
}

/// The serialize-then-reparse round trip: any tree `parse` returns,
/// emitted by the canonical serializer, parses back to the very same
/// tree.
pub proof fn lemma_serialize_round_trip(source: Seq<char>, root: NodeModel)
    requires
        spec_parse(source) == Ok::<NodeModel, ErrModel>(root),
    ensures
        spec_parse(ser_node(root)) == Ok::<NodeModel, ErrModel>(root),
{
    lemma_parse_wf(source, root);
    lemma_parse_shape(source, root);
    lemma_ser_parses_back(root);
}

/// Parsing is deterministic: any two results that satisfy `parse`'s
/// contract for the same source are the same tree, or the same
/// failure.
pub proof fn lemma_parse_deterministic(
    source: Seq<char>,
    r1: Result<Node, ParseError>,
    r2: Result<Node, ParseError>,
)
    requires
        parse_result_matches(r1, spec_parse(source)),
        parse_result_matches(r2, spec_parse(source)),
    ensures
        r1 matches Ok(n1) ==> (r2 matches Ok(n2) && n1@ == n2@),
        r1 matches Err(e1) ==> (r2 matches Err(e2) && e1@ == e2@),
{
}

} // verus!
