//! The recursive-descent parser: a cursor over the input string and
//! the grammar procedures that build the tree.
//!
//! The grammar is specified once, as spec functions over the input's
//! character sequence (`sp_nodes`, `sp_element`, ...), and the
//! executable parser is proved to return exactly what those functions
//! say, so parsing is a function of the input alone.
use crate::dom::attrs_insert;
use crate::laws::lemma_parse_wf;
use crate::laws::wf_node_model;
use crate::dom::is_name_char;
use crate::dom::AttrMap;
use crate::dom::NodeModel;
use crate::dom::Node;
use crate::dom::nodes_model;
use crate::dom::elem;
use crate::dom::text;
use vstd::prelude::*;
use vstd::string::StrSliceExecFns;
use vstd::utf8::encode_utf8;

verus! {

/// Unicode white space, the code points `char::is_whitespace` accepts.
pub open spec fn is_ws_char(c: char) -> bool {
    c as u32 == 9 || c as u32 == 10 || c as u32 == 11 || c as u32 == 12 || c as u32 == 13
        || c as u32 == 32 || c as u32 == 0x85 || c as u32 == 0xA0 || c as u32 == 0x1680 || (0x2000
        <= c as u32 && c as u32 <= 0x200A) || c as u32 == 0x2028 || c as u32 == 0x2029 || c as u32
        == 0x202F || c as u32 == 0x205F || c as u32 == 0x3000
}

/// The byte offset of character position `p` in `s`: the length of the
/// UTF-8 encoding of the characters before it.
pub open spec fn byte_at(s: Seq<char>, p: int) -> int {
    encode_utf8(s.subrange(0, p)).len() as int
}

/// Whether the input begins with the literal `lit` at position `pos`.
pub open spec fn lit_at(s: Seq<char>, pos: int, lit: Seq<char>) -> bool {
    &&& 0 <= pos
    &&& pos + lit.len() <= s.len()
    &&& forall|i: int| 0 <= i < lit.len() ==> s[pos + i] == lit[i]
}

/// The first position at or after `pos` whose character satisfies
/// `stop`, or the end of the input.
pub open spec fn scan(s: Seq<char>, pos: int, stop: spec_fn(char) -> bool) -> int
    decreases s.len() - pos,
{
    if 0 <= pos < s.len() {
        if stop(s[pos]) {
            pos
        } else {
            scan(s, pos + 1, stop)
        }
    } else {
        pos
    }
}

pub proof fn lemma_scan(s: Seq<char>, pos: int, stop: spec_fn(char) -> bool)
    requires
        0 <= pos <= s.len(),
    ensures
        pos <= scan(s, pos, stop) <= s.len(),
        forall|i: int| pos <= i < scan(s, pos, stop) ==> !stop(s[i]),
        scan(s, pos, stop) < s.len() ==> stop(s[scan(s, pos, stop)]),
    decreases s.len() - pos,
{
    if pos < s.len() && !stop(s[pos]) {
        lemma_scan(s, pos + 1, stop);
    }
}

pub proof fn lemma_scan_is(s: Seq<char>, pos: int, stop: spec_fn(char) -> bool, e: int)
    requires
        0 <= pos <= e <= s.len(),
        forall|i: int| pos <= i < e ==> !stop(s[i]),
        e < s.len() ==> stop(s[e]),
    ensures
        scan(s, pos, stop) == e,
    decreases e - pos,
{
    if pos < e {
        lemma_scan_is(s, pos + 1, stop, e);
    }
}

/// The scan predicate that stops at the first non-white-space
/// character.
pub open spec fn not_ws() -> spec_fn(char) -> bool {
    |c: char| !is_ws_char(c)
}

/// The scan predicate that stops at the first character not allowed in
/// a name.
pub open spec fn not_name() -> spec_fn(char) -> bool {
    |c: char| !is_name_char(c)
}

/// The scan predicate that stops at the character `q`.
pub open spec fn stop_at(q: char) -> spec_fn(char) -> bool {
    |c: char| c == q
}

/// Where a run of white space starting at `pos` ends.
pub open spec fn ws_end(s: Seq<char>, pos: int) -> int {
    scan(s, pos, not_ws())
}

/// Where a run of name characters starting at `pos` ends.
pub open spec fn name_end(s: Seq<char>, pos: int) -> int {
    scan(s, pos, not_name())
}

/// Where a text run starting at `pos` ends: at the next `<` or at the
/// end of the input.
pub open spec fn text_end(s: Seq<char>, pos: int) -> int {
    scan(s, pos, stop_at('<'))
}

/// A parse failure, as the specification sees it: the kind, the byte
/// offset where it was detected, and for a missing literal the literal
/// itself.
pub enum ErrModel {
    ExpectedLiteral { literal: Seq<char>, offset: int },
    UnexpectedEof { offset: int },
    MalformedAttributeQuote { offset: int },
}

/// A parse failure.  `ExpectedLiteral` reports a required literal that
/// was not present (a missing name is reported with an empty literal);
/// `UnexpectedEof` an end of input where a character was needed;
/// `MalformedAttributeQuote` an attribute value opened by neither `"`
/// nor `'`.  Offsets are byte offsets into the source.
pub enum ParseError {
    ExpectedLiteral { literal: String, offset: usize },
    UnexpectedEof { offset: usize },
    MalformedAttributeQuote { offset: usize },
}

impl View for ParseError {
    type V = ErrModel;

    open spec fn view(&self) -> ErrModel {
        match self {
            ParseError::ExpectedLiteral { literal, offset } => (ErrModel::ExpectedLiteral {
                literal: literal@,
                offset: *offset as int,
            }),
            ParseError::UnexpectedEof { offset } => (ErrModel::UnexpectedEof {
                offset: *offset as int,
            }),
            ParseError::MalformedAttributeQuote { offset } => (ErrModel::MalformedAttributeQuote {
                offset: *offset as int,
            }),
        }
    }
}

/// Clamp `x` into the range `lo ..= hi`; the identity whenever the
/// caller can show `lo <= x <= hi`, but lets the recursion below carry
/// its termination measure without forward references to that proof.
pub open spec fn bounded(lo: int, hi: int, x: int) -> int {
    if x < lo {
        lo
    } else if x > hi {
        hi
    } else {
        x
    }
}

/// An attribute value: an opening quote (`"` or `'`), any characters
/// other than that quote, and the same quote again.  Yields the
/// characters between the quotes.
pub open spec fn sp_attr_value(s: Seq<char>, pos: int) -> Result<(Seq<char>, int), ErrModel> {
    if pos >= s.len() {
        Err(ErrModel::UnexpectedEof { offset: byte_at(s, pos) })
    } else {
        let q = s[pos];
        if q != '"' && q != '\'' {
            Err(ErrModel::MalformedAttributeQuote { offset: byte_at(s, pos) })
        } else {
            let ve = scan(s, pos + 1, stop_at(q));
            if ve >= s.len() {
                Err(ErrModel::UnexpectedEof { offset: byte_at(s, ve) })
            } else {
                Ok((s.subrange(pos + 1, ve), ve + 1))
            }
        }
    }
}

/// One attribute: a non-empty name, `=`, and a quoted value.
pub open spec fn sp_attr(s: Seq<char>, pos: int) -> Result<((Seq<char>, Seq<char>), int), ErrModel> {
    let ne = name_end(s, pos);
    if ne == pos {
        Err(ErrModel::ExpectedLiteral { literal: Seq::empty(), offset: byte_at(s, pos) })
    } else if !lit_at(s, ne, "="@) {
        Err(ErrModel::ExpectedLiteral { literal: "="@, offset: byte_at(s, ne) })
    } else {
        match sp_attr_value(s, ne + 1) {
            Ok((v, e)) => Ok(((s.subrange(pos, ne), v), e)),
            Err(err) => Err(err),
        }
    }
}

/// The attribute list of an open tag: white space and attributes until
/// the `>`, which is not consumed.  `acc` holds the attributes already
/// parsed; a duplicate name overwrites the earlier value.
pub open spec fn sp_attributes(
    s: Seq<char>,
    pos: int,
    acc: Seq<(Seq<char>, Seq<char>)>,
) -> Result<(Seq<(Seq<char>, Seq<char>)>, int), ErrModel>
    decreases s.len() - pos,
{
    let p1 = bounded(pos, s.len() as int, ws_end(s, pos));
    if p1 >= s.len() {
        Err(ErrModel::UnexpectedEof { offset: byte_at(s, p1) })
    } else if s[p1] == '>' {
        Ok((acc, p1))
    } else {
        match sp_attr(s, p1) {
            Ok(((k, v), e)) => sp_attributes(
                s,
                bounded(p1 + 1, s.len() as int, e),
                attrs_insert(acc, k, v),
            ),
            Err(err) => Err(err),
        }
    }
}

/// A list of nodes: white space between nodes is consumed and
/// discarded; the list ends at the end of the input or before `</`.
pub open spec fn sp_nodes(s: Seq<char>, pos: int) -> Result<(Seq<NodeModel>, int), ErrModel>
    decreases s.len() - pos, 2int,
{
    let p1 = bounded(pos, s.len() as int, ws_end(s, pos));
    if p1 >= s.len() || lit_at(s, p1, "</"@) {
        Ok((Seq::empty(), p1))
    } else {
        match sp_node(s, p1) {
            Ok((n, e)) => {
                match sp_nodes(s, bounded(p1 + 1, s.len() as int, e)) {
                    Ok((rest, e2)) => Ok((seq![n] + rest, e2)),
                    Err(err) => Err(err),
                }
            },
            Err(err) => Err(err),
        }
    }
}

/// One node: an element if the input begins with `<` here, otherwise a
/// text run up to the next `<` (possibly empty).
pub open spec fn sp_node(s: Seq<char>, pos: int) -> Result<(NodeModel, int), ErrModel>
    decreases s.len() - pos, 1int,
{
    if 0 <= pos < s.len() && s[pos] == '<' {
        sp_element(s, pos)
    } else {
        let te = text_end(s, pos);
        Ok(((NodeModel::Text { payload: s.subrange(pos, te) }), te))
    }
}

/// An element: `<`, a non-empty tag name, attributes, `>`, children,
/// `</`, the same tag name byte for byte, `>`.  A mismatched end tag
/// fails with `ExpectedLiteral` carrying the opening tag's name.
pub open spec fn sp_element(s: Seq<char>, pos: int) -> Result<(NodeModel, int), ErrModel>
    decreases s.len() - pos, 0int,
{
    if !lit_at(s, pos, "<"@) {
        Err(ErrModel::ExpectedLiteral { literal: "<"@, offset: byte_at(s, pos) })
    } else {
        let ne = name_end(s, pos + 1);
        if ne == pos + 1 {
            Err(ErrModel::ExpectedLiteral { literal: Seq::empty(), offset: byte_at(s, pos + 1) })
        } else {
            let tag = s.subrange(pos + 1, ne);
            match sp_attributes(s, bounded(pos + 1, s.len() as int, ne), Seq::empty()) {
                Ok((attrs, p2)) => {
                    if !lit_at(s, p2, ">"@) {
                        Err(ErrModel::ExpectedLiteral { literal: ">"@, offset: byte_at(s, p2) })
                    } else {
                        match sp_nodes(s, bounded(pos + 1, s.len() as int, p2 + 1)) {
                            Ok((children, p3)) => {
                                if !lit_at(s, p3, "</"@) {
                                    Err(ErrModel::ExpectedLiteral {
                                        literal: "</"@,
                                        offset: byte_at(s, p3),
                                    })
                                } else {
                                    let ene = name_end(s, p3 + 2);
                                    if s.subrange(p3 + 2, ene) != tag {
                                        Err(ErrModel::ExpectedLiteral {
                                            literal: tag,
                                            offset: byte_at(s, ene),
                                        })
                                    } else if !lit_at(s, ene, ">"@) {
                                        Err(ErrModel::ExpectedLiteral {
                                            literal: ">"@,
                                            offset: byte_at(s, ene),
                                        })
                                    } else {
                                        Ok((
                                            (NodeModel::Element { tag, attrs, children }),
                                            ene + 1,
                                        ))
                                    }
                                }
                            },
                            Err(err) => Err(err),
                        }
                    }
                },
                Err(err) => Err(err),
            }
        }
    }
}

/// The whole parse: the top-level node list; a single node becomes the
/// root, anything else is wrapped in a synthetic `html` element.
pub open spec fn spec_parse(s: Seq<char>) -> Result<NodeModel, ErrModel> {
    match sp_nodes(s, 0) {
        Ok((ns, _e)) => {
            if ns.len() == 1 {
                Ok(ns[0])
            } else {
                Ok(NodeModel::Element { tag: "html"@, attrs: Seq::empty(), children: ns })
            }
        },
        Err(err) => Err(err),
    }
}

/// `acc` prepended to the node list of a successful parse; a failure
/// is passed through.
pub open spec fn prepend_nodes(
    acc: Seq<NodeModel>,
    r: Result<(Seq<NodeModel>, int), ErrModel>,
) -> Result<(Seq<NodeModel>, int), ErrModel> {
    match r {
        Ok((ns, e)) => Ok((acc + ns, e)),
        Err(err) => Err(err),
    }
}

/// White space standing at a node-list position is discarded: the
/// parse of the list is the parse that starts after the run, so
/// removing or leaving such a run never changes the resulting nodes.
pub proof fn lemma_sp_nodes_ws(s: Seq<char>, pos: int)
    requires
        0 <= pos <= s.len(),
    ensures
        sp_nodes(s, pos) == sp_nodes(s, ws_end(s, pos)),
{
    let w = ws_end(s, pos);
    lemma_scan(s, pos, not_ws());
    lemma_scan_is(s, w, not_ws(), w);
    assert(bounded(pos, s.len() as int, w) == w);
    assert(bounded(w, s.len() as int, w) == w);
}

/// Skipping white space first does not change an attribute list parse.
proof fn lemma_sp_attributes_ws(s: Seq<char>, pos: int, acc: Seq<(Seq<char>, Seq<char>)>)
    requires
        0 <= pos <= s.len(),
    ensures
        sp_attributes(s, pos, acc) == sp_attributes(s, ws_end(s, pos), acc),
{
    let w = ws_end(s, pos);
    lemma_scan(s, pos, not_ws());
    lemma_scan_is(s, w, not_ws(), w);
    assert(bounded(pos, s.len() as int, w) == w);
    assert(bounded(w, s.len() as int, w) == w);
}

/// The character class tests the cursor uses.
fn ws_char(c: char) -> (r: bool)
    ensures
        r == is_ws_char(c),
{
    let u = c as u32;
    u == 9 || u == 10 || u == 11 || u == 12 || u == 13 || u == 32 || u == 0x85 || u == 0xA0 || u
        == 0x1680 || (0x2000 <= u && u <= 0x200A) || u == 0x2028 || u == 0x2029 || u == 0x202F || u
        == 0x205F || u == 0x3000
}

fn name_char(c: char) -> (r: bool)
    ensures
        r == is_name_char(c),
{
    let u = c as u32;
    (48 <= u && u <= 57) || (65 <= u && u <= 90) || (97 <= u && u <= 122)
}

/// The cursor: the input and a monotonically advancing character
/// position into it.  Offsets in reported errors are byte offsets.
struct Parser {
    pos: usize,
    len: usize,
    input: String,
}

impl Parser {
    /// The cursor never points past the end of the input, and `len`
    /// caches the input's length in characters.
    spec fn wf(self) -> bool {
        self.pos <= self.input@.len() && self.len == self.input@.len()
    }

    /// A cursor at the start of `input`.
    fn new(input: String) -> (r: Parser)
        ensures
            r.wf(),
            r.input@ == input@,
            r.pos == 0,
    {
        let len = input.as_str().unicode_len();
        Parser { pos: 0, len, input }
    }

    /// True when all input is consumed.
    fn eof(&self) -> (r: bool)
        requires
            self.wf(),
        ensures
            r == (self.pos == self.input@.len()),
    {
        self.pos >= self.len
    }

    /// Read the next character without consuming it.
    fn next_char(&self) -> (c: char)
        requires
            self.wf(),
            self.pos < self.input@.len(),
        ensures
            c == self.input@[self.pos as int],
    {
        self.input.as_str().get_char(self.pos)
    }

    /// The byte offset of the cursor, for error reports.
    fn byte_offset(&self) -> (r: usize)
        requires
            self.wf(),
        ensures
            r as int == byte_at(self.input@, self.pos as int),
    {
        let prefix: &str = self.input.as_str().substring_char(0, self.pos);
        let bytes: &[u8] = prefix.as_bytes();
        bytes.len()
    }

    /// Whether the remaining input begins with `s`.
    fn starts_with(&self, s: &str) -> (r: bool)
        requires
            self.wf(),
        ensures
            r == lit_at(self.input@, self.pos as int, s@),
    {
        let n = s.unicode_len();
        let rem = self.len - self.pos;
        if n > rem {
            return false;
        }
        let mut i: usize = 0;
        while i < n
            invariant
                self.wf(),
                0 <= i <= n,
                n == s@.len(),
                self.pos + n <= self.input@.len(),
                forall|j: int| 0 <= j < i ==> self.input@[self.pos + j] == s@[j],
            decreases n - i,
        {
            if self.input.as_str().get_char(self.pos + i) != s.get_char(i) {
                return false;
            }
            i += 1;
        }
        true
    }

    /// If the remaining input begins with `s`, consume it; otherwise
    /// fail with `ExpectedLiteral` and leave the cursor in place.
    fn expect(&mut self, s: &str) -> (r: Result<(), ParseError>)
        requires
            old(self).wf(),
        ensures
            final(self).input@ == old(self).input@,
            final(self).wf(),
            old(self).pos <= final(self).pos,
            lit_at(old(self).input@, old(self).pos as int, s@) ==> r is Ok && final(self).pos
                == old(self).pos + s@.len(),
            !lit_at(old(self).input@, old(self).pos as int, s@) ==> (r matches Err(e) && e@ == (
            ErrModel::ExpectedLiteral {
                literal: s@,
                offset: byte_at(old(self).input@, old(self).pos as int),
            }) && *final(self) == *old(self)),
    {
        if self.starts_with(s) {
            let n = s.unicode_len();
            self.pos = self.pos + n;
            Ok(())
        } else {
            Err(ParseError::ExpectedLiteral { literal: s.to_owned(), offset: self.byte_offset() })
        }
    }

    /// Consume one character.
    fn consume_char(&mut self) -> (c: char)
        requires
            old(self).wf(),
            old(self).pos < old(self).input@.len(),
        ensures
            final(self).input@ == old(self).input@,
            final(self).wf(),
            final(self).pos == old(self).pos + 1,
            c == old(self).input@[old(self).pos as int],
    {
        let c = self.next_char();
        self.pos = self.pos + 1;
        c
    }

    /// Consume characters until `q` (or the end of the input); the
    /// cursor ends on `q` if it occurs.
    fn consume_until(&mut self, q: char)
        requires
            old(self).wf(),
        ensures
            final(self).input@ == old(self).input@,
            final(self).wf(),
            old(self).pos <= final(self).pos,
            final(self).pos as int == scan(old(self).input@, old(self).pos as int, stop_at(q)),
    {
        let ghost s = self.input@;
        let ghost p0 = self.pos as int;
        while !self.eof() && self.next_char() != q
            invariant
                self.wf(),
                self.input@ == s,
                s == old(self).input@,
                p0 == old(self).pos as int,
                p0 <= self.pos as int,
                forall|j: int| p0 <= j < self.pos as int ==> s[j] != q,
            decreases s.len() - self.pos,
        {
            self.pos = self.pos + 1;
        }
        proof {
            lemma_scan_is(s, p0, stop_at(q), self.pos as int);
        }
    }

    /// Consume and discard white space.
    fn consume_whitespace(&mut self)
        requires
            old(self).wf(),
        ensures
            final(self).input@ == old(self).input@,
            final(self).wf(),
            old(self).pos <= final(self).pos,
            final(self).pos as int == ws_end(old(self).input@, old(self).pos as int),
    {
        let ghost s = self.input@;
        let ghost p0 = self.pos as int;
        while !self.eof() && ws_char(self.next_char())
            invariant
                self.wf(),
                self.input@ == s,
                s == old(self).input@,
                p0 == old(self).pos as int,
                p0 <= self.pos as int,
                forall|j: int| p0 <= j < self.pos as int ==> is_ws_char(s[j]),
            decreases s.len() - self.pos,
        {
            self.pos = self.pos + 1;
        }
        proof {
            lemma_scan_is(s, p0, not_ws(), self.pos as int);
        }
    }

    /// Consume a (possibly empty) run of name characters.
    fn parse_name(&mut self) -> (r: String)
        requires
            old(self).wf(),
        ensures
            final(self).input@ == old(self).input@,
            final(self).wf(),
            old(self).pos <= final(self).pos,
            final(self).pos as int == name_end(old(self).input@, old(self).pos as int),
            r@ == old(self).input@.subrange(old(self).pos as int, final(self).pos as int),
    {
        let ghost s = self.input@;
        let ghost p0 = self.pos as int;
        let start = self.pos;
        while !self.eof() && name_char(self.next_char())
            invariant
                self.wf(),
                self.input@ == s,
                s == old(self).input@,
                p0 == old(self).pos as int,
                p0 <= self.pos as int,
                start == p0,
                forall|j: int| p0 <= j < self.pos as int ==> is_name_char(s[j]),
            decreases s.len() - self.pos,
        {
            self.pos = self.pos + 1;
        }
        proof {
            lemma_scan_is(s, p0, not_name(), self.pos as int);
        }
        self.input.as_str().substring_char(start, self.pos).to_owned()
    }

    /// Parse a text run: everything up to the next `<` (possibly
    /// nothing).
    fn parse_text(&mut self) -> (r: Node)
        requires
            old(self).wf(),
        ensures
            final(self).input@ == old(self).input@,
            final(self).wf(),
            old(self).pos <= final(self).pos,
            final(self).pos as int == text_end(old(self).input@, old(self).pos as int),
            r@ == (NodeModel::Text {
                payload: old(self).input@.subrange(old(self).pos as int, final(self).pos as int),
            }),
    {
        let start = self.pos;
        self.consume_until('<');
        text(self.input.as_str().substring_char(start, self.pos).to_owned())
    }

    /// Parse a quoted attribute value: the characters between the
    /// quotes.
    fn parse_attr_value(&mut self) -> (r: Result<String, ParseError>)
        requires
            old(self).wf(),
        ensures
            final(self).input@ == old(self).input@,
            final(self).wf(),
            old(self).pos <= final(self).pos,
            match r {
                Ok(v) => sp_attr_value(old(self).input@, old(self).pos as int) matches Ok(t) && t.0
                    == v@ && t.1 == final(self).pos as int,
                Err(e) => sp_attr_value(old(self).input@, old(self).pos as int) matches Err(em)
                    && em == e@,
            },
    {
        if self.eof() {
            return Err(ParseError::UnexpectedEof { offset: self.byte_offset() });
        }
        let open_quote = self.next_char();
        if !(open_quote == '"' || open_quote == '\'') {
            return Err(ParseError::MalformedAttributeQuote { offset: self.byte_offset() });
        }
        self.pos = self.pos + 1;
        let start = self.pos;
        self.consume_until(open_quote);
        if self.eof() {
            return Err(ParseError::UnexpectedEof { offset: self.byte_offset() });
        }
        let value = self.input.as_str().substring_char(start, self.pos).to_owned();
        proof {
            lemma_scan(self.input@, start as int, stop_at(open_quote));
            assert(stop_at(open_quote)(self.input@[self.pos as int]));
        }
        let close_quote = self.consume_char();
        proof {
            assert(close_quote == open_quote);
        }
        Ok(value)
    }

    /// Parse one attribute: a non-empty name, `=`, a quoted value.
    fn parse_attr(&mut self) -> (r: Result<(String, String), ParseError>)
        requires
            old(self).wf(),
        ensures
            final(self).input@ == old(self).input@,
            final(self).wf(),
            old(self).pos <= final(self).pos,
            match r {
                Ok(kv) => sp_attr(old(self).input@, old(self).pos as int) matches Ok(t) && t.0.0
                    == kv.0@ && t.0.1 == kv.1@ && t.1 == final(self).pos as int && old(self).pos
                    < final(self).pos,
                Err(e) => sp_attr(old(self).input@, old(self).pos as int) matches Err(em) && em
                    == e@,
            },
    {
        proof {
            reveal_strlit("=");
        }
        let start = self.pos;
        let name = self.parse_name();
        if self.pos == start {
            return Err(ParseError::ExpectedLiteral {
                literal: String::new(),
                offset: self.byte_offset(),
            });
        }
        match self.expect("=") {
            Ok(()) => (),
            Err(e) => {
                return Err(e);
            },
        }
        match self.parse_attr_value() {
            Ok(value) => Ok((name, value)),
            Err(e) => Err(e),
        }
    }

    /// Parse the attribute list of an open tag, up to but not
    /// including the closing `>`.
    fn parse_attributes(&mut self) -> (r: Result<AttrMap, ParseError>)
        requires
            old(self).wf(),
        ensures
            final(self).input@ == old(self).input@,
            final(self).wf(),
            old(self).pos <= final(self).pos,
            match r {
                Ok(m) => sp_attributes(
                    old(self).input@,
                    old(self).pos as int,
                    Seq::empty(),
                ) matches Ok(t) && t.0 == m@ && t.1 == final(self).pos as int,
                Err(e) => sp_attributes(
                    old(self).input@,
                    old(self).pos as int,
                    Seq::empty(),
                ) matches Err(em) && em == e@,
            },
    {
        let ghost s = self.input@;
        let ghost p0 = self.pos as int;
        let mut attributes = AttrMap::new();
        loop
            invariant
                self.wf(),
                self.input@ == s,
                s == old(self).input@,
                p0 == old(self).pos as int,
                p0 <= self.pos as int,
                sp_attributes(s, p0, Seq::empty()) == sp_attributes(
                    s,
                    self.pos as int,
                    attributes@,
                ),
            decreases s.len() - self.pos,
        {
            let ghost pb = self.pos as int;
            self.consume_whitespace();
            proof {
                lemma_sp_attributes_ws(s, pb, attributes@);
                lemma_scan(s, pb, not_ws());
                lemma_scan_is(s, self.pos as int, not_ws(), self.pos as int);
                assert(bounded(self.pos as int, s.len() as int, ws_end(s, self.pos as int))
                    == self.pos as int);
            }
            if self.eof() {
                return Err(ParseError::UnexpectedEof { offset: self.byte_offset() });
            }
            if self.next_char() == '>' {
                return Ok(attributes);
            }
            match self.parse_attr() {
                Ok((name, value)) => {
                    attributes.insert(name, value);
                },
                Err(e) => {
                    return Err(e);
                },
            }
        }
    }

    /// Parse one node: an element after `<`, otherwise a text run.
    fn parse_node(&mut self) -> (r: Result<Node, ParseError>)
        requires
            old(self).wf(),
        ensures
            final(self).input@ == old(self).input@,
            final(self).wf(),
            old(self).pos <= final(self).pos,
            match r {
                Ok(n) => sp_node(old(self).input@, old(self).pos as int) matches Ok(t) && t.0 == n@
                    && t.1 == final(self).pos as int && (old(self).pos < old(self).input@.len()
                    ==> old(self).pos < final(self).pos),
                Err(e) => sp_node(old(self).input@, old(self).pos as int) matches Err(em) && em
                    == e@,
            },
        decreases old(self).input@.len() - old(self).pos, 1int,
    {
        let ghost s = self.input@;
        let ghost p0 = self.pos as int;
        proof {
            reveal_strlit("<");
            assert("<"@.len() == 1);
            assert("<"@[0] == '<');
        }
        if self.starts_with("<") {
            proof {
                assert(lit_at(s, p0, "<"@));
                assert(s[p0] == s[p0 + 0]);
                assert(s[p0] == '<');
                assert(sp_node(s, p0) == sp_element(s, p0));
            }
            self.parse_element()
        } else {
            proof {
                if (self.pos as int) < self.input@.len() {
                    lemma_scan(self.input@, self.pos as int, stop_at('<'));
                    if text_end(self.input@, self.pos as int) == self.pos as int {
                        assert(stop_at('<')(self.input@[self.pos as int]));
                    }
                }
            }
            Ok(self.parse_text())
        }
    }

    /// Parse an element: open tag, attributes, children, matching end
    /// tag.
    fn parse_element(&mut self) -> (r: Result<Node, ParseError>)
        requires
            old(self).wf(),
        ensures
            final(self).input@ == old(self).input@,
            final(self).wf(),
            old(self).pos <= final(self).pos,
            match r {
                Ok(n) => sp_element(old(self).input@, old(self).pos as int) matches Ok(t) && t.0
                    == n@ && t.1 == final(self).pos as int && old(self).pos < final(self).pos,
                Err(e) => sp_element(old(self).input@, old(self).pos as int) matches Err(em) && em
                    == e@,
            },
        decreases old(self).input@.len() - old(self).pos, 0int,
    {
        let ghost s = self.input@;
        let ghost p0 = self.pos as int;
        proof {
            reveal_strlit("<");
            reveal_strlit(">");
            reveal_strlit("</");
        }
        match self.expect("<") {
            Ok(()) => (),
            Err(e) => {
                return Err(e);
            },
        }
        let start = self.pos;
        let tag_name = self.parse_name();
        if self.pos == start {
            return Err(ParseError::ExpectedLiteral {
                literal: String::new(),
                offset: self.byte_offset(),
            });
        }
        proof {
            lemma_scan(s, start as int, not_name());
            assert(bounded(p0 + 1, s.len() as int, name_end(s, p0 + 1)) == name_end(s, p0 + 1));
        }
        let attrs = match self.parse_attributes() {
            Ok(a) => a,
            Err(e) => {
                return Err(e);
            },
        };
        match self.expect(">") {
            Ok(()) => (),
            Err(e) => {
                return Err(e);
            },
        }
        proof {
            assert(bounded(p0 + 1, s.len() as int, self.pos as int) == self.pos as int);
        }
        let children = match self.parse_nodes() {
            Ok(c) => c,
            Err(e) => {
                return Err(e);
            },
        };
        match self.expect("</") {
            Ok(()) => (),
            Err(e) => {
                return Err(e);
            },
        }
        let end_name = self.parse_name();
        if !(end_name == tag_name) {
            return Err(ParseError::ExpectedLiteral {
                literal: tag_name,
                offset: self.byte_offset(),
            });
        }
        match self.expect(">") {
            Ok(()) => (),
            Err(e) => {
                return Err(e);
            },
        }
        Ok(elem(tag_name, attrs, children))
    }

    /// Parse a node list: nodes separated by discarded white space,
    /// ending at the end of the input or before `</`.
    fn parse_nodes(&mut self) -> (r: Result<Vec<Node>, ParseError>)
        requires
            old(self).wf(),
        ensures
            final(self).input@ == old(self).input@,
            final(self).wf(),
            old(self).pos <= final(self).pos,
            match r {
                Ok(v) => sp_nodes(old(self).input@, old(self).pos as int) matches Ok(t) && t.0
                    == nodes_model(v@) && t.1 == final(self).pos as int,
                Err(e) => sp_nodes(old(self).input@, old(self).pos as int) matches Err(em) && em
                    == e@,
            },
        decreases old(self).input@.len() - old(self).pos, 2int,
    {
        let ghost s = self.input@;
        let ghost p0 = self.pos as int;
        let mut nodes: Vec<Node> = Vec::new();
        proof {
            assert(nodes_model(nodes@) =~= Seq::<NodeModel>::empty());
        }
        loop
            invariant
                self.wf(),
                self.input@ == s,
                s == old(self).input@,
                p0 == old(self).pos as int,
                p0 <= self.pos as int,
                sp_nodes(s, p0) == prepend_nodes(nodes_model(nodes@), sp_nodes(s, self.pos as int)),
            decreases s.len() - self.pos,
        {
            let ghost pb = self.pos as int;
            self.consume_whitespace();
            proof {
                lemma_sp_nodes_ws(s, pb);
                lemma_scan(s, pb, not_ws());
                lemma_scan_is(s, self.pos as int, not_ws(), self.pos as int);
                assert(bounded(self.pos as int, s.len() as int, ws_end(s, self.pos as int))
                    == self.pos as int);
            }
            if self.eof() {
                proof {
                    assert(sp_nodes(s, self.pos as int) == Ok::<(Seq<NodeModel>, int), ErrModel>((
                        Seq::empty(),
                        self.pos as int,
                    )));
                    assert(nodes_model(nodes@) + Seq::<NodeModel>::empty() =~= nodes_model(
                        nodes@,
                    ));
                }
                return Ok(nodes);
            }
            if self.starts_with("</") {
                proof {
                    assert(nodes_model(nodes@) + Seq::<NodeModel>::empty() =~= nodes_model(
                        nodes@,
                    ));
                }
                return Ok(nodes);
            }
            match self.parse_node() {
                Ok(n) => {
                    let ghost before = nodes@;
                    nodes.push(n);
                    proof {
                        assert(nodes_model(nodes@) =~= nodes_model(before) + seq![n@]);
                        let r2 = sp_nodes(s, self.pos as int);
                        match r2 {
                            Ok((rest, e2)) => {
                                assert(nodes_model(before) + (seq![n@] + rest) =~= nodes_model(
                                    nodes@,
                                ) + rest);
                            },
                            Err(_) => {},
                        }
                    }
                },
                Err(e) => {
                    return Err(e);
                },
            }
        }
    }
}

/// Whether an executable parse result carries exactly the tree or the
/// failure that the specification-level grammar yields.
pub open spec fn parse_result_matches(
    r: Result<Node, ParseError>,
    m: Result<NodeModel, ErrModel>,
) -> bool {
    match r {
        Ok(n) => m matches Ok(nm) && nm == n@,
        Err(e) => m matches Err(em) && em == e@,
    }
}

/// Parse a source string into a document tree.  The result is exactly
/// what the specification-level grammar `spec_parse` yields: the
/// single top-level node if there is exactly one, otherwise a
/// synthetic `html` element wrapping all top-level nodes; or the first
/// failure, with its kind and byte offset.  Every tree returned is
/// well formed: text free of `<`, non-empty alphanumeric tag names,
/// and no duplicate attribute keys, throughout.
pub fn parse(source: String) -> (r: Result<Node, ParseError>)
    ensures
        parse_result_matches(r, spec_parse(source@)),
        r matches Ok(n) ==> wf_node_model(n@),
{
    let ghost src = source@;
    let mut parser = Parser::new(source);
    let mut nodes = match parser.parse_nodes() {
        Ok(v) => v,
        Err(e) => {
            return Err(e);
        },
    };
    if nodes.len() == 1 {
        let root = nodes.remove(0);
        proof {
            lemma_parse_wf(src, root@);
        }
        Ok(root)
    } else {
        let root = elem("html".to_owned(), AttrMap::new(), nodes);
        proof {
            lemma_parse_wf(src, root@);
        }
        Ok(root)
    }
}

} // verus!
