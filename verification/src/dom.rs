//! The document tree: text nodes, element nodes, and attribute maps.
//!
//! A `Node` is either a text run or an element with a tag name, an
//! attribute map and an ordered list of children.  Nodes are built
//! bottom-up by the parser through the two constructors `text` and
//! `elem` and are immutable afterwards.  The mathematical shape of a
//! tree is the `NodeModel` a node views to.
use vstd::prelude::*;

verus! {

/// The characters allowed in tag and attribute names: ASCII
/// alphanumerics, nothing else.
pub open spec fn is_name_char(c: char) -> bool {
    (48 <= c as u32 && c as u32 <= 57) || (65 <= c as u32 && c as u32 <= 90) || (97 <= c as u32
        && c as u32 <= 122)
}

/// The mathematical shape of a node: strings as character sequences,
/// the attribute map as a sequence of key/value pairs with unique keys,
/// in the order the map stores them.
pub enum NodeModel {
    Text { payload: Seq<char> },
    Element { tag: Seq<char>, attrs: Seq<(Seq<char>, Seq<char>)>, children: Seq<NodeModel> },
}

/// No attribute name occurs twice.
pub open spec fn attrs_unique(m: Seq<(Seq<char>, Seq<char>)>) -> bool {
    forall|i: int, j: int| 0 <= i < j < m.len() ==> m[i].0 != m[j].0
}

/// Whether some entry of `m` has the key `k`.
pub open spec fn attrs_contains_key(m: Seq<(Seq<char>, Seq<char>)>, k: Seq<char>) -> bool {
    exists|i: int| 0 <= i < m.len() && m[i].0 == k
}

/// The first index of `m` whose entry has the key `k`.
pub open spec fn key_index(m: Seq<(Seq<char>, Seq<char>)>, k: Seq<char>) -> int
    decreases m.len(),
{
    if m.len() == 0 {
        0
    } else if m[0].0 == k {
        0
    } else {
        1 + key_index(m.drop_first(), k)
    }
}

/// Inserting into the map: a fresh key is appended; an existing entry
/// is removed and the new pair appended, so the later occurrence wins.
pub open spec fn attrs_insert(
    m: Seq<(Seq<char>, Seq<char>)>,
    k: Seq<char>,
    v: Seq<char>,
) -> Seq<(Seq<char>, Seq<char>)> {
    if attrs_contains_key(m, k) {
        m.remove(key_index(m, k)).push((k, v))
    } else {
        m.push((k, v))
    }
}

/// The value stored under `k`, if any: the value of the first entry
/// whose key is `k` (under `attrs_unique` there is at most one).
pub open spec fn attrs_lookup(m: Seq<(Seq<char>, Seq<char>)>, k: Seq<char>) -> Option<Seq<char>> {
    if attrs_contains_key(m, k) {
        Some(m[key_index(m, k)].1)
    } else {
        None
    }
}

pub proof fn lemma_key_index(m: Seq<(Seq<char>, Seq<char>)>, k: Seq<char>)
    requires
        attrs_contains_key(m, k),
    ensures
        0 <= key_index(m, k) < m.len(),
        m[key_index(m, k)].0 == k,
        forall|j: int| 0 <= j < key_index(m, k) ==> m[j].0 != k,
    decreases m.len(),
{
    if m.len() == 0 {
    } else if m[0].0 == k {
    } else {
        let mt = m.drop_first();
        assert(attrs_contains_key(mt, k)) by {
            let i = choose|i: int| 0 <= i < m.len() && m[i].0 == k;
            assert(mt[i - 1] == m[i]);
        }
        lemma_key_index(mt, k);
        assert forall|j: int| 0 <= j < key_index(m, k) implies m[j].0 != k by {
            if j > 0 {
                assert(m[j] == mt[j - 1]);
            }
        }
    }
}

pub proof fn lemma_key_index_is(m: Seq<(Seq<char>, Seq<char>)>, k: Seq<char>, e: int)
    requires
        0 <= e < m.len(),
        m[e].0 == k,
        forall|j: int| 0 <= j < e ==> m[j].0 != k,
    ensures
        attrs_contains_key(m, k),
        key_index(m, k) == e,
    decreases m.len(),
{
    if e == 0 {
    } else {
        let mt = m.drop_first();
        assert(mt[e - 1] == m[e]);
        assert forall|j: int| 0 <= j < e - 1 implies mt[j].0 != k by {
            assert(mt[j] == m[j + 1]);
        }
        lemma_key_index_is(mt, k, e - 1);
    }
}

/// The attribute map of an element: names mapped to values, unique
/// names, the later of two inserts with the same name winning.
pub struct AttrMap {
    entries: Vec<(String, String)>,
}

impl View for AttrMap {
    type V = Seq<(Seq<char>, Seq<char>)>;

    closed spec fn view(&self) -> Seq<(Seq<char>, Seq<char>)> {
        self.entries@.map(|i: int, kv: (String, String)| (kv.0@, kv.1@))
    }
}

impl AttrMap {
    /// The empty map.
    pub fn new() -> (r: AttrMap)
        ensures
            r@ == Seq::<(Seq<char>, Seq<char>)>::empty(),
    {
        let r = AttrMap { entries: Vec::new() };
        proof {
            assert(r@ =~= Seq::<(Seq<char>, Seq<char>)>::empty());
        }
        r
    }

    pub fn len(&self) -> (r: usize)
        ensures
            r == self@.len(),
    {
        self.entries.len()
    }

    /// The index of the entry named `name`, if the map has one.
    fn find_index(&self, name: &String) -> (r: Option<usize>)
        ensures
            match r {
                Some(i) => attrs_contains_key(self@, name@) && key_index(self@, name@) == i as int
                    && i < self@.len(),
                None => !attrs_contains_key(self@, name@),
            },
    {
        let n = self.entries.len();
        let mut i: usize = 0;
        while i < n
            invariant
                n == self.entries.len(),
                0 <= i <= n,
                forall|j: int| 0 <= j < i ==> self@[j].0 != name@,
            decreases n - i,
        {
            if self.entries[i].0 == *name {
                proof {
                    lemma_key_index_is(self@, name@, i as int);
                }
                return Some(i);
            }
            i += 1;
        }
        None
    }

    /// Insert a binding; a later insert of an existing name overwrites
    /// the earlier value.
    pub fn insert(&mut self, name: String, value: String)
        ensures
            final(self)@ == attrs_insert(old(self)@, name@, value@),
    {
        let ghost m = self@;
        match self.find_index(&name) {
            Some(i) => {
                self.entries.remove(i);
                self.entries.push((name, value));
                proof {
                    assert(self@ =~= attrs_insert(m, name@, value@));
                }
            },
            None => {
                self.entries.push((name, value));
                proof {
                    assert(self@ =~= attrs_insert(m, name@, value@));
                }
            },
        }
    }

    /// The entry at position `i`, in the map's storage order.
    pub fn entry(&self, i: usize) -> (r: (&String, &String))
        requires
            i < self@.len(),
        ensures
            r.0@ == self@[i as int].0,
            r.1@ == self@[i as int].1,
    {
        proof {
            assert(self@[i as int] == (self.entries@[i as int].0@, self.entries@[i as int].1@));
        }
        (&self.entries[i].0, &self.entries[i].1)
    }

    /// Whether two maps hold the same entries in the same order.
    pub fn eq_map(&self, other: &AttrMap) -> (r: bool)
        ensures
            r == (self@ == other@),
    {
        let n = self.entries.len();
        proof {
            assert(self@.len() == self.entries@.len());
            assert(other@.len() == other.entries@.len());
        }
        if n != other.entries.len() {
            return false;
        }
        let mut i: usize = 0;
        while i < n
            invariant
                0 <= i <= n,
                n == self.entries.len(),
                n == other.entries.len(),
                forall|j: int| 0 <= j < i ==> self@[j] == other@[j],
            decreases n - i,
        {
            proof {
                assert(self@[i as int] == (self.entries@[i as int].0@, self.entries@[i as int].1@));
                assert(other@[i as int] == (other.entries@[i as int].0@, other.entries@[
                    i as int].1@));
            }
            if !(self.entries[i].0 == other.entries[i].0) {
                return false;
            }
            if !(self.entries[i].1 == other.entries[i].1) {
                return false;
            }
            i += 1;
        }
        proof {
            assert(self@ =~= other@);
        }
        true
    }

    /// Look a name up.
    pub fn get(&self, name: &str) -> (r: Option<&String>)
        ensures
            match r {
                Some(v) => attrs_lookup(self@, name@) == Some(v@),
                None => attrs_lookup(self@, name@) is None,
            },
    {
        let n = self.entries.len();
        let mut i: usize = 0;
        while i < n
            invariant
                n == self.entries.len(),
                0 <= i <= n,
                forall|j: int| 0 <= j < i ==> self@[j].0 != name@,
            decreases n - i,
        {
            if str_eq(self.entries[i].0.as_str(), name) {
                proof {
                    lemma_key_index_is(self@, name@, i as int);
                }
                return Some(&self.entries[i].1);
            }
            i += 1;
        }
        proof {
            assert(!attrs_contains_key(self@, name@));
        }
        None
    }
}

/// Character-by-character string comparison, equivalent to equality of
/// the two views.
fn str_eq(a: &str, b: &str) -> (r: bool)
    ensures
        r == (a@ == b@),
{
    let n = a.unicode_len();
    let m = b.unicode_len();
    if n != m {
        proof {
            if a@ == b@ {
                assert(a@.len() == b@.len());
            }
        }
        return false;
    }
    let mut i: usize = 0;
    while i < n
        invariant
            0 <= i <= n,
            n == a@.len(),
            n == b@.len(),
            forall|j: int| 0 <= j < i ==> a@[j] == b@[j],
        decreases n - i,
    {
        if a.get_char(i) != b.get_char(i) {
            proof {
                if a@ == b@ {
                    assert(a@[i as int] == b@[i as int]);
                }
            }
            return false;
        }
        i += 1;
    }
    proof {
        assert(a@ =~= b@);
    }
    true
}

/// A node of the tree.  Text nodes carry their payload and never have
/// children; element nodes carry a tag name, an attribute map and the
/// children in source order.
pub struct Node {
    children: Vec<Node>,
    node_type: NodeType,
}

enum NodeType {
    Text(String),
    Element(ElementData),
}

struct ElementData {
    tag_name: String,
    attrs: AttrMap,
}

spec fn node_model(n: Node) -> NodeModel
    decreases n,
{
    match n.node_type {
        NodeType::Text(s) => NodeModel::Text { payload: s@ },
        NodeType::Element(ed) => NodeModel::Element {
            tag: ed.tag_name@,
            attrs: ed.attrs@,
            children: nodes_model_rec(n.children@),
        },
    }
}

spec fn nodes_model_rec(s: Seq<Node>) -> Seq<NodeModel>
    decreases s,
{
    if s.len() == 0 {
        Seq::empty()
    } else {
        seq![node_model(s[0])] + nodes_model_rec(s.drop_first())
    }
}

impl View for Node {
    type V = NodeModel;

    closed spec fn view(&self) -> NodeModel {
        node_model(*self)
    }
}

/// The models of a list of nodes, in order.
pub open spec fn nodes_model(s: Seq<Node>) -> Seq<NodeModel> {
    s.map(|i: int, n: Node| n@)
}

proof fn lemma_nodes_model_rec(s: Seq<Node>)
    ensures
        nodes_model_rec(s) == nodes_model(s),
    decreases s,
{
    if s.len() == 0 {
        assert(nodes_model_rec(s) =~= nodes_model(s));
    } else {
        lemma_nodes_model_rec(s.drop_first());
        assert(nodes_model_rec(s) =~= nodes_model(s));
    }
}

impl Node {
    /// Text nodes never have children.
    #[verifier::type_invariant]
    spec fn type_inv(self) -> bool {
        self.node_type is Text ==> self.children@.len() == 0
    }

    /// Whether this is a text node.
    pub fn is_text(&self) -> (r: bool)
        ensures
            r == (self@ is Text),
    {
        match &self.node_type {
            NodeType::Text(_) => true,
            NodeType::Element(_) => false,
        }
    }

    /// Whether this is an element node.
    pub fn is_element(&self) -> (r: bool)
        ensures
            r == (self@ is Element),
    {
        match &self.node_type {
            NodeType::Text(_) => false,
            NodeType::Element(_) => true,
        }
    }

    /// The payload of a text node.
    pub fn text_payload(&self) -> (r: Option<&String>)
        ensures
            match r {
                Some(p) => self@ == (NodeModel::Text { payload: p@ }),
                None => !(self@ is Text),
            },
    {
        match &self.node_type {
            NodeType::Text(s) => Some(s),
            NodeType::Element(_) => None,
        }
    }

    /// The tag name of an element node.
    pub fn tag_name(&self) -> (r: Option<&String>)
        ensures
            match r {
                Some(t) => self@ matches NodeModel::Element { tag, .. } && tag == t@,
                None => !(self@ is Element),
            },
    {
        match &self.node_type {
            NodeType::Text(_) => None,
            NodeType::Element(ed) => Some(&ed.tag_name),
        }
    }

    /// The attribute map of an element node.
    pub fn attributes(&self) -> (r: Option<&AttrMap>)
        ensures
            match r {
                Some(a) => self@ matches NodeModel::Element { attrs, .. } && attrs == a@,
                None => !(self@ is Element),
            },
    {
        match &self.node_type {
            NodeType::Text(_) => None,
            NodeType::Element(ed) => Some(&ed.attrs),
        }
    }

    /// The children, in source order; empty for a text node.
    pub fn children(&self) -> (r: &Vec<Node>)
        ensures
            nodes_model(r@) == (match self@ {
                NodeModel::Element { children, .. } => children,
                NodeModel::Text { .. } => Seq::<NodeModel>::empty(),
            }),
    {
        proof {
            use_type_invariant(self);
            lemma_nodes_model_rec(self.children@);
            if self.node_type is Text {
                assert(nodes_model(self.children@) =~= Seq::<NodeModel>::empty());
            }
        }
        &self.children
    }

    /// Structural equality of two trees: equal variants, payloads, tag
    /// names, attribute maps (same entries in the same order) and
    /// children throughout.
    pub fn tree_eq(&self, other: &Node) -> (r: bool)
        ensures
            r == (self@ == other@),
        decreases *self,
    {
        match (&self.node_type, &other.node_type) {
            (NodeType::Text(a), NodeType::Text(b)) => *a == *b,
            (NodeType::Element(e1), NodeType::Element(e2)) => {
                if !(e1.tag_name == e2.tag_name) {
                    return false;
                }
                if !e1.attrs.eq_map(&e2.attrs) {
                    return false;
                }
                let n = self.children.len();
                proof {
                    lemma_nodes_model_rec(self.children@);
                    lemma_nodes_model_rec(other.children@);
                    assert(nodes_model(self.children@).len() == self.children@.len());
                    assert(nodes_model(other.children@).len() == other.children@.len());
                }
                if n != other.children.len() {
                    return false;
                }
                let mut i: usize = 0;
                while i < n
                    invariant
                        0 <= i <= n,
                        n == self.children@.len(),
                        n == other.children@.len(),
                        self@ == (NodeModel::Element {
                            tag: e1.tag_name@,
                            attrs: e1.attrs@,
                            children: nodes_model_rec(self.children@),
                        }),
                        other@ == (NodeModel::Element {
                            tag: e2.tag_name@,
                            attrs: e2.attrs@,
                            children: nodes_model_rec(other.children@),
                        }),
                        forall|j: int| 0 <= j < i ==> self.children@[j]@ == other.children@[j]@,
                    decreases n - i,
                {
                    if !self.children[i].tree_eq(&other.children[i]) {
                        proof {
                            lemma_nodes_model_rec(self.children@);
                            lemma_nodes_model_rec(other.children@);
                            assert(nodes_model(self.children@)[i as int] == self.children@[
                                i as int]@);
                            assert(nodes_model(other.children@)[i as int] == other.children@[
                                i as int]@);
                        }
                        return false;
                    }
                    i += 1;
                }
                proof {
                    lemma_nodes_model_rec(self.children@);
                    lemma_nodes_model_rec(other.children@);
                    assert forall|j: int|
                        0 <= j < self.children@.len() implies nodes_model(self.children@)[j]
                        == nodes_model(other.children@)[j] by {
                        assert(nodes_model(self.children@)[j] == self.children@[j]@);
                        assert(nodes_model(other.children@)[j] == other.children@[j]@);
                    }
                    assert(nodes_model(self.children@) =~= nodes_model(other.children@));
                }
                true
            },
            _ => false,
        }
    }
}

/// Construct a text node carrying `data`.
pub fn text(data: String) -> (r: Node)
    ensures
        r@ == (NodeModel::Text { payload: data@ }),
{
    Node { children: Vec::new(), node_type: NodeType::Text(data) }
}

/// Construct an element node with the given tag name, attribute map
/// and children.  Nothing is validated here: the parser is responsible
/// for the tree invariants.
pub fn elem(tag_name: String, attrs: AttrMap, children: Vec<Node>) -> (r: Node)
    ensures
        r@ == (NodeModel::Element {
            tag: tag_name@,
            attrs: attrs@,
            children: nodes_model(children@),
        }),
{
    let r = Node { children, node_type: NodeType::Element(ElementData { tag_name, attrs }) };
    proof {
        lemma_nodes_model_rec(r.children@);
    }
    r
}

} // verus!
