//! The document tree: elements with attributes, and text.

use crate::assoc::StrMap;
use crate::text::{remaining, run_len, str_eq, string_views, CharClass, Cursor};
use vstd::prelude::*;

verus! {

/// The attributes of an element, by name.
pub type AttrMap = StrMap<String>;

/// A node of the document tree.
#[derive(Debug)]
pub struct Node {
    pub children: Vec<Node>,
    pub node_type: NodeType,
}

/// What a node is: an element or a text.
#[derive(Debug)]
pub enum NodeType {
    Element(ElementData),
    Text(String),
}

/// What is particular to an element: its tag name and its attributes.
#[derive(Debug)]
pub struct ElementData {
    pub tag_name: String,
    pub attributes: AttrMap,
}

/// An element as contracts see it.
pub ghost struct ElementDataView {
    pub tag_name: Seq<char>,
    pub attributes: Map<Seq<char>, Seq<char>>,
}

/// The kind of a node as contracts see it.
pub ghost enum NodeTypeView {
    Element(ElementDataView),
    Text(Seq<char>),
}

/// A node as contracts see it.
pub ghost struct NodeView {
    pub children: Seq<NodeView>,
    pub node_type: NodeTypeView,
}

impl View for ElementData {
    type V = ElementDataView;

    open spec fn view(&self) -> ElementDataView {
        ElementDataView { tag_name: self.tag_name@, attributes: self.attributes@ }
    }
}

impl View for NodeType {
    type V = NodeTypeView;

    open spec fn view(&self) -> NodeTypeView {
        match self {
            NodeType::Element(e) => NodeTypeView::Element(e@),
            NodeType::Text(t) => NodeTypeView::Text(t@),
        }
    }
}

impl View for Node {
    type V = NodeView;

    open spec fn view(&self) -> NodeView
        decreases self,
    {
        NodeView {
            children: node_views(self.children@),
            node_type: self.node_type@,
        }
    }
}

/// The views of a sequence of nodes.
pub open spec fn node_views(nodes: Seq<Node>) -> Seq<NodeView>
    decreases nodes,
{
    Seq::new(
        nodes.len(),
        |i: int|
            if 0 <= i < nodes.len() {
                nodes[i]@
            } else {
                arbitrary()
            },
    )
}

/// A text node.
pub fn text(data: String) -> (n: Node)
    ensures
        n@ == (NodeView { children: Seq::empty(), node_type: NodeTypeView::Text(data@) }),
{
    let n = Node { children: Vec::new(), node_type: NodeType::Text(data) };
    assert(n@.children =~= Seq::empty());
    n
}


/// An element node.
pub fn elem(name: String, attrs: AttrMap, children: Vec<Node>) -> (n: Node)
    ensures
        n@ == (NodeView {
            children: node_views(children@),
            node_type: NodeTypeView::Element(
                ElementDataView { tag_name: name@, attributes: attrs@ },
            ),
        }),
{
    Node {
        children: children,
        node_type: NodeType::Element(ElementData { tag_name: name, attributes: attrs }),
    }
}

/// The pieces of `s` from `pos` on that spaces separate. Two spaces in a
/// row, and a space at either end, give an empty piece.
pub open spec fn pieces_from(s: Seq<char>, pos: int) -> Seq<Seq<char>>
    decreases remaining(s, pos),
{
    let n = run_len(s, pos, CharClass::Except(' '));
    if 0 <= pos + n < s.len() {
        seq![s.subrange(pos, pos + n)] + pieces_from(s, pos + n + 1)
    } else {
        seq![s.subrange(pos, pos + n)]
    }
}

impl ElementDataView {
    /// The value of the `id` attribute, if there is one.
    pub open spec fn id(self) -> Option<Seq<char>> {
        if self.attributes.contains_key("id"@) {
            Some(self.attributes["id"@])
        } else {
            None
        }
    }

    /// The class names of the element: the pieces of its `class` attribute
    /// that spaces separate, each once, in the order in which they first
    /// occur; none without that attribute.
    pub open spec fn classes(self) -> Seq<Seq<char>> {
        if self.attributes.contains_key("class"@) {
            distinct(pieces_from(self.attributes["class"@], 0))
        } else {
            Seq::empty()
        }
    }
}

/// The items of `v` without repeats: each where it first occurs.
pub open spec fn distinct(v: Seq<Seq<char>>) -> Seq<Seq<char>>
    decreases v.len(),
{
    if v.len() == 0 {
        Seq::empty()
    } else if distinct(v.drop_last()).contains(v.last()) {
        distinct(v.drop_last())
    } else {
        distinct(v.drop_last()).push(v.last())
    }
}

/// Dropping repeats leaves no item twice, and loses and adds none.
pub proof fn lemma_distinct(v: Seq<Seq<char>>)
    ensures
        forall|i: int, j: int|
            0 <= i < j < distinct(v).len() ==> distinct(v)[i] != distinct(v)[j],
        forall|x: Seq<char>| distinct(v).contains(x) <==> v.contains(x),
    decreases v.len(),
{
    if v.len() > 0 {
        let front = v.drop_last();
        let d = distinct(front);
        lemma_distinct(front);
        assert forall|x: Seq<char>| distinct(v).contains(x) <==> v.contains(x) by {
            if v.contains(x) {
                let i = choose|i: int| 0 <= i < v.len() && v[i] == x;
                if i < v.len() - 1 {
                    assert(front[i] == x);
                    assert(front.contains(x));
                    assert(d.contains(x));
                    let k = choose|k: int| 0 <= k < d.len() && d[k] == x;
                    assert(distinct(v)[k] == x);
                } else if !d.contains(x) {
                    assert(distinct(v)[d.len() as int] == x);
                }
            }
            if distinct(v).contains(x) {
                let k = choose|k: int| 0 <= k < distinct(v).len() && distinct(v)[k] == x;
                if k < d.len() {
                    assert(d[k] == x);
                    assert(d.contains(x));
                    assert(front.contains(x));
                    let i = choose|i: int| 0 <= i < front.len() && front[i] == x;
                    assert(v[i] == x);
                } else {
                    assert(v[v.len() - 1] == x);
                }
            }
        }
        if !d.contains(v.last()) {
            assert forall|i: int, j: int| 0 <= i < j < distinct(v).len() implies distinct(v)[i]
                != distinct(v)[j] by {
                if j == d.len() {
                    assert(d[i] == distinct(v)[i]);
                    assert(d.contains(d[i]));
                } else {
                    assert(d[i] != d[j]);
                }
            }
        }
    }
}

/// Whether `needle` is among `names`.
pub fn contains_name(names: &Vec<String>, needle: &str) -> (r: bool)
    ensures
        r == string_views(names@).contains(needle@),
{
    let mut i: usize = 0;
    while i < names.len()
        invariant
            i <= names.len(),
            forall|j: int| 0 <= j < i ==> string_views(names@)[j] != needle@,
        decreases names.len() - i,
    {
        if str_eq(names[i].as_str(), needle) {
            assert(string_views(names@)[i as int] == needle@);
            return true;
        }
        i += 1;
    }
    false
}

impl ElementData {
    /// The value of the `id` attribute, if there is one.
    pub fn id(&self) -> (r: Option<&String>)
        ensures
            match r {
                Some(s) => self@.id() == Some(s@),
                None => self@.id().is_none(),
            },
    {
        self.attributes.get("id")
    }

    /// The class names of the element, each once, in the order in which
    /// its `class` attribute first gives them.
    pub fn classes(&self) -> (r: Vec<String>)
        ensures
            string_views(r@) == self@.classes(),
            forall|i: int, j: int| 0 <= i < j < r.len() ==> r@[i]@ != r@[j]@,
    {
        let mut names: Vec<String> = Vec::new();
        assert(string_views(names@) =~= Seq::empty());
        let classlist = match self.attributes.get("class") {
            Some(classlist) => classlist,
            None => {
                return names;
            },
        };
        let mut cursor = Cursor::new(classlist.as_str());
        let ghost s = classlist@;
        loop
            invariant_except_break
                pieces_from(s, 0) == string_views(names@) + pieces_from(s, cursor.pos as int),
            invariant
                cursor.wf(),
                cursor.input@ == s,
            ensures
                pieces_from(s, 0) == string_views(names@),
            decreases s.len() - cursor.pos,
        {
            let ghost before = names@;
            let name = cursor.consume_while(CharClass::Except(' '));
            proof {
                assert(string_views(before.push(name)) =~= string_views(before).push(name@));
            }
            names.push(name);
            if cursor.eof() {
                proof {
                    assert(string_views(before) + seq![name@] =~= string_views(names@));
                }
                break ;
            }
            cursor.consume_char();
            proof {
                assert(string_views(before) + (seq![name@] + pieces_from(s, cursor.pos as int))
                    =~= string_views(names@) + pieces_from(s, cursor.pos as int));
            }
        }
        // Keep each name where it first occurs.
        let ghost pieces = string_views(names@);
        let mut classes: Vec<String> = Vec::new();
        assert(pieces.take(0) =~= Seq::empty());
        assert(string_views(classes@) =~= Seq::empty());
        for name in it: names
            invariant
                it.seq() == names@,
                pieces == string_views(names@),
                string_views(classes@) == distinct(pieces.take(it.index())),
        {
            let ghost i = it.index();
            let ghost kept = classes@;
            proof {
                assert(pieces.take(i + 1).drop_last() =~= pieces.take(i));
                assert(pieces.take(i + 1).last() == name@);
            }
            if !contains_name(&classes, name.as_str()) {
                proof {
                    assert(string_views(kept.push(name)) =~= string_views(kept).push(name@));
                }
                classes.push(name);
            }
        }
        proof {
            assert(pieces.take(pieces.len() as int) =~= pieces);
            lemma_distinct(pieces);
            assert forall|i: int, j: int| 0 <= i < j < classes.len() implies classes@[i]@
                != classes@[j]@ by {
                assert(string_views(classes@)[i] == classes@[i]@);
                assert(string_views(classes@)[j] == classes@[j]@);
            }
        }
        classes
    }
}


/// The elements named `name` in the tree of `n`, in document order. A
/// text node holds none.
pub open spec fn elements_by_tag(n: NodeView, name: Seq<char>) -> Seq<NodeView>
    decreases n, 1int,
{
    match n.node_type {
        NodeTypeView::Element(e) => (if e.tag_name == name {
            seq![n]
        } else {
            Seq::empty()
        }) + elements_among(n.children, name),
        NodeTypeView::Text(_) => Seq::empty(),
    }
}

/// The elements named `name` in the trees of `nodes`.
pub open spec fn elements_among(nodes: Seq<NodeView>, name: Seq<char>) -> Seq<NodeView>
    decreases nodes, 0int,
{
    if nodes.len() == 0 {
        Seq::empty()
    } else {
        elements_among(nodes.drop_last(), name) + elements_by_tag(nodes.last(), name)
    }
}

/// The views of the nodes that a sequence of references points to.
pub open spec fn node_ref_views(v: Seq<&Node>) -> Seq<NodeView> {
    v.map_values(|n: &Node| n@)
}

impl Node {
    /// The elements of this tree whose tag name is `name`, in document
    /// order.
    pub fn get_elements_by_tag_name(&self, name: &str) -> (results: Vec<&Node>)
        ensures
            node_ref_views(results@) == elements_by_tag(self@, name@),
        decreases self,
    {
        let mut results: Vec<&Node> = Vec::new();
        assert(node_ref_views(results@) =~= Seq::empty());
        match &self.node_type {
            NodeType::Element(element_data) => {
                if str_eq(element_data.tag_name.as_str(), name) {
                    results.push(self);
                    assert(node_ref_views(results@) =~= seq![self@]);
                }
                let ghost own = node_ref_views(results@);
                let ghost kids = node_views(self.children@);
                let n = self.children.len();
                let mut i: usize = 0;
                assert(kids.take(0) =~= Seq::empty());
                assert(own + Seq::<NodeView>::empty() =~= own);
                while i < n
                    invariant
                        i <= n == self.children.len(),
                        kids == node_views(self.children@),
                        node_ref_views(results@) == own + elements_among(
                            kids.take(i as int),
                            name@,
                        ),
                    decreases n - i,
                {
                    let mut found = self.children[i].get_elements_by_tag_name(name);
                    proof {
                        assert(kids.take(i + 1).drop_last() =~= kids.take(i as int));
                        assert(kids.take(i + 1).last() == self.children@[i as int]@);
                        assert(node_ref_views(results@ + found@) =~= node_ref_views(results@)
                            + node_ref_views(found@));
                        assert(own + (elements_among(kids.take(i as int), name@) + node_ref_views(
                            found@,
                        )) =~= (own + elements_among(kids.take(i as int), name@))
                            + node_ref_views(found@));
                    }
                    results.append(&mut found);
                    i += 1;
                }
                assert(kids.take(n as int) =~= kids);
            },
            NodeType::Text(_) => {},
        }
        results
    }
}

} // verus!
