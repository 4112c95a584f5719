//! The document tree: elements with attributes, and text.

use vstd::prelude::*;
use crate::chars::string_of;
use crate::name_map::NameMap;

verus! {

broadcast use vstd::std_specs::vec::axiom_vec_index_decreases;

/// Attribute names mapped to values.
pub type AttrMap = NameMap<String>;

/// A node of the document tree and the nodes under it, in order.
#[derive(Debug, PartialEq)]
pub struct Node {
    pub children: Vec<Node>,
    pub node_type: NodeType,
}

/// What a node is: an element or a run of text.
#[derive(Debug, PartialEq)]
pub enum NodeType {
    Element(ElementData),
    Text(String),
}

/// An element's tag name and attributes.
#[derive(Debug, PartialEq)]
pub struct ElementData {
    pub tag_name: String,
    pub attributes: AttrMap,
}

/// What a node holds, as mathematical values.
pub enum NodeModel {
    Element { tag: Seq<char>, attrs: Map<Seq<char>, Seq<char>>, children: Seq<NodeModel> },
    Text { text: Seq<char>, children: Seq<NodeModel> },
}

impl NodeModel {
    pub open spec fn children(self) -> Seq<NodeModel> {
        match self {
            NodeModel::Element { children, .. } => children,
            NodeModel::Text { children, .. } => children,
        }
    }
}

pub open spec fn children_model(children: Seq<Node>) -> Seq<NodeModel>
    decreases children,
{
    Seq::new(children.len(), |i: int| if 0 <= i < children.len() { node_model(children[i]) } else { arbitrary() })
}

pub open spec fn node_model(n: Node) -> NodeModel
    decreases n,
{
    match n.node_type {
        NodeType::Element(e) => NodeModel::Element {
            tag: e.tag_name@,
            attrs: e.attributes.view(),
            children: children_model(n.children@),
        },
        NodeType::Text(t) => NodeModel::Text { text: t@, children: children_model(n.children@) },
    }
}

pub open spec fn id_key() -> Seq<char> {
    seq!['i', 'd']
}

pub open spec fn class_key() -> Seq<char> {
    seq!['c', 'l', 'a', 's', 's']
}

/// `s` cut at every space, empty pieces included.
pub open spec fn split_spaces(s: Seq<char>) -> Seq<Seq<char>>
    decreases s.len(),
{
    if s.len() == 0 {
        seq![Seq::empty()]
    } else {
        let p = split_spaces(s.drop_last());
        if s.last() == ' ' {
            p.push(Seq::empty())
        } else {
            p.update(p.len() - 1, p.last().push(s.last()))
        }
    }
}

/// The class names of an element whose attributes are `attrs`.
pub open spec fn class_list(attrs: Map<Seq<char>, Seq<char>>) -> Seq<Seq<char>> {
    if attrs.contains_key(class_key()) {
        split_spaces(attrs[class_key()])
    } else {
        Seq::empty()
    }
}

pub open spec fn string_views(v: Seq<String>) -> Seq<Seq<char>> {
    v.map_values(|x: String| x@)
}

/// A text node.
pub fn text(data: String) -> (r: Node)
    ensures
        node_model(r) == (NodeModel::Text { text: data@, children: Seq::empty() }),
{
    let r = Node { children: Vec::new(), node_type: NodeType::Text(data) };
    assert(children_model(r.children@) =~= Seq::empty());
    r
}

/// An element node.
pub fn elem(name: String, attrs: AttrMap, children: Vec<Node>) -> (r: Node)
    ensures
        node_model(r) == (NodeModel::Element {
            tag: name@,
            attrs: attrs.view(),
            children: children_model(children@),
        }),
{
    Node {
        children: children,
        node_type: NodeType::Element(ElementData { tag_name: name, attributes: attrs }),
    }
}

impl ElementData {
    /// The value of the `id` attribute, if present.
    pub fn id(&self) -> (r: Option<&String>)
        ensures
            match r {
                Some(v) => self.attributes.view().contains_key(id_key())
                    && self.attributes.view()[id_key()] == v@,
                None => !self.attributes.view().contains_key(id_key()),
            },
    {
        let key = string_of(&vec!['i', 'd']);
        assert(key@ =~= id_key());
        self.attributes.get(&key)
    }

    /// The class names: the `class` attribute cut at single spaces, or none
    /// without that attribute.
    pub fn classes(&self) -> (r: Vec<String>)
        ensures
            string_views(r@) == class_list(self.attributes.view()),
    {
        let key = string_of(&vec!['c', 'l', 'a', 's', 's']);
        assert(key@ =~= class_key());
        match self.attributes.get(&key) {
            None => {
                let r: Vec<String> = Vec::new();
                assert(string_views(r@) =~= Seq::empty());
                r
            },
            Some(list) => {
                let chars = crate::chars::chars_of(list.as_str());
                let mut pieces: Vec<String> = Vec::new();
                let mut cur: Vec<char> = Vec::new();
                let mut i: usize = 0;
                assert(chars@.subrange(0, 0) =~= Seq::<char>::empty());
                while i < chars.len()
                    invariant
                        chars@ == list@,
                        i <= chars.len(),
                        string_views(pieces@).push(cur@) == split_spaces(chars@.subrange(0, i as int)),
                    decreases chars.len() - i,
                {
                    let ghost before = chars@.subrange(0, i as int);
                    let c = chars[i];
                    assert(chars@.subrange(0, i + 1).drop_last() =~= before);
                    if c == ' ' {
                        let piece = string_of(&cur);
                        pieces.push(piece);
                        cur = Vec::new();
                        assert(string_views(pieces@).push(cur@) =~= split_spaces(before).push(Seq::empty()));
                    } else {
                        cur.push(c);
                        assert(string_views(pieces@).push(cur@) =~= split_spaces(before).update(
                            split_spaces(before).len() - 1, split_spaces(before).last().push(c)));
                    }
                    i = i + 1;
                }
                let last = string_of(&cur);
                pieces.push(last);
                assert(chars@.subrange(0, chars@.len() as int) =~= chars@);
                assert(string_views(pieces@) =~= split_spaces(chars@));
                pieces
            },
        }
    }
}

} // verus!
