//! The document tree the style engine consumes.
//!
//! The tree is produced elsewhere (an HTML parser is not this crate's
//! concern) and is treated as an immutable input: a node is either text
//! or an element with a tag name, attributes and children.

use vstd::prelude::*;
use crate::css::str_views;
use crate::css::scan_end;
use crate::css::lemma_scan_end;
use crate::css::CharClass;
use crate::strmap::StrMap;
use crate::strmap::assoc_lookup;

verus! {

/// An element's attributes, keyed by attribute name.
pub type AttrMap = StrMap<String>;

/// A document node: its children and what kind of node it is.
pub struct Node {
    pub children: Vec<Node>,
    pub node_type: NodeType,
}

/// Text or element.
pub enum NodeType {
    Text(String),
    Element(ElementData),
}

/// The data of an element node.
pub struct ElementData {
    pub tag_name: String,
    pub attributes: AttrMap,
}

/// Mathematical image of an element: tag name and attribute entries.
#[verifier::ext_equal]
pub struct ElemView {
    pub tag_name: Seq<char>,
    pub attributes: Seq<(Seq<char>, Seq<char>)>,
}

/// Mathematical image of a node kind.
#[verifier::ext_equal]
pub enum NodeTypeView {
    Text(Seq<char>),
    Element(ElemView),
}

/// Mathematical image of a node.
#[verifier::ext_equal]
pub struct NodeView {
    pub children: Seq<NodeView>,
    pub node_type: NodeTypeView,
}

impl View for ElementData {
    type V = ElemView;

    open spec fn view(&self) -> ElemView {
        ElemView { tag_name: self.tag_name@, attributes: self.attributes@ }
    }
}

impl View for NodeType {
    type V = NodeTypeView;

    open spec fn view(&self) -> NodeTypeView {
        match self {
            NodeType::Text(s) => NodeTypeView::Text(s@),
            NodeType::Element(e) => NodeTypeView::Element(e@),
        }
    }
}

/// Mathematical image of a node.
pub open spec fn node_view(n: Node) -> NodeView
    decreases n,
{
    NodeView { children: node_views(n.children@), node_type: n.node_type@ }
}

/// The views of a sequence of nodes.
pub open spec fn node_views(v: Seq<Node>) -> Seq<NodeView>
    decreases v,
{
    if v.len() == 0 {
        Seq::empty()
    } else {
        node_views(v.drop_last()).push(node_view(v.last()))
    }
}

/// `node_views` maps `node_view` over the sequence, index by index.
pub proof fn lemma_node_views(v: Seq<Node>)
    ensures
        node_views(v).len() == v.len(),
        forall|i: int| 0 <= i < v.len() ==> node_views(v)[i] == node_view(v[i]),
    decreases v,
{
    if v.len() > 0 {
        lemma_node_views(v.drop_last());
    }
}

impl View for Node {
    type V = NodeView;

    open spec fn view(&self) -> NodeView {
        node_view(*self)
    }
}

/// The attribute named `k`, if the element carries one.
pub open spec fn spec_attr(e: ElemView, k: Seq<char>) -> Option<Seq<char>> {
    assoc_lookup(e.attributes, k)
}

/// The key of the id attribute.
pub open spec fn id_key() -> Seq<char> {
    seq!['i', 'd']
}

/// The key of the class attribute.
pub open spec fn class_key() -> Seq<char> {
    seq!['c', 'l', 'a', 's', 's']
}

/// The key of the inline style attribute.
pub open spec fn style_key() -> Seq<char> {
    seq!['s', 't', 'y', 'l', 'e']
}

/// The class attribute split on single spaces, from position `i` on.
/// Consecutive spaces yield empty segments, as splitting does.
pub open spec fn spec_split_from(s: Seq<char>, i: int) -> Seq<Seq<char>>
    decreases s.len() - i,
    when 0 <= i <= s.len()
    via spec_split_from_dec
{
    let j = scan_end(s, i, CharClass::NotSpace);
    if j >= s.len() {
        seq![s.subrange(i, s.len() as int)]
    } else {
        seq![s.subrange(i, j)] + spec_split_from(s, j + 1)
    }
}

#[via_fn]
proof fn spec_split_from_dec(s: Seq<char>, i: int) {
    if 0 <= i <= s.len() {
        lemma_scan_end(s, i, CharClass::NotSpace);
    }
}

/// A string split on single spaces.
pub open spec fn spec_split_spaces(s: Seq<char>) -> Seq<Seq<char>> {
    spec_split_from(s, 0)
}

/// The derived class set of an element: the class attribute split on
/// single spaces; no attribute means no classes.  Order and multiplicity
/// of the segments never matter to a caller, only membership.
pub open spec fn spec_classes(e: ElemView) -> Seq<Seq<char>> {
    match spec_attr(e, class_key()) {
        Option::Some(v) => spec_split_spaces(v),
        Option::None => Seq::empty(),
    }
}

/// Splits a string on single spaces.
fn split_spaces(s: &str) -> (r: Vec<String>)
    ensures
        str_views(r@) == spec_split_spaces(s@),
{
    let n = s.unicode_len();
    let mut out: Vec<String> = Vec::new();
    let mut i: usize = 0;
    proof {
        assert(str_views(out@) =~= Seq::<Seq<char>>::empty());
        assert(str_views(out@) + spec_split_from(s@, 0) =~= spec_split_from(s@, 0));
    }
    loop
        invariant_except_break
            spec_split_spaces(s@) == str_views(out@) + spec_split_from(s@, i as int),
        invariant
            0 <= i <= n,
            n as nat == s@.len(),
        ensures
            spec_split_spaces(s@) == str_views(out@),
        decreases n - i,
    {
        let j = crate::css::scan_str(s, i, CharClass::NotSpace);
        proof {
            lemma_scan_end(s@, i as int, CharClass::NotSpace);
        }
        let ghost out0 = out@;
        if j >= n {
            let word = String::from_str(s.substring_char(i, n));
            out.push(word);
            proof {
                assert(str_views(out@) =~= str_views(out0).push(s@.subrange(
                    i as int,
                    s@.len() as int,
                )));
                assert(str_views(out0) + spec_split_from(s@, i as int) =~= str_views(out@));
            }
            break;
        }
        let word = String::from_str(s.substring_char(i, j));
        out.push(word);
        proof {
            assert(str_views(out@) =~= str_views(out0).push(s@.subrange(i as int, j as int)));
            assert(str_views(out0) + spec_split_from(s@, i as int) =~= str_views(out@)
                + spec_split_from(s@, j as int + 1));
        }
        i = j + 1;
    }
    out
}

impl Node {
    /// A text node; it has no children.
    pub fn text(data: String) -> (r: Self)
        ensures
            r@.node_type == NodeTypeView::Text(data@),
            r@.children == Seq::<NodeView>::empty(),
    {
        let r = Self { children: Vec::new(), node_type: NodeType::Text(data) };
        proof {
            assert(r@.children =~= Seq::<NodeView>::empty());
        }
        r
    }

    /// An element node with its tag name, attributes and children.
    pub fn elem(name: String, attrs: AttrMap, children: Vec<Node>) -> (r: Self)
        ensures
            r@.node_type == NodeTypeView::Element(ElemView { tag_name: name@, attributes: attrs@ }),
            r@.children == node_views(children@),
    {
        let r = Self {
            children,
            node_type: NodeType::Element(ElementData { tag_name: name, attributes: attrs }),
        };
        proof {
            assert(r@.children =~= node_views(r.children@));
        }
        r
    }
}

impl ElementData {
    /// The element's id attribute, if any.
    pub fn id(&self) -> (r: Option<&String>)
        ensures
            match r {
                Option::Some(v) => spec_attr(self@, id_key()) == Option::Some(v@),
                Option::None => spec_attr(self@, id_key()) is None,
            },
    {
        proof {
            reveal_strlit("id");
            assert("id"@ =~= id_key());
        }
        self.get_attr("id")
    }

    /// The element's derived class set: the class attribute split on
    /// single spaces, or nothing.
    pub fn classes(&self) -> (r: Vec<String>)
        ensures
            str_views(r@) == spec_classes(self@),
    {
        proof {
            reveal_strlit("class");
            assert("class"@ =~= class_key());
        }
        match self.get_attr("class") {
            Some(classlist) => split_spaces(classlist.as_str()),
            None => {
                let r: Vec<String> = Vec::new();
                proof {
                    assert(str_views(r@) =~= Seq::<Seq<char>>::empty());
                }
                r
            },
        }
    }

    /// The attribute named `name`, if any.
    pub fn get_attr(&self, name: &str) -> (r: Option<&String>)
        ensures
            match r {
                Option::Some(v) => spec_attr(self@, name@) == Option::Some(v@),
                Option::None => spec_attr(self@, name@) is None,
            },
    {
        self.attributes.get(name)
    }
}

} // verus!
