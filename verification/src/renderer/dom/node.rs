//! The document tree: nodes held in one vector and linked by their indices.

use crate::error::Error;
use crate::renderer::dom::tree::{
    lemma_with_child, lemma_with_text, node_wf, trails_text, tree_wf, with_child, with_text,
};
use crate::renderer::html::html_tag_attribute::HtmlTagAttribute;
use vstd::prelude::*;
use vstd::std_specs::cmp::PartialEqSpecImpl;

verus! {

/// The elements that the tree can hold.
#[derive(Debug, Copy, Clone, PartialEq, Eq, Structural)]
pub enum ElementKind {
    Html,
    Head,
    Style,
    Script,
    Body,
    P,
    A,
}

/// The element kind that a tag name stands for, if it stands for one.
pub open spec fn kind_of_name(name: Seq<char>) -> Option<ElementKind> {
    if name == "html"@ {
        Some(ElementKind::Html)
    } else if name == "head"@ {
        Some(ElementKind::Head)
    } else if name == "style"@ {
        Some(ElementKind::Style)
    } else if name == "script"@ {
        Some(ElementKind::Script)
    } else if name == "body"@ {
        Some(ElementKind::Body)
    } else if name == "p"@ {
        Some(ElementKind::P)
    } else if name == "a"@ {
        Some(ElementKind::A)
    } else {
        None
    }
}

/// The message of the error for a tag name that names no element kind.
pub open spec fn unsupported_element_message() -> Seq<char> {
    "unsupported element"@
}

/// Whether `a` and `b` hold the same characters.
fn same_text(a: &str, b: &str) -> (r: bool)
    ensures
        r == (a@ == b@),
{
    let x = a.to_owned();
    let y = b.to_owned();
    x == y
}

impl ElementKind {
    /// The kind that `s` names, or an error where it names none.
    pub fn from_str(s: &str) -> (r: Result<ElementKind, Error>)
        ensures
            match kind_of_name(s@) {
                Some(k) => r == Ok::<ElementKind, Error>(k),
                None => r matches Err(Error::UnexpectedInput(m)) && m@
                    == unsupported_element_message(),
            },
    {
        if same_text(s, "html") {
            Ok(ElementKind::Html)
        } else if same_text(s, "head") {
            Ok(ElementKind::Head)
        } else if same_text(s, "style") {
            Ok(ElementKind::Style)
        } else if same_text(s, "script") {
            Ok(ElementKind::Script)
        } else if same_text(s, "body") {
            Ok(ElementKind::Body)
        } else if same_text(s, "p") {
            Ok(ElementKind::P)
        } else if same_text(s, "a") {
            Ok(ElementKind::A)
        } else {
            Err(Error::UnexpectedInput(String::from_str("unsupported element")))
        }
    }
}

impl std::str::FromStr for ElementKind {
    type Err = Error;

    /// The kind that `s` names: what `ElementKind::from_str` gives.
    fn from_str(s: &str) -> (r: Result<ElementKind, Error>)
        ensures
            match kind_of_name(s@) {
                Some(k) => r == Ok::<ElementKind, Error>(k),
                None => r matches Err(Error::UnexpectedInput(m)) && m@
                    == unsupported_element_message(),
            },
    {
        ElementKind::from_str(s)
    }
}

/// An element as a mathematical value.
pub struct ElementModel {
    pub kind: ElementKind,
    pub attributes: Seq<(Seq<char>, Seq<char>)>,
}

/// An element: its kind and its attributes in the order of its tag.
#[derive(Debug, Clone, PartialEq, Eq)]
pub struct Element {
    kind: ElementKind,
    attributes: Vec<HtmlTagAttribute>,
}

impl View for Element {
    type V = ElementModel;

    closed spec fn view(&self) -> ElementModel {
        ElementModel { kind: self.kind, attributes: self.attributes.deep_view() }
    }
}

/// A copy of `attributes`.
pub(crate) fn duplicate_attributes(attributes: &Vec<HtmlTagAttribute>) -> (r: Vec<HtmlTagAttribute>)
    ensures
        r.deep_view() == attributes.deep_view(),
{
    let mut r: Vec<HtmlTagAttribute> = Vec::new();
    let mut i: usize = 0;
    while i < attributes.len()
        invariant
            i <= attributes.len(),
            r.len() == i,
            forall|j: int| 0 <= j < i ==> r[j]@ == attributes[j]@,
        decreases attributes.len() - i,
    {
        r.push(attributes[i].duplicate());
        i += 1;
    }
    assert(r.deep_view() =~= attributes.deep_view());
    r
}

impl Element {
    /// The element that the tag `kind` names, with `attributes`; an error
    /// where the tag names no element kind.
    pub fn new(kind: &str, attributes: Vec<HtmlTagAttribute>) -> (r: Result<Element, Error>)
        ensures
            match kind_of_name(kind@) {
                Some(k) => r matches Ok(e) && e@ == (ElementModel {
                    kind: k,
                    attributes: attributes.deep_view(),
                }),
                None => r matches Err(Error::UnexpectedInput(m)) && m@
                    == unsupported_element_message(),
            },
    {
        match ElementKind::from_str(kind) {
            Ok(k) => Ok(Element { kind: k, attributes }),
            Err(e) => Err(e),
        }
    }

    /// The element of kind `kind` with `attributes`.
    pub fn of_kind(kind: ElementKind, attributes: Vec<HtmlTagAttribute>) -> (r: Element)
        ensures
            r@ == (ElementModel { kind, attributes: attributes.deep_view() }),
    {
        Element { kind, attributes }
    }

    pub fn kind(&self) -> (r: ElementKind)
        ensures
            r == self@.kind,
    {
        self.kind
    }

    /// The attributes, in the order in which the tag gave them.
    pub fn attributes(&self) -> (r: Vec<HtmlTagAttribute>)
        ensures
            r.deep_view() == self@.attributes,
    {
        duplicate_attributes(&self.attributes)
    }

    /// A copy of this element.
    pub fn duplicate(&self) -> (r: Element)
        ensures
            r@ == self@,
    {
        Element { kind: self.kind, attributes: duplicate_attributes(&self.attributes) }
    }
}

/// What a node is, as a mathematical value.
pub enum NodeKindModel {
    Document,
    Element(ElementModel),
    Text(Seq<char>),
}

/// What a node is: the document, an element, or text.
#[derive(Debug, Clone, Eq)]
pub enum NodeKind {
    Document,
    Element(Element),
    Text(String),
}

impl View for NodeKind {
    type V = NodeKindModel;

    open spec fn view(&self) -> NodeKindModel {
        match self {
            NodeKind::Document => NodeKindModel::Document,
            NodeKind::Element(e) => NodeKindModel::Element(e@),
            NodeKind::Text(s) => NodeKindModel::Text(s@),
        }
    }
}

/// Two node kinds are alike where both are the document, both are text, or
/// both are elements of one element kind.
pub open spec fn alike(a: NodeKindModel, b: NodeKindModel) -> bool {
    match a {
        NodeKindModel::Document => b is Document,
        NodeKindModel::Element(e1) => match b {
            NodeKindModel::Element(e2) => e1.kind == e2.kind,
            _ => false,
        },
        NodeKindModel::Text(_) => b is Text,
    }
}

impl PartialEq for NodeKind {
    fn eq(&self, other: &Self) -> (r: bool) {
        match self {
            NodeKind::Document => match other {
                NodeKind::Document => true,
                _ => false,
            },
            NodeKind::Element(e1) => match other {
                NodeKind::Element(e2) => e1.kind() == e2.kind(),
                _ => false,
            },
            NodeKind::Text(_) => match other {
                NodeKind::Text(_) => true,
                _ => false,
            },
        }
    }
}

impl PartialEqSpecImpl for NodeKind {
    open spec fn obeys_eq_spec() -> bool {
        true
    }

    open spec fn eq_spec(&self, other: &NodeKind) -> bool {
        alike(self@, other@)
    }
}

impl NodeKind {
    /// A copy of this node kind.
    pub fn duplicate(&self) -> (r: NodeKind)
        ensures
            r@ == self@,
    {
        match self {
            NodeKind::Document => NodeKind::Document,
            NodeKind::Element(e) => NodeKind::Element(e.duplicate()),
            NodeKind::Text(s) => NodeKind::Text(s.clone()),
        }
    }
}

/// A node as a mathematical value: what it is, and the indices of the
/// nodes around it.
pub struct NodeModel {
    pub kind: NodeKindModel,
    pub parent: Option<usize>,
    pub first_child: Option<usize>,
    pub last_child: Option<usize>,
    pub previous_sibling: Option<usize>,
    pub next_sibling: Option<usize>,
}

/// A node of the tree. Its links are indices into the tree that holds it.
#[derive(Debug, Clone)]
pub struct Node {
    pub kind: NodeKind,
    parent: Option<usize>,
    first_child: Option<usize>,
    last_child: Option<usize>,
    previous_sibling: Option<usize>,
    next_sibling: Option<usize>,
}

impl View for Node {
    type V = NodeModel;

    closed spec fn view(&self) -> NodeModel {
        NodeModel {
            kind: self.kind@,
            parent: self.parent,
            first_child: self.first_child,
            last_child: self.last_child,
            previous_sibling: self.previous_sibling,
            next_sibling: self.next_sibling,
        }
    }
}

impl DeepView for Node {
    type V = NodeModel;

    open spec fn deep_view(&self) -> NodeModel {
        self@
    }
}

impl PartialEq for Node {
    fn eq(&self, other: &Self) -> (r: bool) {
        self.kind == other.kind
    }
}

impl PartialEqSpecImpl for Node {
    open spec fn obeys_eq_spec() -> bool {
        true
    }

    open spec fn eq_spec(&self, other: &Node) -> bool {
        alike(self@.kind, other@.kind)
    }
}

impl NodeModel {
    /// A node of kind `kind` that is linked to no other.
    pub open spec fn lone(kind: NodeKindModel) -> NodeModel {
        NodeModel {
            kind,
            parent: None,
            first_child: None,
            last_child: None,
            previous_sibling: None,
            next_sibling: None,
        }
    }
}

impl Node {
    /// A node of kind `kind` that is linked to no other.
    pub fn new(kind: NodeKind) -> (r: Node)
        ensures
            r@ == NodeModel::lone(kind@),
    {
        Node {
            kind,
            parent: None,
            first_child: None,
            last_child: None,
            previous_sibling: None,
            next_sibling: None,
        }
    }

    /// A copy of what the node is.
    pub fn node_kind(&self) -> (r: NodeKind)
        ensures
            r@ == self@.kind,
    {
        self.kind.duplicate()
    }

    pub fn set_parent(&mut self, parent: Option<usize>)
        ensures
            final(self)@ == (NodeModel { parent, ..old(self)@ }),
    {
        self.parent = parent;
    }

    pub fn parent(&self) -> (r: Option<usize>)
        ensures
            r == self@.parent,
    {
        self.parent
    }

    pub fn set_first_child(&mut self, first_child: Option<usize>)
        ensures
            final(self)@ == (NodeModel { first_child, ..old(self)@ }),
    {
        self.first_child = first_child;
    }

    pub fn first_child(&self) -> (r: Option<usize>)
        ensures
            r == self@.first_child,
    {
        self.first_child
    }

    pub fn set_last_child(&mut self, last_child: Option<usize>)
        ensures
            final(self)@ == (NodeModel { last_child, ..old(self)@ }),
    {
        self.last_child = last_child;
    }

    pub fn last_child(&self) -> (r: Option<usize>)
        ensures
            r == self@.last_child,
    {
        self.last_child
    }

    pub fn set_previous_sibling(&mut self, previous_sibling: Option<usize>)
        ensures
            final(self)@ == (NodeModel { previous_sibling, ..old(self)@ }),
    {
        self.previous_sibling = previous_sibling;
    }

    pub fn previous_sibling(&self) -> (r: Option<usize>)
        ensures
            r == self@.previous_sibling,
    {
        self.previous_sibling
    }

    pub fn set_next_sibling(&mut self, next_sibling: Option<usize>)
        ensures
            final(self)@ == (NodeModel { next_sibling, ..old(self)@ }),
    {
        self.next_sibling = next_sibling;
    }

    pub fn next_sibling(&self) -> (r: Option<usize>)
        ensures
            r == self@.next_sibling,
    {
        self.next_sibling
    }

    /// A copy of the element, if the node is one.
    pub fn get_element(&self) -> (r: Option<Element>)
        ensures
            match self@.kind {
                NodeKindModel::Element(e) => r matches Some(x) && x@ == e,
                _ => r is None,
            },
    {
        match &self.kind {
            NodeKind::Element(element) => Some(element.duplicate()),
            _ => None,
        }
    }

    /// The kind of the element, if the node is one.
    pub fn get_element_kind(&self) -> (r: Option<ElementKind>)
        ensures
            r == element_kind_of(self@.kind),
    {
        match &self.kind {
            NodeKind::Element(e) => Some(e.kind()),
            _ => None,
        }
    }
}

/// The element kind of a node kind; `None` for the document and for text.
pub open spec fn element_kind_of(kind: NodeKindModel) -> Option<ElementKind> {
    match kind {
        NodeKindModel::Element(e) => Some(e.kind),
        _ => None,
    }
}


/// The document of one parse: its root node and everything below it.
#[derive(Debug, Clone)]
pub struct Window {
    nodes: Vec<Node>,
}

impl View for Window {
    type V = Seq<NodeModel>;

    closed spec fn view(&self) -> Seq<NodeModel> {
        self.nodes.deep_view()
    }
}

impl Window {
    /// The nodes form a tree under the document node.
    pub open spec fn wf(&self) -> bool {
        tree_wf(self@)
    }

    /// A document without children.
    pub fn new() -> (r: Window)
        ensures
            r.wf(),
            r@ == seq![NodeModel::lone(NodeKindModel::Document)],
    {
        let mut nodes: Vec<Node> = Vec::new();
        nodes.push(Node::new(NodeKind::Document));
        let r = Window { nodes };
        assert(r@ =~= seq![NodeModel::lone(NodeKindModel::Document)]);
        assert(node_wf(r@, 0));
        r
    }

    /// The index of the document node, the root of the tree.
    pub fn document(&self) -> (r: usize)
        ensures
            r == 0,
    {
        0
    }

    /// How many nodes the tree holds.
    pub fn len(&self) -> (r: usize)
        ensures
            r == self@.len(),
    {
        self.nodes.len()
    }

    /// The node at index `id`, if there is one.
    pub fn node(&self, id: usize) -> (r: Option<&Node>)
        ensures
            id < self@.len() ==> (r matches Some(n) && n@ == self@[id as int]),
            id >= self@.len() ==> r is None,
    {
        if id < self.nodes.len() {
            Some(&self.nodes[id])
        } else {
            None
        }
    }

    /// The element kind of the node `id`; `None` for the document and for
    /// text.
    pub(crate) fn element_kind_at(&self, id: usize) -> (r: Option<ElementKind>)
        requires
            id < self@.len(),
        ensures
            r == element_kind_of(self@[id as int].kind),
    {
        self.nodes[id].get_element_kind()
    }

    /// The last child of the node `id`, where that child is a text node.
    pub(crate) fn trailing_text_of(&self, id: usize) -> (r: Option<usize>)
        requires
            self.wf(),
            id < self@.len(),
        ensures
            match r {
                Some(l) => trails_text(self@, id) && self@[id as int].last_child == Some(l) && l
                    < self@.len(),
                None => !trails_text(self@, id),
            },
    {
        proof {
            assert(node_wf(self@, id as int));
        }
        match self.nodes[id].last_child() {
            Some(l) => match &self.nodes[l].kind {
                NodeKind::Text(_) => Some(l),
                _ => None,
            },
            None => None,
        }
    }

    /// Adds a node of kind `kind` as the last child of `parent`, and gives
    /// its index.
    pub(crate) fn append_child(&mut self, parent: usize, kind: NodeKind) -> (id: usize)
        requires
            old(self).wf(),
            old(self)@.len() < usize::MAX,
            parent < old(self)@.len(),
            !(old(self)@[parent as int].kind is Text),
            !(kind@ is Document),
            kind@ matches NodeKindModel::Text(text) ==> text.len() > 0 && !trails_text(
                old(self)@,
                parent,
            ),
        ensures
            final(self).wf(),
            final(self)@ == with_child(old(self)@, parent, kind@),
            id == old(self)@.len(),
    {
        let id = self.nodes.len();
        let last = self.nodes[parent].last_child();
        let mut child = Node::new(kind);
        child.set_parent(Some(parent));
        child.set_previous_sibling(last);
        proof {
            assert(node_wf(old(self)@, parent as int));
        }
        match last {
            Some(l) => {
                self.nodes[l].set_next_sibling(Some(id));
            },
            None => {
                self.nodes[parent].set_first_child(Some(id));
            },
        }
        self.nodes[parent].set_last_child(Some(id));
        self.nodes.push(child);
        proof {
            assert(self@ =~= with_child(old(self)@, parent, kind@));
            lemma_with_child(old(self)@, parent, kind@);
        }
        id
    }

    /// Appends `c` to the text of the node `id`; nothing changes where that
    /// node is no text node.
    pub(crate) fn append_text(&mut self, id: usize, c: char)
        requires
            old(self).wf(),
            id < old(self)@.len(),
        ensures
            final(self).wf(),
            final(self)@ == with_text(old(self)@, id, c),
    {
        match &mut self.nodes[id].kind {
            NodeKind::Text(s) => {
                s.push(c);
            },
            _ => {},
        }
        proof {
            assert(self@ =~= with_text(old(self)@, id, c));
            lemma_with_text(old(self)@, id, c);
        }
    }
}

} // verus!
