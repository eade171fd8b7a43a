//! The parsed markup: a mathematical model of the node tree that `scraper` builds,
//! and the calls into `scraper` and `ego_tree` that read it.
//!
//! The functions marked `external_body` are not verified. Each makes one call and
//! states, over the model, what that call is taken to return.

use ego_tree::NodeRef;
use scraper::{ElementRef, Html, Node, Selector};
use vstd::prelude::*;

verus! {

/// `scraper::Html`: a parsed document. Nothing inside it is visible here.
#[verifier::external_type_specification]
#[verifier::external_body]
pub struct ExHtml(scraper::Html);

/// `scraper::Node`: what a node of a parsed document holds. Nothing inside it is
/// visible here.
#[verifier::external_type_specification]
#[verifier::external_body]
pub struct ExNode(scraper::Node);

/// `ego_tree::NodeRef`: a reference to one node of a tree. Nothing inside it is
/// visible here.
#[verifier::external_type_specification]
#[verifier::external_body]
#[verifier::reject_recursive_types(T)]
pub struct ExNodeRef<'a, T: 'a>(ego_tree::NodeRef<'a, T>);

/// What one node of the markup holds.
pub enum DomValue {
    /// An element: its local name, its attributes as pairs of local name and value,
    /// and its class names, each list in the order in which `scraper` hands it out.
    Element { name: Seq<char>, attrs: Seq<(Seq<char>, Seq<char>)>, classes: Seq<Seq<char>> },
    /// A run of text.
    Text { text: Seq<char> },
    /// Anything else: a comment, a doctype, a processing instruction, a root.
    Other,
}

/// A node together with everything below it, children in document order.
pub struct DomTree {
    pub value: DomValue,
    pub children: Seq<DomTree>,
}

/// The subtree that a node reference addresses. A tree that the parser built is
/// finite, and no node of it lies below itself.
pub uninterp spec fn subtree(node: NodeRef<'_, Node>) -> DomTree;

/// The subtree under the root element of a parsed document, where it has one.
pub uninterp spec fn html_root(html: Html) -> Option<DomTree>;

/// The subtree under the root element that parsing a text as a fragment gives.
pub uninterp spec fn parsed_fragment(raw: Seq<char>) -> DomTree;

impl DomTree {
    /// Whether the node is an element.
    pub open spec fn is_element(self) -> bool {
        self.value is Element
    }

    /// Whether the node is an element with the given local name.
    pub open spec fn is_named(self, name: Seq<char>) -> bool {
        self.value matches DomValue::Element { name: n, .. } && n == name
    }

    /// The element's local name; `None` for other nodes.
    pub open spec fn name(self) -> Option<Seq<char>> {
        match self.value {
            DomValue::Element { name, .. } => Some(name),
            _ => None,
        }
    }

    /// The text of a text node; `None` for other nodes.
    pub open spec fn text(self) -> Option<Seq<char>> {
        match self.value {
            DomValue::Text { text } => Some(text),
            _ => None,
        }
    }

    /// The element's attributes; empty for other nodes.
    pub open spec fn attrs(self) -> Seq<(Seq<char>, Seq<char>)> {
        match self.value {
            DomValue::Element { attrs, .. } => attrs,
            _ => Seq::empty(),
        }
    }

    /// The element's classes; empty for other nodes.
    pub open spec fn classes(self) -> Seq<Seq<char>> {
        match self.value {
            DomValue::Element { classes, .. } => classes,
            _ => Seq::empty(),
        }
    }
}

/// The texts of all text nodes of a subtree, the node itself included, in document order.
pub open spec fn text_pieces(tree: DomTree) -> Seq<Seq<char>>
    decreases tree, 1int, 0nat,
{
    let own = match tree.value {
        DomValue::Text { text } => seq![text],
        _ => Seq::empty(),
    };
    own + text_pieces_among(tree.children, tree.children.len())
}

/// The texts of all text nodes in the first `n` of `trees`, in document order.
pub open spec fn text_pieces_among(trees: Seq<DomTree>, n: nat) -> Seq<Seq<char>>
    decreases trees, 0int, n,
{
    if n == 0 || n > trees.len() {
        Seq::empty()
    } else {
        text_pieces_among(trees, (n - 1) as nat) + text_pieces(trees[n - 1])
    }
}

/// The first element with the given name in a subtree, the node itself included,
/// in document order.
pub open spec fn first_named_from(tree: DomTree, name: Seq<char>) -> Option<DomTree>
    decreases tree, 1int, 0nat,
{
    if tree.is_named(name) {
        Some(tree)
    } else {
        first_named_among(tree.children, tree.children.len(), name)
    }
}

/// The first element with the given name in the first `n` of `trees`, in document order.
pub open spec fn first_named_among(trees: Seq<DomTree>, n: nat, name: Seq<char>) -> Option<
    DomTree,
>
    decreases trees, 0int, n,
{
    if n == 0 || n > trees.len() {
        None
    } else {
        match first_named_among(trees, (n - 1) as nat, name) {
            Some(found) => Some(found),
            None => first_named_from(trees[n - 1], name),
        }
    }
}

/// The first element with the given name below a node, in document order.
pub open spec fn first_named(tree: DomTree, name: Seq<char>) -> Option<DomTree> {
    first_named_among(tree.children, tree.children.len(), name)
}

/// What `first_named_from` finds is an element with the name asked for.
pub proof fn lemma_first_named_from(tree: DomTree, name: Seq<char>)
    ensures
        first_named_from(tree, name) matches Some(found) ==> found.is_named(name),
    decreases tree, 1int, 0nat,
{
    if !tree.is_named(name) {
        lemma_first_named_among(tree.children, tree.children.len(), name);
    }
}

/// What `first_named_among` finds is an element with the name asked for.
pub proof fn lemma_first_named_among(trees: Seq<DomTree>, n: nat, name: Seq<char>)
    ensures
        first_named_among(trees, n, name) matches Some(found) ==> found.is_named(name),
    decreases trees, 0int, n,
{
    if !(n == 0 || n > trees.len()) {
        lemma_first_named_among(trees, (n - 1) as nat, name);
        lemma_first_named_from(trees[n - 1], name);
    }
}

/// A name made of the letters `a` to `z` only, and of at least one.
pub open spec fn is_plain_name(name: Seq<char>) -> bool {
    &&& name.len() > 0
    &&& forall|i: int| 0 <= i < name.len() ==> 'a' <= #[trigger] name[i] <= 'z'
}

/// The number of characters up to which a text can be parsed.
///
/// The parser keeps text in buffers whose length is a 32-bit number and whose
/// capacity grows in powers of two, and it panics where that arithmetic
/// overflows. It copies the text into one such buffer and builds the others (the
/// text of a node, an attribute's value, a name, a comment) from pieces of it. One
/// character of the text adds at most four bytes to any one buffer: its own
/// encoding, the three bytes of the replacement character that stands for a NUL,
/// or its share of what a character reference stands for. So with this limit no
/// buffer needs more than 2^30 bytes.
pub const MAX_TEXT: usize = 0x1000_0000;

/// `Html::parse_fragment`: parses a text as a fragment. The parser takes any text
/// of at most `MAX_TEXT` characters; a longer one can overflow the 32-bit lengths
/// of its buffers, on which it panics. The document it builds has a root element,
/// and which tree stands under it depends on the text alone.
#[verifier::external_body]
pub(crate) fn parse_fragment(raw: &str) -> (html: Html)
    requires
        raw@.len() <= MAX_TEXT,
    ensures
        html_root(html) == Some(parsed_fragment(raw@)),
{
    Html::parse_fragment(raw)
}

/// `Html::root_element`: the root element of a document. It panics where the
/// document has none.
#[verifier::external_body]
pub(crate) fn root_element<'a>(html: &'a Html) -> (root: NodeRef<'a, Node>)
    requires
        html_root(*html) is Some,
    ensures
        Some(subtree(root)) == html_root(*html),
{
    *html.root_element()
}

/// `NodeRef::children`: the children of a node, first to last.
#[verifier::external_body]
pub(crate) fn children<'a>(node: NodeRef<'a, Node>) -> (nodes: Vec<NodeRef<'a, Node>>)
    ensures
        nodes@.len() == subtree(node).children.len(),
        forall|i: int|
            0 <= i < nodes@.len() ==> subtree(#[trigger] nodes@[i]) == subtree(node).children[i],
{
    node.children().collect()
}

/// `NodeRef::first_child`: the first child of a node, where it has children.
#[verifier::external_body]
pub(crate) fn first_child<'a>(node: NodeRef<'a, Node>) -> (child: Option<NodeRef<'a, Node>>)
    ensures
        match child {
            Some(first) => subtree(node).children.len() > 0 && subtree(first) == subtree(
                node,
            ).children[0],
            None => subtree(node).children.len() == 0,
        },
{
    node.first_child()
}

/// `Node::as_element` and `Element::name`: the local name of an element node;
/// `None` for a node that is no element.
#[verifier::external_body]
pub(crate) fn element_name(node: NodeRef<'_, Node>) -> (name: Option<String>)
    ensures
        name.deep_view() == subtree(node).name(),
{
    node.value().as_element().map(|element| element.name().to_string())
}

/// `Node::as_text`: the text of a text node; `None` for a node that is no text.
#[verifier::external_body]
pub(crate) fn node_text(node: NodeRef<'_, Node>) -> (text: Option<String>)
    ensures
        text.deep_view() == subtree(node).text(),
{
    node.value().as_text().map(|text| text.to_string())
}

/// `Element::attrs`: the attributes of an element, each as local name and value,
/// in the order of the iterator. `None` for a node that is no element.
#[verifier::external_body]
pub(crate) fn attributes(node: NodeRef<'_, Node>) -> (attrs: Option<Vec<(String, String)>>)
    ensures
        attrs is Some == subtree(node).is_element(),
        attrs matches Some(list) ==> list.deep_view() == subtree(node).attrs(),
{
    node.value().as_element().map(
        |element| element.attrs().map(|(name, value)| (name.to_string(), value.to_string())).collect(),
    )
}

/// `Element::classes`: the class names of an element, in the order of the iterator.
/// `None` for a node that is no element.
#[verifier::external_body]
pub(crate) fn class_names(node: NodeRef<'_, Node>) -> (classes: Option<Vec<String>>)
    ensures
        classes is Some == subtree(node).is_element(),
        classes matches Some(list) ==> list.deep_view() == subtree(node).classes(),
{
    node.value().as_element().map(
        |element| element.classes().map(|class| class.to_string()).collect(),
    )
}

/// `ElementRef::text`: the texts of the text nodes below an element, in document
/// order. `None` for a node that is no element.
#[verifier::external_body]
pub(crate) fn descendant_text(node: NodeRef<'_, Node>) -> (pieces: Option<Vec<String>>)
    ensures
        pieces is Some == subtree(node).is_element(),
        pieces matches Some(list) ==> list.deep_view() == text_pieces(subtree(node)),
{
    ElementRef::wrap(node).map(|element| element.text().map(|piece| piece.to_string()).collect())
}

/// `Selector::parse` and `ElementRef::select`: the first element below `node`, in
/// document order, that the selector made of a plain name picks, which is the first
/// whose local name is that name. `None` where there is none, and for a node that
/// is no element.
#[verifier::external_body]
pub(crate) fn select_first<'a>(node: NodeRef<'a, Node>, name: &str) -> (found: Option<
    NodeRef<'a, Node>,
>)
    requires
        is_plain_name(name@),
    ensures
        match found {
            Some(element) => subtree(node).is_element() && first_named(subtree(node), name@)
                == Some(subtree(element)),
            None => !subtree(node).is_element() || first_named(subtree(node), name@) is None,
        },
{
    let selector = Selector::parse(name).ok()?;
    ElementRef::wrap(node)?.select(&selector).next().map(|element| *element)
}

} // verus!
