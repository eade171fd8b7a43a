//! The walkers: from a node of the markup to the events that stand for it.
//!
//! Each walker appends to the caller's output and never reads it. What it appends
//! depends on the subtree alone, and is defined here over the model of the tree.
//! A walker visits at most `depth` levels below the node it is given and emits
//! nothing for what lies deeper, so that markup nested without end cannot exhaust
//! the stack.

use crate::dom::{
    attributes, children, class_names, descendant_text, element_name, first_child, first_named,
    lemma_first_named_among, node_text, select_first, subtree, text_pieces, DomTree, DomValue,
};
use crate::event::{emit, emit_pair, CodeBlockKindView, Event, EventView, Tag, TagView};
use crate::rules::{
    code_block_kind, heading_level, image_tag, inline_mark, link_tag, list_start, looks_below,
    spec_code_block_kind, spec_heading_level, spec_image_tag, spec_inline_mark, spec_link_tag,
    spec_list_start,
};
use crate::text::{same_text, trim, trimmed};
use ego_tree::NodeRef;
use scraper::Node;
use vstd::prelude::*;
use vstd::string::*;

verus! {

/// The events of a paired element: the `Start` of its tag, what lies inside, the `End`
/// of the same tag.
pub open spec fn wrapped(tag: TagView, inside: Seq<EventView>) -> Seq<EventView> {
    seq![EventView::Start(tag)] + inside + seq![EventView::End(tag)]
}

/// The first `n` of `pieces`, one after the other.
pub open spec fn joined(pieces: Seq<Seq<char>>, n: nat) -> Seq<char>
    decreases n,
{
    if n == 0 || n > pieces.len() {
        Seq::empty()
    } else {
        joined(pieces, (n - 1) as nat) + pieces[n - 1]
    }
}

/// All the text below a node, in document order.
pub open spec fn text_content(tree: DomTree) -> Seq<char> {
    let pieces = text_pieces(tree);
    joined(pieces, pieces.len())
}

/// The kind of the code block that a `pre` element stands for.
pub open spec fn code_kind(pre: DomTree) -> CodeBlockKindView {
    spec_code_block_kind(
        pre.classes(),
        match first_named(pre, "code"@) {
            Some(code) => Some(code.attrs()),
            None => None,
        },
    )
}

/// The events of a code block: its tag around all its text as one `Text`. A node
/// that is no element gives none.
pub open spec fn code_events(pre: DomTree) -> Seq<EventView> {
    if pre.is_element() {
        wrapped(TagView::CodeBlock(code_kind(pre)), seq![EventView::Text(text_content(pre))])
    } else {
        Seq::empty()
    }
}

/// The event of an inline `code` element: the text of its first child, where that
/// is a text node.
pub open spec fn inline_code_events(code: DomTree, trimming: bool) -> Seq<EventView> {
    if code.children.len() > 0 {
        match code.children[0].value {
            DomValue::Text { text } => seq![
                EventView::Code(
                    if trimming {
                        trim(text)
                    } else {
                        text
                    },
                ),
            ],
            _ => Seq::empty(),
        }
    } else {
        Seq::empty()
    }
}

/// The tag of a paired inline element: a link with an address or a title, `strong`,
/// `em`, `del`.
pub open spec fn inline_tag(node: DomTree) -> Option<TagView> {
    match node.value {
        DomValue::Element { name, attrs, .. } => if name == "a"@ {
            spec_link_tag(attrs)
        } else {
            spec_inline_mark(name)
        },
        _ => None,
    }
}

/// The events of the children of `parent`, read as inline content.
pub open spec fn inline_events(parent: DomTree, trimming: bool, depth: nat) -> Seq<EventView>
    decreases depth, 0int, 0nat,
{
    if depth == 0 {
        Seq::empty()
    } else {
        inline_run(parent.children, parent.children.len(), trimming, (depth - 1) as nat)
    }
}

/// The events of the first `n` of `nodes`, each read as inline content.
pub open spec fn inline_run(nodes: Seq<DomTree>, n: nat, trimming: bool, depth: nat) -> Seq<
    EventView,
>
    decreases depth, 3int, n,
{
    if n == 0 || n > nodes.len() {
        Seq::empty()
    } else {
        inline_run(nodes, (n - 1) as nat, trimming, depth) + inline_node_events(
            nodes[n - 1],
            trimming,
            depth,
        )
    }
}

/// The events of one node read as inline content: a text as it stands, inline code
/// as one leaf, a paired element around its own inline content, anything else
/// nothing.
pub open spec fn inline_node_events(node: DomTree, trimming: bool, depth: nat) -> Seq<EventView>
    decreases depth, 1int, 0nat,
{
    match node.value {
        DomValue::Element { name, .. } => if name == "code"@ {
            inline_code_events(node, trimming)
        } else {
            match inline_tag(node) {
                Some(tag) => wrapped(tag, inline_events(node, trimming, depth)),
                None => Seq::empty(),
            }
        },
        DomValue::Text { text } => seq![EventView::Text(text)],
        DomValue::Other => Seq::empty(),
    }
}

/// The events of a list: its tag around the events of its items.
pub open spec fn list_events(list: DomTree, start: Option<u64>, depth: nat) -> Seq<EventView>
    decreases depth, 0int, 0nat,
{
    wrapped(
        TagView::List(start),
        if depth == 0 {
            Seq::empty()
        } else {
            items_run(list.children, list.children.len(), (depth - 1) as nat)
        },
    )
}

/// The events of the items among the first `n` children of a list.
pub open spec fn items_run(nodes: Seq<DomTree>, n: nat, depth: nat) -> Seq<EventView>
    decreases depth, 3int, n,
{
    if n == 0 || n > nodes.len() {
        Seq::empty()
    } else {
        items_run(nodes, (n - 1) as nat, depth) + item_events(nodes[n - 1], depth)
    }
}

/// The events of one child of a list: an `li` gives an item around what its
/// children give, anything else nothing.
pub open spec fn item_events(node: DomTree, depth: nat) -> Seq<EventView>
    decreases depth, 1int, 0nat,
{
    if node.is_named("li"@) {
        wrapped(
            TagView::Item,
            if depth == 0 {
                Seq::empty()
            } else {
                item_run(node.children, node.children.len(), (depth - 1) as nat)
            },
        )
    } else {
        Seq::empty()
    }
}

/// The events of the first `n` children of an item.
pub open spec fn item_run(nodes: Seq<DomTree>, n: nat, depth: nat) -> Seq<EventView>
    decreases depth, 3int, n,
{
    if n == 0 || n > nodes.len() {
        Seq::empty()
    } else {
        item_run(nodes, (n - 1) as nat, depth) + item_child_events(nodes[n - 1], depth)
    }
}

/// Where the list that a node stands for starts; `None` for a node that is no list.
pub open spec fn nested_list(node: DomTree) -> Option<Option<u64>> {
    match node.value {
        DomValue::Element { name, .. } => spec_list_start(name),
        _ => None,
    }
}

/// The events of one child of an item: a nested list as a list, anything else as
/// inline content with inline code trimmed.
pub open spec fn item_child_events(node: DomTree, depth: nat) -> Seq<EventView>
    decreases depth, 2int, 0nat,
{
    match nested_list(node) {
        Some(start) => list_events(node, start, depth),
        None => inline_node_events(node, true, depth),
    }
}

/// The events of the children of `parent`, read as blocks.
pub open spec fn block_events(parent: DomTree, depth: nat) -> Seq<EventView>
    decreases depth, 0int, 0nat,
{
    if depth == 0 {
        Seq::empty()
    } else {
        block_run(parent.children, parent.children.len(), (depth - 1) as nat)
    }
}

/// The events of the first `n` of `nodes`, each read as a block.
pub open spec fn block_run(nodes: Seq<DomTree>, n: nat, depth: nat) -> Seq<EventView>
    decreases depth, 3int, n,
{
    if n == 0 || n > nodes.len() {
        Seq::empty()
    } else {
        block_run(nodes, (n - 1) as nat, depth) + block_node_events(nodes[n - 1], depth)
    }
}

/// The events of an `img` element: its tag opened and closed at once, or nothing
/// where it has neither address nor alternative text.
pub open spec fn image_events(attrs: Seq<(Seq<char>, Seq<char>)>) -> Seq<EventView> {
    match spec_image_tag(attrs) {
        Some(tag) => wrapped(tag, Seq::empty()),
        None => Seq::empty(),
    }
}

/// The events of one node read as a block. Text and every node that is no element
/// give nothing, and so does an element with a name that is not listed here.
pub open spec fn block_node_events(node: DomTree, depth: nat) -> Seq<EventView>
    decreases depth, 1int, 0nat,
{
    match node.value {
        DomValue::Element { name, attrs, .. } => if spec_heading_level(name) is Some {
            wrapped(
                TagView::Heading(spec_heading_level(name)->0),
                inline_events(node, false, depth),
            )
        } else if name == "p"@ {
            wrapped(TagView::Paragraph, inline_events(node, false, depth))
        } else if name == "img"@ {
            image_events(attrs)
        } else if name == "blockquote"@ {
            wrapped(TagView::BlockQuote, block_events(node, depth))
        } else if spec_list_start(name) is Some {
            list_events(node, spec_list_start(name)->0, depth)
        } else if name == "br"@ {
            seq![EventView::HardBreak]
        } else if name == "hr"@ {
            seq![EventView::Rule]
        } else if name == "pre"@ {
            code_events(node)
        } else {
            Seq::empty()
        },
        _ => Seq::empty(),
    }
}

/// Appends `inside` between the `Start` and the `End` of `tag`, in three steps.
proof fn lemma_wrapped(before: Seq<EventView>, tag: TagView, inside: Seq<EventView>)
    ensures
        (before.push(EventView::Start(tag)) + inside).push(EventView::End(tag)) == before
            + wrapped(tag, inside),
{
    assert((before.push(EventView::Start(tag)) + inside).push(EventView::End(tag)) =~= before
        + wrapped(tag, inside));
}

/// The pieces of text, one after the other, as one string.
pub fn join_pieces(pieces: &Vec<String>) -> (text: String)
    ensures
        text@ == joined(pieces.deep_view(), pieces.len() as nat),
{
    let mut text = String::new();
    let mut i: usize = 0;
    while i < pieces.len()
        invariant
            i <= pieces.len(),
            text@ == joined(pieces.deep_view(), i as nat),
        decreases pieces.len() - i,
    {
        text.append(pieces[i].as_str());
        i += 1;
    }
    text
}

/// The code-block classifier: appends the events of the code block that the
/// element `node` stands for. Appends nothing where `node` is no element.
pub fn parse_code(events: &mut Vec<Event>, node: NodeRef<'_, Node>)
    ensures
        final(events).deep_view() == old(events).deep_view() + code_events(subtree(node)),
{
    let ghost before = events.deep_view();
    let ghost pre = subtree(node);
    match (class_names(node), descendant_text(node)) {
        (Some(classes), Some(pieces)) => {
            let text = join_pieces(&pieces);
            let code = if looks_below(&classes) {
                proof {
                    reveal_strlit("code");
                    lemma_first_named_among(pre.children, pre.children.len(), "code"@);
                }
                match select_first(node, "code") {
                    Some(element) => attributes(element),
                    None => None,
                }
            } else {
                None
            };
            let kind = code_block_kind(&classes, &code);
            assert(kind@ == code_kind(pre));
            let tag = Tag::CodeBlock(kind);
            emit(events, Event::Start(tag.clone()));
            emit(events, Event::Text(text));
            emit(events, Event::End(tag));
            proof {
                lemma_wrapped(before, tag@, seq![EventView::Text(text_content(pre))]);
                assert(before.push(EventView::Start(tag@)).push(EventView::Text(text@))
                    =~= before.push(EventView::Start(tag@)) + seq![
                    EventView::Text(text_content(pre)),
                ]);
            }
        },
        _ => {
            assert(before + Seq::<EventView>::empty() =~= before);
        },
    }
}

/// Appends the event of an inline `code` element: the text of its first child.
pub fn inline_code(events: &mut Vec<Event>, node: NodeRef<'_, Node>, trimming: bool)
    ensures
        final(events).deep_view() == old(events).deep_view() + inline_code_events(
            subtree(node),
            trimming,
        ),
{
    let ghost before = events.deep_view();
    let text = match first_child(node) {
        Some(first) => node_text(first),
        None => None,
    };
    match text {
        Some(text) => {
            let code = if trimming {
                trimmed(text.as_str())
            } else {
                text
            };
            emit(events, Event::Code(code));
            assert(events.deep_view() =~= before + inline_code_events(subtree(node), trimming));
        },
        None => {
            assert(before + Seq::<EventView>::empty() =~= before);
        },
    }
}

/// The inline walker: appends the events of the children of `parent`, read as
/// inline content, down to `depth` levels below `parent`. With `trimming`, the text
/// of inline code loses the white space at its ends.
pub fn parse_inline(
    events: &mut Vec<Event>,
    parent: NodeRef<'_, Node>,
    trimming: bool,
    depth: usize,
)
    ensures
        final(events).deep_view() == old(events).deep_view() + inline_events(
            subtree(parent),
            trimming,
            depth as nat,
        ),
    decreases depth, 0int,
{
    let ghost before = events.deep_view();
    assert(before + Seq::<EventView>::empty() =~= before);
    if depth == 0 {
        return ;
    }
    let nodes = children(parent);
    let ghost trees = subtree(parent).children;
    let mut i: usize = 0;
    while i < nodes.len()
        invariant
            depth > 0,
            i <= nodes.len(),
            nodes@.len() == trees.len(),
            forall|k: int| 0 <= k < nodes@.len() ==> subtree(#[trigger] nodes@[k]) == trees[k],
            events.deep_view() == before + inline_run(trees, i as nat, trimming, (depth - 1) as nat),
        decreases nodes.len() - i,
    {
        let ghost so_far = inline_run(trees, i as nat, trimming, (depth - 1) as nat);
        inline_node(events, nodes[i], trimming, depth - 1);
        assert((before + so_far) + inline_node_events(trees[i as int], trimming, (depth - 1) as nat)
            =~= before + (so_far + inline_node_events(
            trees[i as int],
            trimming,
            (depth - 1) as nat,
        )));
        i += 1;
    }
}

/// Appends the events of one node read as inline content, down to `depth` levels
/// below it.
pub fn inline_node(events: &mut Vec<Event>, node: NodeRef<'_, Node>, trimming: bool, depth: usize)
    ensures
        final(events).deep_view() == old(events).deep_view() + inline_node_events(
            subtree(node),
            trimming,
            depth as nat,
        ),
    decreases depth, 1int,
{
    let ghost before = events.deep_view();
    assert(before + Seq::<EventView>::empty() =~= before);
    match element_name(node) {
        Some(name) => {
            if same_text(name.as_str(), "code") {
                inline_code(events, node, trimming);
            } else {
                let tag = if same_text(name.as_str(), "a") {
                    match attributes(node) {
                        Some(attrs) => link_tag(&attrs),
                        None => None,
                    }
                } else {
                    inline_mark(name.as_str())
                };
                match tag {
                    Some(tag) => {
                        emit(events, Event::Start(tag.clone()));
                        parse_inline(events, node, trimming, depth);
                        emit(events, Event::End(tag));
                        proof {
                            lemma_wrapped(
                                before,
                                tag@,
                                inline_events(subtree(node), trimming, depth as nat),
                            );
                        }
                    },
                    None => {},
                }
            }
        },
        None => match node_text(node) {
            Some(text) => {
                emit(events, Event::Text(text));
                assert(events.deep_view() =~= before + seq![EventView::Text(text@)]);
            },
            None => {},
        },
    }
}

/// The list walker: appends the events of the list under `parent`, which starts
/// at `start` where it is ordered, down to `depth` levels below `parent`.
pub fn parse_list(
    events: &mut Vec<Event>,
    parent: NodeRef<'_, Node>,
    start: Option<u64>,
    depth: usize,
)
    ensures
        final(events).deep_view() == old(events).deep_view() + list_events(
            subtree(parent),
            start,
            depth as nat,
        ),
    decreases depth, 0int,
{
    let ghost before = events.deep_view();
    let tag = Tag::List(start);
    emit(events, Event::Start(tag.clone()));
    let ghost opened = events.deep_view();
    let ghost trees = subtree(parent).children;
    assert(opened + Seq::<EventView>::empty() =~= opened);
    if depth > 0 {
        let nodes = children(parent);
        let mut i: usize = 0;
        while i < nodes.len()
            invariant
                depth > 0,
                i <= nodes.len(),
                nodes@.len() == trees.len(),
                forall|k: int| 0 <= k < nodes@.len() ==> subtree(#[trigger] nodes@[k]) == trees[k],
                events.deep_view() == opened + items_run(trees, i as nat, (depth - 1) as nat),
            decreases nodes.len() - i,
        {
            let ghost so_far = items_run(trees, i as nat, (depth - 1) as nat);
            list_item(events, nodes[i], depth - 1);
            assert((opened + so_far) + item_events(trees[i as int], (depth - 1) as nat) =~= opened
                + (so_far + item_events(trees[i as int], (depth - 1) as nat)));
            i += 1;
        }
    }
    let ghost inside = if depth == 0 {
        Seq::<EventView>::empty()
    } else {
        items_run(trees, trees.len(), (depth - 1) as nat)
    };
    assert(events.deep_view() == opened + inside);
    emit(events, Event::End(tag));
    proof {
        lemma_wrapped(before, tag@, inside);
    }
}

/// Appends the events of one child of a list, down to `depth` levels below it: an
/// item for an `li`, nothing for anything else.
pub fn list_item(events: &mut Vec<Event>, node: NodeRef<'_, Node>, depth: usize)
    ensures
        final(events).deep_view() == old(events).deep_view() + item_events(
            subtree(node),
            depth as nat,
        ),
    decreases depth, 1int,
{
    let ghost before = events.deep_view();
    assert(before + Seq::<EventView>::empty() =~= before);
    let is_item = match element_name(node) {
        Some(name) => same_text(name.as_str(), "li"),
        None => false,
    };
    if !is_item {
        return ;
    }
    let tag = Tag::Item;
    emit(events, Event::Start(tag.clone()));
    let ghost opened = events.deep_view();
    let ghost trees = subtree(node).children;
    assert(opened + Seq::<EventView>::empty() =~= opened);
    if depth > 0 {
        let nodes = children(node);
        let mut i: usize = 0;
        while i < nodes.len()
            invariant
                depth > 0,
                i <= nodes.len(),
                nodes@.len() == trees.len(),
                forall|k: int| 0 <= k < nodes@.len() ==> subtree(#[trigger] nodes@[k]) == trees[k],
                events.deep_view() == opened + item_run(trees, i as nat, (depth - 1) as nat),
            decreases nodes.len() - i,
        {
            let ghost so_far = item_run(trees, i as nat, (depth - 1) as nat);
            item_child(events, nodes[i], depth - 1);
            assert((opened + so_far) + item_child_events(trees[i as int], (depth - 1) as nat)
                =~= opened + (so_far + item_child_events(trees[i as int], (depth - 1) as nat)));
            i += 1;
        }
    }
    let ghost inside = if depth == 0 {
        Seq::<EventView>::empty()
    } else {
        item_run(trees, trees.len(), (depth - 1) as nat)
    };
    assert(events.deep_view() == opened + inside);
    emit(events, Event::End(tag));
    proof {
        lemma_wrapped(before, tag@, inside);
    }
}

/// Appends the events of one child of an item, down to `depth` levels below it: a
/// nested list, or inline content.
pub fn item_child(events: &mut Vec<Event>, node: NodeRef<'_, Node>, depth: usize)
    ensures
        final(events).deep_view() == old(events).deep_view() + item_child_events(
            subtree(node),
            depth as nat,
        ),
    decreases depth, 2int,
{
    let nested = match element_name(node) {
        Some(name) => list_start(name.as_str()),
        None => None,
    };
    match nested {
        Some(start) => parse_list(events, node, start, depth),
        None => inline_node(events, node, true, depth),
    }
}

/// The block walker: appends the events of the children of `parent`, read as
/// blocks, in document order, down to `depth` levels below `parent`.
pub fn parse_block(events: &mut Vec<Event>, parent: NodeRef<'_, Node>, depth: usize)
    ensures
        final(events).deep_view() == old(events).deep_view() + block_events(
            subtree(parent),
            depth as nat,
        ),
    decreases depth, 0int,
{
    let ghost before = events.deep_view();
    assert(before + Seq::<EventView>::empty() =~= before);
    if depth == 0 {
        return ;
    }
    let nodes = children(parent);
    let ghost trees = subtree(parent).children;
    let mut i: usize = 0;
    while i < nodes.len()
        invariant
            depth > 0,
            i <= nodes.len(),
            nodes@.len() == trees.len(),
            forall|k: int| 0 <= k < nodes@.len() ==> subtree(#[trigger] nodes@[k]) == trees[k],
            events.deep_view() == before + block_run(trees, i as nat, (depth - 1) as nat),
        decreases nodes.len() - i,
    {
        let ghost so_far = block_run(trees, i as nat, (depth - 1) as nat);
        block_node(events, nodes[i], depth - 1);
        assert((before + so_far) + block_node_events(trees[i as int], (depth - 1) as nat)
            =~= before + (so_far + block_node_events(trees[i as int], (depth - 1) as nat)));
        i += 1;
    }
}

/// Appends the events of one node read as a block, down to `depth` levels below it.
pub fn block_node(events: &mut Vec<Event>, node: NodeRef<'_, Node>, depth: usize)
    ensures
        final(events).deep_view() == old(events).deep_view() + block_node_events(
            subtree(node),
            depth as nat,
        ),
    decreases depth, 1int,
{
    let ghost before = events.deep_view();
    assert(before + Seq::<EventView>::empty() =~= before);
    let name = match element_name(node) {
        Some(name) => name,
        None => {
            return ;
        },
    };
    let name = name.as_str();
    if let Some(level) = heading_level(name) {
        let tag = Tag::Heading(level);
        emit(events, Event::Start(tag.clone()));
        parse_inline(events, node, false, depth);
        emit(events, Event::End(tag));
        proof {
            lemma_wrapped(before, tag@, inline_events(subtree(node), false, depth as nat));
        }
    } else if same_text(name, "p") {
        let tag = Tag::Paragraph;
        emit(events, Event::Start(tag.clone()));
        parse_inline(events, node, false, depth);
        emit(events, Event::End(tag));
        proof {
            lemma_wrapped(before, tag@, inline_events(subtree(node), false, depth as nat));
        }
    } else if same_text(name, "img") {
        let tag = match attributes(node) {
            Some(attrs) => image_tag(&attrs),
            None => None,
        };
        match tag {
            Some(tag) => {
                emit_pair(events, tag);
                assert(events.deep_view() =~= before + wrapped(tag@, Seq::empty()));
            },
            None => {},
        }
    } else if same_text(name, "blockquote") {
        let tag = Tag::BlockQuote;
        emit(events, Event::Start(tag.clone()));
        parse_block(events, node, depth);
        emit(events, Event::End(tag));
        proof {
            lemma_wrapped(before, tag@, block_events(subtree(node), depth as nat));
        }
    } else if let Some(start) = list_start(name) {
        parse_list(events, node, start, depth);
    } else if same_text(name, "br") {
        emit(events, Event::HardBreak);
        assert(events.deep_view() =~= before + seq![EventView::HardBreak]);
    } else if same_text(name, "hr") {
        emit(events, Event::Rule);
        assert(events.deep_view() =~= before + seq![EventView::Rule]);
    } else if same_text(name, "pre") {
        parse_code(events, node);
    }
}

} // verus!
