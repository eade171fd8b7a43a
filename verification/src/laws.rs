//! What holds of the events of every tree.

use crate::dom::{DomTree, DomValue};
use crate::event::{EventView, HeadingLevel, TagView};
use crate::parser_events;
use crate::rules::spec_heading_level;
use crate::text::is_line_break;
use crate::walk::{
    block_events, block_node_events, block_run, code_events, image_events, inline_code_events,
    inline_events, inline_node_events, inline_run, inline_tag, item_child_events, item_events,
    item_run, items_run, list_events, nested_list, wrapped,
};
use vstd::prelude::*;

verus! {

/// The tags that are open after `events`, innermost last, where `open` were open
/// before them. `None` where an `End` comes that does not carry the tag of the
/// innermost open `Start`.
pub open spec fn open_after(open: Seq<TagView>, events: Seq<EventView>) -> Option<Seq<TagView>>
    decreases events.len(),
{
    if events.len() == 0 {
        Some(open)
    } else {
        match events[0] {
            EventView::Start(tag) => open_after(open.push(tag), events.drop_first()),
            EventView::End(tag) => if open.len() > 0 && open.last() == tag {
                open_after(open.drop_last(), events.drop_first())
            } else {
                None
            },
            _ => open_after(open, events.drop_first()),
        }
    }
}

/// Every `Start` in `events` is closed in `events` by an `End` with the same tag,
/// innermost first, and every `End` closes a `Start` of `events`: whatever was
/// open before is open after, and nothing else.
pub open spec fn balanced(events: Seq<EventView>) -> bool {
    forall|open: Seq<TagView>| #[trigger] open_after(open, events) == Some(open)
}

/// Reading `first + second` is reading `first`, then `second`.
pub proof fn lemma_open_after_concat(
    open: Seq<TagView>,
    first: Seq<EventView>,
    second: Seq<EventView>,
)
    ensures
        open_after(open, first + second) == match open_after(open, first) {
            Some(between) => open_after(between, second),
            None => None,
        },
    decreases first.len(),
{
    if first.len() == 0 {
        assert(first + second =~= second);
    } else {
        assert((first + second).drop_first() =~= first.drop_first() + second);
        assert((first + second)[0] == first[0]);
        match first[0] {
            EventView::Start(tag) => {
                lemma_open_after_concat(open.push(tag), first.drop_first(), second);
            },
            EventView::End(tag) => {
                if open.len() > 0 && open.last() == tag {
                    lemma_open_after_concat(open.drop_last(), first.drop_first(), second);
                }
            },
            _ => {
                lemma_open_after_concat(open, first.drop_first(), second);
            },
        }
    }
}

/// The empty sequence of events is balanced.
pub proof fn lemma_balanced_empty()
    ensures
        balanced(Seq::<EventView>::empty()),
{
}

/// One event that neither opens nor closes is balanced.
pub proof fn lemma_balanced_leaf(event: EventView)
    requires
        !(event is Start),
        !(event is End),
    ensures
        balanced(seq![event]),
{
    assert forall|open: Seq<TagView>| #[trigger] open_after(open, seq![event]) == Some(open) by {
        assert(seq![event].drop_first() =~= Seq::<EventView>::empty());
        assert(open_after(open, seq![event].drop_first()) == Some(open));
    }
}

/// Balanced events followed by balanced events are balanced.
pub proof fn lemma_balanced_concat(first: Seq<EventView>, second: Seq<EventView>)
    requires
        balanced(first),
        balanced(second),
    ensures
        balanced(first + second),
{
    assert forall|open: Seq<TagView>| #[trigger]
        open_after(open, first + second) == Some(open) by {
        lemma_open_after_concat(open, first, second);
        assert(open_after(open, first) == Some(open));
        assert(open_after(open, second) == Some(open));
    }
}

/// Balanced events between the `Start` and the `End` of one tag are balanced.
pub proof fn lemma_balanced_wrapped(tag: TagView, inside: Seq<EventView>)
    requires
        balanced(inside),
    ensures
        balanced(wrapped(tag, inside)),
{
    let start = seq![EventView::Start(tag)];
    let end = seq![EventView::End(tag)];
    assert forall|open: Seq<TagView>| #[trigger]
        open_after(open, wrapped(tag, inside)) == Some(open) by {
        let opened = open.push(tag);
        assert(start.drop_first() =~= Seq::<EventView>::empty());
        assert(end.drop_first() =~= Seq::<EventView>::empty());
        assert(open_after(opened, start.drop_first()) == Some(opened));
        assert(open_after(open, start) == Some(opened));
        assert(open_after(opened, inside) == Some(opened));
        assert(opened.drop_last() =~= open);
        assert(open_after(open, end.drop_first()) == Some(open));
        assert(open_after(opened, end) == Some(open));
        lemma_open_after_concat(open, start, inside);
        lemma_open_after_concat(open, start + inside, end);
    }
}

/// The event of inline code is balanced.
pub proof fn lemma_inline_code_balanced(code: DomTree, trimming: bool)
    ensures
        balanced(inline_code_events(code, trimming)),
{
    let events = inline_code_events(code, trimming);
    if events.len() > 0 {
        lemma_balanced_leaf(events[0]);
        assert(events =~= seq![events[0]]);
    }
}

/// The events of a code block are balanced.
pub proof fn lemma_code_balanced(pre: DomTree)
    ensures
        balanced(code_events(pre)),
{
    if pre.is_element() {
        let text = EventView::Text(crate::walk::text_content(pre));
        lemma_balanced_leaf(text);
        lemma_balanced_wrapped(TagView::CodeBlock(crate::walk::code_kind(pre)), seq![text]);
    }
}

/// The events of an image are balanced.
pub proof fn lemma_image_balanced(attrs: Seq<(Seq<char>, Seq<char>)>)
    ensures
        balanced(image_events(attrs)),
{
    match crate::rules::spec_image_tag(attrs) {
        Some(tag) => lemma_balanced_wrapped(tag, Seq::empty()),
        None => {},
    }
}

/// Inline content is balanced.
pub proof fn lemma_inline_balanced(parent: DomTree, trimming: bool, depth: nat)
    ensures
        balanced(inline_events(parent, trimming, depth)),
    decreases depth, 0int, 0nat,
{
    if depth > 0 {
        lemma_inline_run_balanced(
            parent.children,
            parent.children.len(),
            trimming,
            (depth - 1) as nat,
        );
    }
}

/// A run of inline nodes is balanced.
pub proof fn lemma_inline_run_balanced(nodes: Seq<DomTree>, n: nat, trimming: bool, depth: nat)
    ensures
        balanced(inline_run(nodes, n, trimming, depth)),
    decreases depth, 3int, n,
{
    if !(n == 0 || n > nodes.len()) {
        lemma_inline_run_balanced(nodes, (n - 1) as nat, trimming, depth);
        lemma_inline_node_balanced(nodes[n - 1], trimming, depth);
        lemma_balanced_concat(
            inline_run(nodes, (n - 1) as nat, trimming, depth),
            inline_node_events(nodes[n - 1], trimming, depth),
        );
    }
}

/// One inline node is balanced.
pub proof fn lemma_inline_node_balanced(node: DomTree, trimming: bool, depth: nat)
    ensures
        balanced(inline_node_events(node, trimming, depth)),
    decreases depth, 1int, 0nat,
{
    match node.value {
        DomValue::Element { name, .. } => {
            if name == "code"@ {
                lemma_inline_code_balanced(node, trimming);
            } else {
                match inline_tag(node) {
                    Some(tag) => {
                        lemma_inline_balanced(node, trimming, depth);
                        lemma_balanced_wrapped(tag, inline_events(node, trimming, depth));
                    },
                    None => {},
                }
            }
        },
        DomValue::Text { text } => {
            lemma_balanced_leaf(EventView::Text(text));
        },
        DomValue::Other => {},
    }
}

/// A list is balanced.
pub proof fn lemma_list_balanced(list: DomTree, start: Option<u64>, depth: nat)
    ensures
        balanced(list_events(list, start, depth)),
    decreases depth, 0int, 0nat,
{
    if depth == 0 {
        lemma_balanced_wrapped(TagView::List(start), Seq::empty());
    } else {
        lemma_items_run_balanced(list.children, list.children.len(), (depth - 1) as nat);
        lemma_balanced_wrapped(
            TagView::List(start),
            items_run(list.children, list.children.len(), (depth - 1) as nat),
        );
    }
}

/// The items of a list are balanced.
pub proof fn lemma_items_run_balanced(nodes: Seq<DomTree>, n: nat, depth: nat)
    ensures
        balanced(items_run(nodes, n, depth)),
    decreases depth, 3int, n,
{
    if !(n == 0 || n > nodes.len()) {
        lemma_items_run_balanced(nodes, (n - 1) as nat, depth);
        lemma_item_balanced(nodes[n - 1], depth);
        lemma_balanced_concat(
            items_run(nodes, (n - 1) as nat, depth),
            item_events(nodes[n - 1], depth),
        );
    }
}

/// One item is balanced.
pub proof fn lemma_item_balanced(node: DomTree, depth: nat)
    ensures
        balanced(item_events(node, depth)),
    decreases depth, 1int, 0nat,
{
    if node.is_named("li"@) {
        if depth == 0 {
            lemma_balanced_wrapped(TagView::Item, Seq::empty());
        } else {
            lemma_item_run_balanced(node.children, node.children.len(), (depth - 1) as nat);
            lemma_balanced_wrapped(
                TagView::Item,
                item_run(node.children, node.children.len(), (depth - 1) as nat),
            );
        }
    }
}

/// The children of an item are balanced.
pub proof fn lemma_item_run_balanced(nodes: Seq<DomTree>, n: nat, depth: nat)
    ensures
        balanced(item_run(nodes, n, depth)),
    decreases depth, 3int, n,
{
    if !(n == 0 || n > nodes.len()) {
        lemma_item_run_balanced(nodes, (n - 1) as nat, depth);
        lemma_item_child_balanced(nodes[n - 1], depth);
        lemma_balanced_concat(
            item_run(nodes, (n - 1) as nat, depth),
            item_child_events(nodes[n - 1], depth),
        );
    }
}

/// One child of an item is balanced.
pub proof fn lemma_item_child_balanced(node: DomTree, depth: nat)
    ensures
        balanced(item_child_events(node, depth)),
    decreases depth, 2int, 0nat,
{
    match nested_list(node) {
        Some(start) => lemma_list_balanced(node, start, depth),
        None => lemma_inline_node_balanced(node, true, depth),
    }
}

/// The blocks under a node are balanced: every `Start` is followed by the `End`
/// that carries the same tag, properly nested, and no `End` stands alone.
pub proof fn lemma_block_balanced(parent: DomTree, depth: nat)
    ensures
        balanced(block_events(parent, depth)),
    decreases depth, 0int, 0nat,
{
    if depth > 0 {
        lemma_block_run_balanced(parent.children, parent.children.len(), (depth - 1) as nat);
    }
}

/// A run of blocks is balanced.
pub proof fn lemma_block_run_balanced(nodes: Seq<DomTree>, n: nat, depth: nat)
    ensures
        balanced(block_run(nodes, n, depth)),
    decreases depth, 3int, n,
{
    if !(n == 0 || n > nodes.len()) {
        lemma_block_run_balanced(nodes, (n - 1) as nat, depth);
        lemma_block_node_balanced(nodes[n - 1], depth);
        lemma_balanced_concat(
            block_run(nodes, (n - 1) as nat, depth),
            block_node_events(nodes[n - 1], depth),
        );
    }
}

/// One block is balanced.
pub proof fn lemma_block_node_balanced(node: DomTree, depth: nat)
    ensures
        balanced(block_node_events(node, depth)),
    decreases depth, 1int, 0nat,
{
    match node.value {
        DomValue::Element { name, attrs, .. } => {
            if spec_heading_level(name) is Some {
                lemma_inline_balanced(node, false, depth);
                lemma_balanced_wrapped(
                    TagView::Heading(spec_heading_level(name)->0),
                    inline_events(node, false, depth),
                );
            } else if name == "p"@ {
                lemma_inline_balanced(node, false, depth);
                lemma_balanced_wrapped(TagView::Paragraph, inline_events(node, false, depth));
            } else if name == "img"@ {
                lemma_image_balanced(attrs);
            } else if name == "blockquote"@ {
                lemma_block_balanced(node, depth);
                lemma_balanced_wrapped(TagView::BlockQuote, block_events(node, depth));
            } else if crate::rules::spec_list_start(name) is Some {
                lemma_list_balanced(node, crate::rules::spec_list_start(name)->0, depth);
            } else if name == "br"@ {
                lemma_balanced_leaf(EventView::HardBreak);
            } else if name == "hr"@ {
                lemma_balanced_leaf(EventView::Rule);
            } else if name == "pre"@ {
                lemma_code_balanced(node);
            }
        },
        _ => {},
    }
}

/// The events of a fragment leave nothing open: read from the start, every `End`
/// carries the tag of the innermost open `Start`, and at the end none is open.
pub proof fn lemma_parser_events_balanced(raw: Seq<char>)
    ensures
        open_after(Seq::empty(), parser_events(raw)) == Some(Seq::<TagView>::empty()),
        balanced(parser_events(raw)),
{
    lemma_block_balanced(crate::dom::parsed_fragment(raw), crate::MAX_DEPTH as nat);
}

/// A heading element gives the `Start` of its level, its inline content and the
/// `End` of its level, and nothing else. With one text for a child, that is three
/// events.
pub proof fn lemma_heading_events(node: DomTree, level: HeadingLevel, depth: nat)
    requires
        node.value matches DomValue::Element { name, .. } && spec_heading_level(name) == Some(
            level,
        ),
    ensures
        block_node_events(node, depth) == wrapped(
            TagView::Heading(level),
            inline_events(node, false, depth),
        ),
        forall|text: Seq<char>|
            depth > 0 && node.children == seq![
                DomTree { value: DomValue::Text { text }, children: Seq::empty() },
            ] ==> block_node_events(node, depth) == seq![
                EventView::Start(TagView::Heading(level)),
                EventView::Text(text),
                EventView::End(TagView::Heading(level)),
            ],
{
    assert forall|text: Seq<char>|
        depth > 0 && node.children == seq![
            DomTree { value: DomValue::Text { text }, children: Seq::empty() },
        ] implies block_node_events(node, depth) == seq![
        EventView::Start(TagView::Heading(level)),
        EventView::Text(text),
        EventView::End(TagView::Heading(level)),
    ] by {
        let below = (depth - 1) as nat;
        assert(inline_run(node.children, 0, false, below) =~= Seq::<EventView>::empty());
        assert(inline_node_events(node.children[0], false, below) == seq![EventView::Text(text)]);
        assert(inline_run(node.children, 1, false, below) == inline_run(
            node.children,
            0,
            false,
            below,
        ) + inline_node_events(node.children[0], false, below));
        assert(inline_run(node.children, 1, false, below) =~= seq![EventView::Text(text)]);
        assert(wrapped(TagView::Heading(level), seq![EventView::Text(text)]) =~= seq![
            EventView::Start(TagView::Heading(level)),
            EventView::Text(text),
            EventView::End(TagView::Heading(level)),
        ]);
    }
}

/// A run of blocks over `first + second` is the run over `first`, then the run
/// over `second`.
pub proof fn lemma_block_run_concat(first: Seq<DomTree>, second: Seq<DomTree>, n: nat, depth: nat)
    requires
        n <= second.len(),
    ensures
        block_run(first + second, first.len() + n, depth) == block_run(first, first.len(), depth)
            + block_run(second, n, depth),
    decreases n,
{
    let all = first + second;
    if n == 0 {
        lemma_block_run_prefix(first, second, first.len(), depth);
        assert(block_run(first, first.len(), depth) + Seq::<EventView>::empty() =~= block_run(
            first,
            first.len(),
            depth,
        ));
    } else {
        lemma_block_run_concat(first, second, (n - 1) as nat, depth);
        assert(all[first.len() + n - 1] == second[n - 1]);
        assert((block_run(first, first.len(), depth) + block_run(second, (n - 1) as nat, depth))
            + block_node_events(second[n - 1], depth) =~= block_run(first, first.len(), depth) + (
        block_run(second, (n - 1) as nat, depth) + block_node_events(second[n - 1], depth)));
    }
}

/// A run of blocks over the first `n` nodes does not depend on what follows them.
pub proof fn lemma_block_run_prefix(first: Seq<DomTree>, second: Seq<DomTree>, n: nat, depth: nat)
    requires
        n <= first.len(),
    ensures
        block_run(first + second, n, depth) == block_run(first, n, depth),
    decreases n,
{
    if n > 0 {
        lemma_block_run_prefix(first, second, (n - 1) as nat, depth);
        assert((first + second)[n - 1] == first[n - 1]);
    }
}

/// The events of a run of blocks are those of the blocks before one of them, then
/// its own, then those of the blocks after it.
pub proof fn lemma_block_run_around(
    before: Seq<DomTree>,
    node: DomTree,
    after: Seq<DomTree>,
    depth: nat,
)
    ensures
        block_run(before + seq![node] + after, before.len() + 1 + after.len(), depth) == block_run(
            before,
            before.len(),
            depth,
        ) + block_node_events(node, depth) + block_run(after, after.len(), depth),
{
    let one = seq![node];
    lemma_block_run_concat(before + one, after, after.len(), depth);
    lemma_block_run_concat(before, one, 1, depth);
    assert(block_run(one, 0, depth) =~= Seq::<EventView>::empty());
    assert(block_run(one, 1, depth) == block_run(one, 0, depth) + block_node_events(one[0], depth));
    assert(block_run(one, 1, depth) =~= block_node_events(node, depth));
}

/// A heading with one text for a child, standing among the blocks under `parent`,
/// gives three events in the output, between those of the blocks before it and
/// those of the blocks after it: the `Start` of its level, the text, the `End` of
/// its level.
pub proof fn lemma_heading_among_blocks(
    parent: DomTree,
    before: Seq<DomTree>,
    node: DomTree,
    after: Seq<DomTree>,
    level: HeadingLevel,
    text: Seq<char>,
    depth: nat,
)
    requires
        depth >= 2,
        parent.children == before + seq![node] + after,
        node.value matches DomValue::Element { name, .. } && spec_heading_level(name) == Some(
            level,
        ),
        node.children == seq![DomTree { value: DomValue::Text { text }, children: Seq::empty() }],
    ensures
        block_events(parent, depth) == block_run(before, before.len(), (depth - 1) as nat) + seq![
            EventView::Start(TagView::Heading(level)),
            EventView::Text(text),
            EventView::End(TagView::Heading(level)),
        ] + block_run(after, after.len(), (depth - 1) as nat),
{
    lemma_block_run_around(before, node, after, (depth - 1) as nat);
    lemma_heading_events(node, level, (depth - 1) as nat);
}

/// A text node between blocks gives no events, a line feed with spaces after it
/// no more than any other: the blocks around it give what they give without it.
/// The same text inside inline content is kept, as one `Text`.
pub proof fn lemma_line_break_between_blocks(
    before: Seq<DomTree>,
    node: DomTree,
    after: Seq<DomTree>,
    trimming: bool,
    depth: nat,
)
    requires
        node.value matches DomValue::Text { text } && is_line_break(text),
    ensures
        block_node_events(node, depth) == Seq::<EventView>::empty(),
        block_run(before + seq![node] + after, before.len() + 1 + after.len(), depth) == block_run(
            before + after,
            before.len() + after.len(),
            depth,
        ),
        inline_node_events(node, trimming, depth) == seq![EventView::Text(node.value->text)],
{
    lemma_block_run_around(before, node, after, depth);
    lemma_block_run_concat(before, after, after.len(), depth);
    assert(block_run(before, before.len(), depth) + Seq::<EventView>::empty() =~= block_run(
        before,
        before.len(),
        depth,
    ));
}

/// The events of a fragment depend on its text alone: two outputs that were empty
/// before the same fragment was parsed into each are equal.
pub proof fn lemma_same_fragment_same_events(
    raw: Seq<char>,
    first: Seq<EventView>,
    second: Seq<EventView>,
)
    requires
        first == Seq::<EventView>::empty() + parser_events(raw),
        second == Seq::<EventView>::empty() + parser_events(raw),
    ensures
        first == second,
        first == parser_events(raw),
{
    assert(Seq::<EventView>::empty() + parser_events(raw) =~= parser_events(raw));
}

/// No node lies more than `depth` levels below the root of `tree`.
pub open spec fn fits(tree: DomTree, depth: nat) -> bool
    decreases depth,
{
    if depth == 0 {
        tree.children.len() == 0
    } else {
        forall|i: int|
            0 <= i < tree.children.len() ==> fits(#[trigger] tree.children[i], (depth - 1) as nat)
    }
}

/// Every one of `nodes` fits in `depth` levels.
pub open spec fn all_fit(nodes: Seq<DomTree>, depth: nat) -> bool {
    forall|i: int| 0 <= i < nodes.len() ==> fits(#[trigger] nodes[i], depth)
}

/// The children of a tree that fits in `depth` levels fit in one level less.
proof fn lemma_children_fit(tree: DomTree, depth: nat)
    requires
        fits(tree, depth),
        depth > 0,
    ensures
        all_fit(tree.children, (depth - 1) as nat),
{
}

/// Inline content that fits in `depth` levels is the same at any greater depth.
pub proof fn lemma_inline_depth(parent: DomTree, trimming: bool, depth: nat, more: nat)
    requires
        fits(parent, depth),
        depth <= more,
    ensures
        inline_events(parent, trimming, depth) == inline_events(parent, trimming, more),
    decreases depth, 0int, 0nat,
{
    if depth == 0 {
        if more > 0 {
            assert(inline_run(parent.children, 0, trimming, (more - 1) as nat) =~= Seq::<
                EventView,
            >::empty());
        }
    } else {
        lemma_children_fit(parent, depth);
        lemma_inline_run_depth(
            parent.children,
            parent.children.len(),
            trimming,
            (depth - 1) as nat,
            (more - 1) as nat,
        );
    }
}

/// A run of inline nodes that fit in `depth` levels is the same at any greater depth.
pub proof fn lemma_inline_run_depth(
    nodes: Seq<DomTree>,
    n: nat,
    trimming: bool,
    depth: nat,
    more: nat,
)
    requires
        all_fit(nodes, depth),
        depth <= more,
    ensures
        inline_run(nodes, n, trimming, depth) == inline_run(nodes, n, trimming, more),
    decreases depth, 3int, n,
{
    if !(n == 0 || n > nodes.len()) {
        lemma_inline_run_depth(nodes, (n - 1) as nat, trimming, depth, more);
        lemma_inline_node_depth(nodes[n - 1], trimming, depth, more);
    }
}

/// An inline node that fits in `depth` levels gives the same at any greater depth.
pub proof fn lemma_inline_node_depth(node: DomTree, trimming: bool, depth: nat, more: nat)
    requires
        fits(node, depth),
        depth <= more,
    ensures
        inline_node_events(node, trimming, depth) == inline_node_events(node, trimming, more),
    decreases depth, 1int, 0nat,
{
    lemma_inline_depth(node, trimming, depth, more);
}

/// A list that fits in `depth` levels gives the same at any greater depth.
pub proof fn lemma_list_depth(list: DomTree, start: Option<u64>, depth: nat, more: nat)
    requires
        fits(list, depth),
        depth <= more,
    ensures
        list_events(list, start, depth) == list_events(list, start, more),
    decreases depth, 0int, 0nat,
{
    if depth == 0 {
        if more > 0 {
            assert(items_run(list.children, 0, (more - 1) as nat) =~= Seq::<EventView>::empty());
        }
    } else {
        lemma_children_fit(list, depth);
        lemma_items_run_depth(
            list.children,
            list.children.len(),
            (depth - 1) as nat,
            (more - 1) as nat,
        );
    }
}

/// The items of a list that fit in `depth` levels give the same at any greater depth.
pub proof fn lemma_items_run_depth(nodes: Seq<DomTree>, n: nat, depth: nat, more: nat)
    requires
        all_fit(nodes, depth),
        depth <= more,
    ensures
        items_run(nodes, n, depth) == items_run(nodes, n, more),
    decreases depth, 3int, n,
{
    if !(n == 0 || n > nodes.len()) {
        lemma_items_run_depth(nodes, (n - 1) as nat, depth, more);
        lemma_item_depth(nodes[n - 1], depth, more);
    }
}

/// An item that fits in `depth` levels gives the same at any greater depth.
pub proof fn lemma_item_depth(node: DomTree, depth: nat, more: nat)
    requires
        fits(node, depth),
        depth <= more,
    ensures
        item_events(node, depth) == item_events(node, more),
    decreases depth, 1int, 0nat,
{
    if depth == 0 {
        if more > 0 {
            assert(item_run(node.children, 0, (more - 1) as nat) =~= Seq::<EventView>::empty());
        }
    } else {
        lemma_children_fit(node, depth);
        lemma_item_run_depth(
            node.children,
            node.children.len(),
            (depth - 1) as nat,
            (more - 1) as nat,
        );
    }
}

/// The children of an item that fit in `depth` levels give the same at any greater
/// depth.
pub proof fn lemma_item_run_depth(nodes: Seq<DomTree>, n: nat, depth: nat, more: nat)
    requires
        all_fit(nodes, depth),
        depth <= more,
    ensures
        item_run(nodes, n, depth) == item_run(nodes, n, more),
    decreases depth, 3int, n,
{
    if !(n == 0 || n > nodes.len()) {
        lemma_item_run_depth(nodes, (n - 1) as nat, depth, more);
        lemma_item_child_depth(nodes[n - 1], depth, more);
    }
}

/// A child of an item that fits in `depth` levels gives the same at any greater
/// depth.
pub proof fn lemma_item_child_depth(node: DomTree, depth: nat, more: nat)
    requires
        fits(node, depth),
        depth <= more,
    ensures
        item_child_events(node, depth) == item_child_events(node, more),
    decreases depth, 2int, 0nat,
{
    match nested_list(node) {
        Some(start) => lemma_list_depth(node, start, depth, more),
        None => lemma_inline_node_depth(node, true, depth, more),
    }
}

/// The limit on depth changes nothing for a tree that fits in it: the blocks under
/// a node of which nothing lies more than `depth` levels below are the same at any
/// greater depth.
pub proof fn lemma_block_depth(parent: DomTree, depth: nat, more: nat)
    requires
        fits(parent, depth),
        depth <= more,
    ensures
        block_events(parent, depth) == block_events(parent, more),
    decreases depth, 0int, 0nat,
{
    if depth == 0 {
        if more > 0 {
            assert(block_run(parent.children, 0, (more - 1) as nat) =~= Seq::<EventView>::empty());
        }
    } else {
        lemma_children_fit(parent, depth);
        lemma_block_run_depth(
            parent.children,
            parent.children.len(),
            (depth - 1) as nat,
            (more - 1) as nat,
        );
    }
}

/// A run of blocks that fit in `depth` levels is the same at any greater depth.
pub proof fn lemma_block_run_depth(nodes: Seq<DomTree>, n: nat, depth: nat, more: nat)
    requires
        all_fit(nodes, depth),
        depth <= more,
    ensures
        block_run(nodes, n, depth) == block_run(nodes, n, more),
    decreases depth, 3int, n,
{
    if !(n == 0 || n > nodes.len()) {
        lemma_block_run_depth(nodes, (n - 1) as nat, depth, more);
        lemma_block_node_depth(nodes[n - 1], depth, more);
    }
}

/// A block that fits in `depth` levels gives the same at any greater depth.
pub proof fn lemma_block_node_depth(node: DomTree, depth: nat, more: nat)
    requires
        fits(node, depth),
        depth <= more,
    ensures
        block_node_events(node, depth) == block_node_events(node, more),
    decreases depth, 1int, 0nat,
{
    match node.value {
        DomValue::Element { name, .. } => {
            if spec_heading_level(name) is Some || name == "p"@ {
                lemma_inline_depth(node, false, depth, more);
            } else if name == "img"@ {
            } else if name == "blockquote"@ {
                lemma_block_depth(node, depth, more);
            } else if crate::rules::spec_list_start(name) is Some {
                lemma_list_depth(node, crate::rules::spec_list_start(name)->0, depth, more);
            }
        },
        _ => {},
    }
}

/// The events of a fragment whose tree fits in the limit are those of a walk
/// without a limit: no greater limit would give other events.
pub proof fn lemma_parser_depth(raw: Seq<char>, more: nat)
    requires
        fits(crate::dom::parsed_fragment(raw), crate::MAX_DEPTH as nat),
        crate::MAX_DEPTH <= more,
    ensures
        parser_events(raw) == block_events(crate::dom::parsed_fragment(raw), more),
{
    lemma_block_depth(crate::dom::parsed_fragment(raw), crate::MAX_DEPTH as nat, more);
}

/// Whether an event opens or closes an image.
pub open spec fn of_image(event: EventView) -> bool {
    match event {
        EventView::Start(tag) => tag is Image,
        EventView::End(tag) => tag is Image,
        _ => false,
    }
}

/// Images are leaves: the `Start` of an image is directly followed by the `End`
/// with the same tag, and the `End` of an image directly follows the `Start` with
/// the same tag.
pub open spec fn images_closed_at_once(events: Seq<EventView>) -> bool {
    &&& forall|k: int|
        0 <= k < events.len() && (#[trigger] events[k] matches EventView::Start(tag) && tag is Image)
            ==> k + 1 < events.len() && events[k + 1] == EventView::End(events[k]->Start_0)
    &&& forall|k: int|
        0 <= k < events.len() && (#[trigger] events[k] matches EventView::End(tag) && tag is Image)
            ==> k >= 1 && events[k - 1] == EventView::Start(events[k]->End_0)
}

/// Events with their images closed at once, followed by such events, are such
/// events.
pub proof fn lemma_images_concat(first: Seq<EventView>, second: Seq<EventView>)
    requires
        images_closed_at_once(first),
        images_closed_at_once(second),
    ensures
        images_closed_at_once(first + second),
{
    let all = first + second;
    assert forall|k: int|
        0 <= k < all.len() && (#[trigger] all[k] matches EventView::Start(tag) && tag is Image)
        implies k + 1 < all.len() && all[k + 1] == EventView::End(all[k]->Start_0) by {
        if k < first.len() {
            assert(all[k] == first[k]);
            assert(all[k + 1] == first[k + 1]);
        } else {
            assert(all[k] == second[k - first.len()]);
            assert(all[k + 1] == second[k + 1 - first.len()]);
        }
    }
    assert forall|k: int|
        0 <= k < all.len() && (#[trigger] all[k] matches EventView::End(tag) && tag is Image)
        implies k >= 1 && all[k - 1] == EventView::Start(all[k]->End_0) by {
        if k < first.len() {
            assert(all[k] == first[k]);
            assert(all[k - 1] == first[k - 1]);
        } else {
            assert(all[k] == second[k - first.len()]);
            assert(all[k - 1] == second[k - 1 - first.len()]);
        }
    }
}

/// One event that belongs to no image has its images closed at once.
pub proof fn lemma_images_single(event: EventView)
    requires
        !of_image(event),
    ensures
        images_closed_at_once(seq![event]),
{
}

/// Events with their images closed at once, between the `Start` and the `End` of a
/// tag that is no image, are such events.
pub proof fn lemma_images_wrapped(tag: TagView, inside: Seq<EventView>)
    requires
        !(tag is Image),
        images_closed_at_once(inside),
    ensures
        images_closed_at_once(wrapped(tag, inside)),
{
    lemma_images_single(EventView::Start(tag));
    lemma_images_single(EventView::End(tag));
    lemma_images_concat(seq![EventView::Start(tag)], inside);
    lemma_images_concat(seq![EventView::Start(tag)] + inside, seq![EventView::End(tag)]);
}

/// The events of an `img` element are its `Start` and, directly after it, its `End`.
pub proof fn lemma_image_events(attrs: Seq<(Seq<char>, Seq<char>)>)
    ensures
        images_closed_at_once(image_events(attrs)),
        crate::rules::spec_image_tag(attrs) matches Some(tag) ==> image_events(attrs) == seq![
            EventView::Start(tag),
            EventView::End(tag),
        ],
{
    match crate::rules::spec_image_tag(attrs) {
        Some(tag) => {
            assert(wrapped(tag, Seq::empty()) =~= seq![EventView::Start(tag), EventView::End(tag)]);
        },
        None => {},
    }
}

/// Inline content holds no image.
pub proof fn lemma_inline_images(parent: DomTree, trimming: bool, depth: nat)
    ensures
        images_closed_at_once(inline_events(parent, trimming, depth)),
    decreases depth, 0int, 0nat,
{
    if depth > 0 {
        lemma_inline_run_images(
            parent.children,
            parent.children.len(),
            trimming,
            (depth - 1) as nat,
        );
    }
}

/// A run of inline nodes holds no image.
pub proof fn lemma_inline_run_images(nodes: Seq<DomTree>, n: nat, trimming: bool, depth: nat)
    ensures
        images_closed_at_once(inline_run(nodes, n, trimming, depth)),
    decreases depth, 3int, n,
{
    if !(n == 0 || n > nodes.len()) {
        lemma_inline_run_images(nodes, (n - 1) as nat, trimming, depth);
        lemma_inline_node_images(nodes[n - 1], trimming, depth);
        lemma_images_concat(
            inline_run(nodes, (n - 1) as nat, trimming, depth),
            inline_node_events(nodes[n - 1], trimming, depth),
        );
    }
}

/// One inline node holds no image.
pub proof fn lemma_inline_node_images(node: DomTree, trimming: bool, depth: nat)
    ensures
        images_closed_at_once(inline_node_events(node, trimming, depth)),
    decreases depth, 1int, 0nat,
{
    match node.value {
        DomValue::Element { name, .. } => {
            if name == "code"@ {
                let events = inline_code_events(node, trimming);
                if events.len() > 0 {
                    lemma_images_single(events[0]);
                    assert(events =~= seq![events[0]]);
                }
            } else {
                match inline_tag(node) {
                    Some(tag) => {
                        lemma_inline_images(node, trimming, depth);
                        lemma_images_wrapped(tag, inline_events(node, trimming, depth));
                    },
                    None => {},
                }
            }
        },
        DomValue::Text { text } => {
            lemma_images_single(EventView::Text(text));
        },
        DomValue::Other => {},
    }
}

/// A list has its images closed at once.
pub proof fn lemma_list_images(list: DomTree, start: Option<u64>, depth: nat)
    ensures
        images_closed_at_once(list_events(list, start, depth)),
    decreases depth, 0int, 0nat,
{
    if depth == 0 {
        lemma_images_wrapped(TagView::List(start), Seq::empty());
    } else {
        lemma_items_run_images(list.children, list.children.len(), (depth - 1) as nat);
        lemma_images_wrapped(
            TagView::List(start),
            items_run(list.children, list.children.len(), (depth - 1) as nat),
        );
    }
}

/// The items of a list have their images closed at once.
pub proof fn lemma_items_run_images(nodes: Seq<DomTree>, n: nat, depth: nat)
    ensures
        images_closed_at_once(items_run(nodes, n, depth)),
    decreases depth, 3int, n,
{
    if !(n == 0 || n > nodes.len()) {
        lemma_items_run_images(nodes, (n - 1) as nat, depth);
        lemma_item_images(nodes[n - 1], depth);
        lemma_images_concat(
            items_run(nodes, (n - 1) as nat, depth),
            item_events(nodes[n - 1], depth),
        );
    }
}

/// One item has its images closed at once.
pub proof fn lemma_item_images(node: DomTree, depth: nat)
    ensures
        images_closed_at_once(item_events(node, depth)),
    decreases depth, 1int, 0nat,
{
    if node.is_named("li"@) {
        if depth == 0 {
            lemma_images_wrapped(TagView::Item, Seq::empty());
        } else {
            lemma_item_run_images(node.children, node.children.len(), (depth - 1) as nat);
            lemma_images_wrapped(
                TagView::Item,
                item_run(node.children, node.children.len(), (depth - 1) as nat),
            );
        }
    }
}

/// The children of an item have their images closed at once.
pub proof fn lemma_item_run_images(nodes: Seq<DomTree>, n: nat, depth: nat)
    ensures
        images_closed_at_once(item_run(nodes, n, depth)),
    decreases depth, 3int, n,
{
    if !(n == 0 || n > nodes.len()) {
        lemma_item_run_images(nodes, (n - 1) as nat, depth);
        lemma_item_child_images(nodes[n - 1], depth);
        lemma_images_concat(
            item_run(nodes, (n - 1) as nat, depth),
            item_child_events(nodes[n - 1], depth),
        );
    }
}

/// One child of an item has its images closed at once.
pub proof fn lemma_item_child_images(node: DomTree, depth: nat)
    ensures
        images_closed_at_once(item_child_events(node, depth)),
    decreases depth, 2int, 0nat,
{
    match nested_list(node) {
        Some(start) => lemma_list_images(node, start, depth),
        None => lemma_inline_node_images(node, true, depth),
    }
}

/// In the blocks under a node every image is a leaf: its `Start` is directly
/// followed by its `End`, with nothing between them.
pub proof fn lemma_block_images(parent: DomTree, depth: nat)
    ensures
        images_closed_at_once(block_events(parent, depth)),
    decreases depth, 0int, 0nat,
{
    if depth > 0 {
        lemma_block_run_images(parent.children, parent.children.len(), (depth - 1) as nat);
    }
}

/// A run of blocks has its images closed at once.
pub proof fn lemma_block_run_images(nodes: Seq<DomTree>, n: nat, depth: nat)
    ensures
        images_closed_at_once(block_run(nodes, n, depth)),
    decreases depth, 3int, n,
{
    if !(n == 0 || n > nodes.len()) {
        lemma_block_run_images(nodes, (n - 1) as nat, depth);
        lemma_block_node_images(nodes[n - 1], depth);
        lemma_images_concat(
            block_run(nodes, (n - 1) as nat, depth),
            block_node_events(nodes[n - 1], depth),
        );
    }
}

/// One block has its images closed at once.
pub proof fn lemma_block_node_images(node: DomTree, depth: nat)
    ensures
        images_closed_at_once(block_node_events(node, depth)),
    decreases depth, 1int, 0nat,
{
    match node.value {
        DomValue::Element { name, attrs, .. } => {
            if spec_heading_level(name) is Some {
                lemma_inline_images(node, false, depth);
                lemma_images_wrapped(
                    TagView::Heading(spec_heading_level(name)->0),
                    inline_events(node, false, depth),
                );
            } else if name == "p"@ {
                lemma_inline_images(node, false, depth);
                lemma_images_wrapped(TagView::Paragraph, inline_events(node, false, depth));
            } else if name == "img"@ {
                lemma_image_events(attrs);
            } else if name == "blockquote"@ {
                lemma_block_images(node, depth);
                lemma_images_wrapped(TagView::BlockQuote, block_events(node, depth));
            } else if crate::rules::spec_list_start(name) is Some {
                lemma_list_images(node, crate::rules::spec_list_start(name)->0, depth);
            } else if name == "br"@ {
                lemma_images_single(EventView::HardBreak);
            } else if name == "hr"@ {
                lemma_images_single(EventView::Rule);
            } else if name == "pre"@ {
                if node.is_element() {
                    let text = EventView::Text(crate::walk::text_content(node));
                    lemma_images_single(text);
                    lemma_images_wrapped(
                        TagView::CodeBlock(crate::walk::code_kind(node)),
                        seq![text],
                    );
                }
            }
        },
        _ => {},
    }
}

/// In the events of a fragment every image is a leaf: its `Start` is directly
/// followed by its `End`, with nothing between them.
pub proof fn lemma_parser_events_images(raw: Seq<char>)
    ensures
        images_closed_at_once(parser_events(raw)),
{
    lemma_block_images(crate::dom::parsed_fragment(raw), crate::MAX_DEPTH as nat);
}

} // verus!
