//! The Markdown event vocabulary that the walkers emit, and its mathematical view.

use vstd::prelude::*;

verus! {

/// The six heading levels.
#[derive(Clone, Copy, Debug, PartialEq, Eq)]
pub enum HeadingLevel {
    H1,
    H2,
    H3,
    H4,
    H5,
    H6,
}

impl HeadingLevel {
    /// The level with the given number, where there is one.
    pub open spec fn of_number(n: nat) -> Option<HeadingLevel> {
        if n == 1 {
            Some(HeadingLevel::H1)
        } else if n == 2 {
            Some(HeadingLevel::H2)
        } else if n == 3 {
            Some(HeadingLevel::H3)
        } else if n == 4 {
            Some(HeadingLevel::H4)
        } else if n == 5 {
            Some(HeadingLevel::H5)
        } else if n == 6 {
            Some(HeadingLevel::H6)
        } else {
            None
        }
    }
}

/// How a link or an image was written. Markup only ever gives inline ones.
#[derive(Clone, Copy, Debug, PartialEq, Eq)]
pub enum LinkType {
    Inline,
}

/// Whether a code block names its language.
#[derive(Debug, PartialEq, Eq)]
pub enum CodeBlockKind {
    /// No language is known.
    Indented,
    /// The block declares this language.
    Fenced(String),
}

/// The view of a [`CodeBlockKind`].
pub enum CodeBlockKindView {
    Indented,
    Fenced(Seq<char>),
}

impl View for CodeBlockKind {
    type V = CodeBlockKindView;

    open spec fn view(&self) -> CodeBlockKindView {
        match self {
            CodeBlockKind::Indented => CodeBlockKindView::Indented,
            CodeBlockKind::Fenced(language) => CodeBlockKindView::Fenced(language@),
        }
    }
}

impl DeepView for CodeBlockKind {
    type V = CodeBlockKindView;

    open spec fn deep_view(&self) -> CodeBlockKindView {
        self@
    }
}

impl Clone for CodeBlockKind {
    fn clone(&self) -> (copy: Self)
        ensures
            copy@ == self@,
    {
        match self {
            CodeBlockKind::Indented => CodeBlockKind::Indented,
            CodeBlockKind::Fenced(language) => CodeBlockKind::Fenced(language.clone()),
        }
    }
}

/// The structural element that a `Start` and its `End` carry.
#[derive(Debug, PartialEq, Eq)]
pub enum Tag {
    Heading(HeadingLevel),
    Paragraph,
    /// An image: link type, address, alternative text.
    Image(LinkType, String, String),
    BlockQuote,
    /// A list; ordered lists carry the number of their first item.
    List(Option<u64>),
    Item,
    /// A link: link type, address, title.
    Link(LinkType, String, String),
    Strong,
    Emphasis,
    Strikethrough,
    CodeBlock(CodeBlockKind),
}

/// The view of a [`Tag`].
pub enum TagView {
    Heading(HeadingLevel),
    Paragraph,
    Image(LinkType, Seq<char>, Seq<char>),
    BlockQuote,
    List(Option<u64>),
    Item,
    Link(LinkType, Seq<char>, Seq<char>),
    Strong,
    Emphasis,
    Strikethrough,
    CodeBlock(CodeBlockKindView),
}

impl View for Tag {
    type V = TagView;

    open spec fn view(&self) -> TagView {
        match self {
            Tag::Heading(level) => TagView::Heading(*level),
            Tag::Paragraph => TagView::Paragraph,
            Tag::Image(link, url, alt) => TagView::Image(*link, url@, alt@),
            Tag::BlockQuote => TagView::BlockQuote,
            Tag::List(start) => TagView::List(*start),
            Tag::Item => TagView::Item,
            Tag::Link(link, href, title) => TagView::Link(*link, href@, title@),
            Tag::Strong => TagView::Strong,
            Tag::Emphasis => TagView::Emphasis,
            Tag::Strikethrough => TagView::Strikethrough,
            Tag::CodeBlock(kind) => TagView::CodeBlock(kind@),
        }
    }
}

impl DeepView for Tag {
    type V = TagView;

    open spec fn deep_view(&self) -> TagView {
        self@
    }
}

impl Clone for Tag {
    fn clone(&self) -> (copy: Self)
        ensures
            copy@ == self@,
    {
        match self {
            Tag::Heading(level) => Tag::Heading(*level),
            Tag::Paragraph => Tag::Paragraph,
            Tag::Image(link, url, alt) => Tag::Image(*link, url.clone(), alt.clone()),
            Tag::BlockQuote => Tag::BlockQuote,
            Tag::List(start) => Tag::List(*start),
            Tag::Item => Tag::Item,
            Tag::Link(link, href, title) => Tag::Link(*link, href.clone(), title.clone()),
            Tag::Strong => Tag::Strong,
            Tag::Emphasis => Tag::Emphasis,
            Tag::Strikethrough => Tag::Strikethrough,
            Tag::CodeBlock(kind) => Tag::CodeBlock(kind.clone()),
        }
    }
}

/// One unit of the output stream.
#[derive(Debug, PartialEq, Eq)]
pub enum Event {
    Start(Tag),
    End(Tag),
    Text(String),
    /// Inline code.
    Code(String),
    HardBreak,
    Rule,
}

/// The view of an [`Event`].
pub enum EventView {
    Start(TagView),
    End(TagView),
    Text(Seq<char>),
    Code(Seq<char>),
    HardBreak,
    Rule,
}

impl View for Event {
    type V = EventView;

    open spec fn view(&self) -> EventView {
        match self {
            Event::Start(tag) => EventView::Start(tag@),
            Event::End(tag) => EventView::End(tag@),
            Event::Text(text) => EventView::Text(text@),
            Event::Code(text) => EventView::Code(text@),
            Event::HardBreak => EventView::HardBreak,
            Event::Rule => EventView::Rule,
        }
    }
}

impl DeepView for Event {
    type V = EventView;

    open spec fn deep_view(&self) -> EventView {
        self@
    }
}

impl Clone for Event {
    fn clone(&self) -> (copy: Self)
        ensures
            copy@ == self@,
    {
        match self {
            Event::Start(tag) => Event::Start(tag.clone()),
            Event::End(tag) => Event::End(tag.clone()),
            Event::Text(text) => Event::Text(text.clone()),
            Event::Code(text) => Event::Code(text.clone()),
            Event::HardBreak => Event::HardBreak,
            Event::Rule => Event::Rule,
        }
    }
}

/// Appends one event to the output.
pub fn emit(events: &mut Vec<Event>, event: Event)
    ensures
        final(events).deep_view() == old(events).deep_view().push(event@),
{
    events.push(event);
    assert(events.deep_view() =~= old(events).deep_view().push(event@));
}

/// Appends the `Start` of a tag, immediately followed by its `End`.
pub fn emit_pair(events: &mut Vec<Event>, tag: Tag)
    ensures
        final(events).deep_view() == old(events).deep_view().push(EventView::Start(tag@)).push(
            EventView::End(tag@),
        ),
{
    emit(events, Event::Start(tag.clone()));
    emit(events, Event::End(tag));
}

} // verus!
