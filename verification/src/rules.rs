//! What each recognised element means: the decisions that depend on a name, on
//! attributes or on classes alone.

use crate::event::{CodeBlockKind, CodeBlockKindView, HeadingLevel, LinkType, Tag, TagView};
use crate::text::{
    after_prefix, chars_of, same_text, strip_prefix, trim, trim_end, trimmed, trimmed_end,
};
use vstd::prelude::*;
use vstd::string::*;

verus! {

/// The number that an ASCII digit stands for; `None` for any other byte.
pub open spec fn digit_value(byte: u8) -> Option<usize> {
    if 48 <= byte <= 57 {
        Some((byte - 48) as usize)
    } else {
        None
    }
}

/// `atoi::ascii_to_digit`: the number that an ASCII digit stands for, `None` for
/// any other byte.
#[verifier::external_body]
pub(crate) fn ascii_digit(byte: u8) -> (digit: Option<usize>)
    ensures
        digit == digit_value(byte),
{
    atoi::ascii_to_digit::<usize>(byte)
}

/// `pulldown_cmark::HeadingLevel::try_from`: the heading level with the given
/// number, `None` for any number but 1 to 6.
#[verifier::external_body]
pub(crate) fn level_of_number(number: usize) -> (level: Option<HeadingLevel>)
    ensures
        level == HeadingLevel::of_number(number as nat),
{
    match pulldown_cmark::HeadingLevel::try_from(number) {
        Ok(pulldown_cmark::HeadingLevel::H1) => Some(HeadingLevel::H1),
        Ok(pulldown_cmark::HeadingLevel::H2) => Some(HeadingLevel::H2),
        Ok(pulldown_cmark::HeadingLevel::H3) => Some(HeadingLevel::H3),
        Ok(pulldown_cmark::HeadingLevel::H4) => Some(HeadingLevel::H4),
        Ok(pulldown_cmark::HeadingLevel::H5) => Some(HeadingLevel::H5),
        Ok(pulldown_cmark::HeadingLevel::H6) => Some(HeadingLevel::H6),
        Err(_) => None,
    }
}

/// The level of the heading element with the given name: the letter `h` and one
/// digit, which is the level where it is 1 to 6.
pub open spec fn spec_heading_level(name: Seq<char>) -> Option<HeadingLevel> {
    if name.len() == 2 && name[0] == 'h' && '0' <= name[1] <= '9' {
        HeadingLevel::of_number((name[1] as u32 - '0' as u32) as nat)
    } else {
        None
    }
}

/// The level of the heading element with the given name, read off the digit in the
/// name; `None` for any name but `h1` to `h6`.
pub fn heading_level(name: &str) -> (level: Option<HeadingLevel>)
    ensures
        level == spec_heading_level(name@),
{
    let chars = chars_of(name);
    if chars.len() != 2 || chars[0] != 'h' {
        return None;
    }
    let digit = name.get_char(1);
    if digit as u32 >= 128 {
        return None;
    }
    match ascii_digit(digit as u8) {
        Some(number) => level_of_number(number),
        None => None,
    }
}

/// Where a list starts, by the name of its element: an `ol` at 1, a `ul` nowhere;
/// `None` for any other name.
pub open spec fn spec_list_start(name: Seq<char>) -> Option<Option<u64>> {
    if name == "ol"@ {
        Some(Some(1u64))
    } else if name == "ul"@ {
        Some(None)
    } else {
        None
    }
}

/// Where a list starts, by the name of its element; `None` for a name that is
/// neither `ol` nor `ul`.
pub fn list_start(name: &str) -> (start: Option<Option<u64>>)
    ensures
        start == spec_list_start(name@),
{
    if same_text(name, "ol") {
        Some(Some(1))
    } else if same_text(name, "ul") {
        Some(None)
    } else {
        None
    }
}

/// The tag of an inline element that needs no attribute: `strong`, `em`, `del`.
pub open spec fn spec_inline_mark(name: Seq<char>) -> Option<TagView> {
    if name == "strong"@ {
        Some(TagView::Strong)
    } else if name == "em"@ {
        Some(TagView::Emphasis)
    } else if name == "del"@ {
        Some(TagView::Strikethrough)
    } else {
        None
    }
}

/// The tag of an inline element that needs no attribute; `None` for any name but
/// `strong`, `em` and `del`.
pub fn inline_mark(name: &str) -> (tag: Option<Tag>)
    ensures
        tag.deep_view() == spec_inline_mark(name@),
{
    if same_text(name, "strong") {
        Some(Tag::Strong)
    } else if same_text(name, "em") {
        Some(Tag::Emphasis)
    } else if same_text(name, "del") {
        Some(Tag::Strikethrough)
    } else {
        None
    }
}

/// The value of the first attribute with the given name.
pub open spec fn spec_attribute(attrs: Seq<(Seq<char>, Seq<char>)>, name: Seq<char>) -> Option<
    Seq<char>,
>
    decreases attrs.len(),
{
    if attrs.len() == 0 {
        None
    } else if attrs[0].0 == name {
        Some(attrs[0].1)
    } else {
        spec_attribute(attrs.drop_first(), name)
    }
}

/// The value of the first attribute with the given name; `None` where no attribute
/// has that name.
pub fn attribute(attrs: &Vec<(String, String)>, name: &str) -> (value: Option<String>)
    ensures
        value.deep_view() == spec_attribute(attrs.deep_view(), name@),
{
    let ghost all = attrs.deep_view();
    let mut i: usize = 0;
    assert(all.skip(0) =~= all);
    while i < attrs.len()
        invariant
            i <= attrs.len(),
            all == attrs.deep_view(),
            spec_attribute(all, name@) == spec_attribute(all.skip(i as int), name@),
        decreases attrs.len() - i,
    {
        assert(all.skip(i as int).drop_first() =~= all.skip(i + 1));
        assert(all.skip(i as int)[0] == all[i as int]);
        if same_text(attrs[i].0.as_str(), name) {
            return Some(attrs[i].1.clone());
        }
        i += 1;
    }
    None
}

/// A value, or the empty text in its place.
pub open spec fn or_empty(value: Option<Seq<char>>) -> Seq<char> {
    match value {
        Some(text) => text,
        None => Seq::empty(),
    }
}

/// The values of the attributes named `address` and `label`: `None` where the
/// element has neither, and the empty text for the one that is missing.
pub open spec fn spec_address_pair(
    attrs: Seq<(Seq<char>, Seq<char>)>,
    address: Seq<char>,
    label: Seq<char>,
) -> Option<(Seq<char>, Seq<char>)> {
    let first = spec_attribute(attrs, address);
    let second = spec_attribute(attrs, label);
    if first is None && second is None {
        None
    } else {
        Some((or_empty(first), or_empty(second)))
    }
}

/// The values of the attributes named `address` and `label`: `None` where the
/// element has neither, and the empty string for the one that is missing.
pub fn address_pair(attrs: &Vec<(String, String)>, address: &str, label: &str) -> (pair: Option<
    (String, String),
>)
    ensures
        pair.deep_view() == spec_address_pair(attrs.deep_view(), address@, label@),
{
    let first = attribute(attrs, address);
    let second = attribute(attrs, label);
    match (first, second) {
        (None, None) => None,
        (Some(a), None) => Some((a, String::new())),
        (None, Some(b)) => Some((String::new(), b)),
        (Some(a), Some(b)) => Some((a, b)),
    }
}

/// The tag of an `img` element: its `src` and its `alt`.
pub open spec fn spec_image_tag(attrs: Seq<(Seq<char>, Seq<char>)>) -> Option<TagView> {
    match spec_address_pair(attrs, "src"@, "alt"@) {
        Some((src, alt)) => Some(TagView::Image(LinkType::Inline, src, alt)),
        None => None,
    }
}

/// The tag of an `img` element; `None` where it has neither `src` nor `alt`.
pub fn image_tag(attrs: &Vec<(String, String)>) -> (tag: Option<Tag>)
    ensures
        tag.deep_view() == spec_image_tag(attrs.deep_view()),
{
    match address_pair(attrs, "src", "alt") {
        Some((src, alt)) => Some(Tag::Image(LinkType::Inline, src, alt)),
        None => None,
    }
}

/// The tag of an `a` element: its `href` and its `title`.
pub open spec fn spec_link_tag(attrs: Seq<(Seq<char>, Seq<char>)>) -> Option<TagView> {
    match spec_address_pair(attrs, "href"@, "title"@) {
        Some((href, title)) => Some(TagView::Link(LinkType::Inline, href, title)),
        None => None,
    }
}

/// The tag of an `a` element; `None` where it has neither `href` nor `title`.
pub fn link_tag(attrs: &Vec<(String, String)>) -> (tag: Option<Tag>)
    ensures
        tag.deep_view() == spec_link_tag(attrs.deep_view()),
{
    match address_pair(attrs, "href", "title") {
        Some((href, title)) => Some(Tag::Link(LinkType::Inline, href, title)),
        None => None,
    }
}

/// The language that the first class of the form `language-X` names: `X` without
/// the white space at its end.
pub open spec fn spec_class_language(classes: Seq<Seq<char>>) -> Option<Seq<char>>
    decreases classes.len(),
{
    if classes.len() == 0 {
        None
    } else {
        match strip_prefix(classes[0], "language-"@) {
            Some(language) => Some(trim_end(language)),
            None => spec_class_language(classes.drop_first()),
        }
    }
}

/// The language that the first class of the form `language-X` names; `None` where
/// no class has that form.
pub fn class_language(classes: &Vec<String>) -> (language: Option<String>)
    ensures
        language.deep_view() == spec_class_language(classes.deep_view()),
{
    let ghost all = classes.deep_view();
    let mut i: usize = 0;
    assert(all.skip(0) =~= all);
    while i < classes.len()
        invariant
            i <= classes.len(),
            all == classes.deep_view(),
            spec_class_language(all) == spec_class_language(all.skip(i as int)),
        decreases classes.len() - i,
    {
        assert(all.skip(i as int).drop_first() =~= all.skip(i + 1));
        assert(all.skip(i as int)[0] == all[i as int]);
        match after_prefix(classes[i].as_str(), "language-") {
            Some(language) => {
                return Some(trimmed_end(language.as_str()));
            },
            None => {},
        }
        i += 1;
    }
    None
}

/// Whether one of the classes is exactly `name`.
pub fn has_class(classes: &Vec<String>, name: &str) -> (found: bool)
    ensures
        found == classes.deep_view().contains(name@),
{
    let mut i: usize = 0;
    while i < classes.len()
        invariant
            i <= classes.len(),
            forall|k: int| 0 <= k < i ==> classes.deep_view()[k] != name@,
        decreases classes.len() - i,
    {
        if same_text(classes[i].as_str(), name) {
            assert(classes.deep_view()[i as int] == name@);
            return true;
        }
        i += 1;
    }
    false
}

/// Whether the kind of a code block depends on a `code` element below it: it does
/// where no class names a language and one class is `highlight`.
pub open spec fn spec_looks_below(classes: Seq<Seq<char>>) -> bool {
    spec_class_language(classes) is None && classes.contains("highlight"@)
}

/// Whether the kind of a code block depends on a `code` element below it.
pub fn looks_below(classes: &Vec<String>) -> (below: bool)
    ensures
        below == spec_looks_below(classes.deep_view()),
{
    class_language(classes).is_none() && has_class(classes, "highlight")
}

/// The kind of a code block, from the classes of its element and from the
/// attributes of the first `code` element below it, where there is one:
/// the language of a `language-X` class; else, under the class `highlight`, the
/// trimmed `data-lang` of that `code` element; else none.
pub open spec fn spec_code_block_kind(
    classes: Seq<Seq<char>>,
    code: Option<Seq<(Seq<char>, Seq<char>)>>,
) -> CodeBlockKindView {
    match spec_class_language(classes) {
        Some(language) => CodeBlockKindView::Fenced(language),
        None => match code {
            Some(attrs) if classes.contains("highlight"@) => match spec_attribute(
                attrs,
                "data-lang"@,
            ) {
                Some(language) => CodeBlockKindView::Fenced(trim(language)),
                None => CodeBlockKindView::Indented,
            },
            _ => CodeBlockKindView::Indented,
        },
    }
}

/// The kind of a code block, from the classes of its element and from the
/// attributes of the first `code` element below it, where there is one.
pub fn code_block_kind(classes: &Vec<String>, code: &Option<Vec<(String, String)>>) -> (kind:
    CodeBlockKind)
    ensures
        kind@ == spec_code_block_kind(classes.deep_view(), code.deep_view()),
{
    match class_language(classes) {
        Some(language) => CodeBlockKind::Fenced(language),
        None => {
            if has_class(classes, "highlight") {
                match code {
                    Some(attrs) => match attribute(attrs, "data-lang") {
                        Some(language) => CodeBlockKind::Fenced(trimmed(language.as_str())),
                        None => CodeBlockKind::Indented,
                    },
                    None => CodeBlockKind::Indented,
                }
            } else {
                CodeBlockKind::Indented
            }
        },
    }
}

} // verus!
