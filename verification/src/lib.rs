//! Turns an HTML fragment into a flat sequence of Markdown events.
//!
//! `parser` parses the fragment with `scraper` and walks the tree it gets: blocks at
//! the top and inside quotes, inline content inside headings, paragraphs and list
//! items. Elements that are not recognised are dropped with all they hold.
//!
//! `parser` asks for a text of at most `MAX_TEXT` characters, the most that the
//! outside parser is known to take; `try_parser` takes any text and tests its
//! length first.

use crate::dom::{parse_fragment, parsed_fragment, root_element};
use crate::event::{Event, EventView};
use crate::walk::{block_events, parse_block};
use vstd::prelude::*;
use vstd::string::*;

pub use crate::dom::MAX_TEXT;

pub mod dom;
pub mod event;
pub mod laws;
pub mod rules;
pub mod text;
pub mod walk;

verus! {

/// The number of levels below the root of a fragment that `parser` visits. What
/// lies deeper gives no events.
pub const MAX_DEPTH: usize = 256;

/// The events of a whole fragment.
pub open spec fn parser_events(raw: Seq<char>) -> Seq<EventView> {
    block_events(parsed_fragment(raw), MAX_DEPTH as nat)
}

/// Parses `raw` as a fragment of markup and appends its events to `events`. The
/// text has at most `MAX_TEXT` characters: the outside parser can panic on a
/// longer one.
pub fn parser(raw: &str, events: &mut Vec<Event>)
    requires
        raw@.len() <= MAX_TEXT,
    ensures
        final(events).deep_view() == old(events).deep_view() + parser_events(raw@),
{
    let html = parse_fragment(raw);
    let root = root_element(&html);
    parse_block(events, root, MAX_DEPTH);
}

/// Parses `raw` as a fragment of markup and appends its events to `events`, where
/// `raw` has at most `MAX_TEXT` characters. A longer text is not parsed: `events`
/// stays as it is and the result is `false`.
pub fn try_parser(raw: &str, events: &mut Vec<Event>) -> (parsed: bool)
    ensures
        parsed == (raw@.len() <= MAX_TEXT),
        parsed ==> final(events).deep_view() == old(events).deep_view() + parser_events(raw@),
        !parsed ==> *final(events) == *old(events),
{
    if raw.unicode_len() <= MAX_TEXT {
        parser(raw, events);
        true
    } else {
        false
    }
}

} // verus!
