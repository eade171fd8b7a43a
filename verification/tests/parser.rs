use html_to_pulldown_cmark_events::event::{CodeBlockKind, Event, HeadingLevel, LinkType, Tag};
use html_to_pulldown_cmark_events::{parser, try_parser, MAX_DEPTH, MAX_TEXT};

fn events_of(raw: &str) -> Vec<Event> {
    let mut events = Vec::new();
    parser(raw, &mut events);
    events
}

fn text(s: &str) -> Event {
    Event::Text(s.to_string())
}

fn pair(tag: Tag, mut inside: Vec<Event>) -> Vec<Event> {
    let mut out = vec![Event::Start(tag.clone())];
    out.append(&mut inside);
    out.push(Event::End(tag));
    out
}

/// Every `End` closes the `Start` that is open, with the same tag, and nothing stays open.
fn well_nested(events: &[Event]) -> bool {
    let mut open: Vec<&Tag> = Vec::new();
    for event in events {
        match event {
            Event::Start(tag) => open.push(tag),
            Event::End(tag) => {
                if open.pop() != Some(tag) {
                    return false;
                }
            }
            _ => {}
        }
    }
    open.is_empty()
}

#[test]
fn parse_simple() {
    let content = "<h1>Hello</h1>\n<p>A <strong>simple</strong> page with a \
                   <a href=\"https://example.org\" title=\"Example\">link</a>.</p>\n\
                   <ul>\n<li>one</li>\n<li>two</li>\n</ul>\n<hr>\n";

    let mut events = Vec::new();
    parser(content, &mut events);

    println!("{:?}", events);
    assert!(well_nested(&events));
    assert_eq!(events[0], Event::Start(Tag::Heading(HeadingLevel::H1)));
    assert_eq!(events[events.len() - 1], Event::Rule);
}

#[test]
fn parse_escape() {
    let content = "<p>Fish &amp; chips &lt;3 &quot;quoted&quot; &#39;single&#39; caf&eacute;</p>\n\
                   <p><code>a &lt; b &amp;&amp; c &gt; d</code></p>";

    let mut events = Vec::new();
    parser(content, &mut events);

    println!("{:?}", events);
    let mut expected = pair(Tag::Paragraph, vec![text("Fish & chips <3 \"quoted\" 'single' caf\u{e9}")]);
    expected.append(&mut pair(
        Tag::Paragraph,
        vec![Event::Code("a < b && c > d".to_string())],
    ));
    assert_eq!(events, expected);
}

#[test]
fn parse_blog_rust_lang() {
    let content = "<h2 id=\"whats-new\">What's in this release</h2>\n\
                   <p>The Rust team is happy to announce a new version of Rust. \
                   If you have a previous version installed via <code>rustup</code>, run:</p>\n\
                   <pre class=\"language-console\"><code>$ rustup update stable\n</code></pre>\n\
                   <blockquote>\n<p>See the <a href=\"/notes\">release notes</a>.</p>\n</blockquote>\n\
                   <ol><li>First<ul><li>Nested</li></ul></li><li>Second</li></ol>";

    let mut events = Vec::new();
    parser(content, &mut events);

    println!("{:?}", events);
    assert!(well_nested(&events));
    assert!(events.contains(&Event::Start(Tag::CodeBlock(CodeBlockKind::Fenced(
        "console".to_string()
    )))));
    assert!(events.contains(&text("$ rustup update stable\n")));
    assert!(events.contains(&Event::Start(Tag::Link(
        LinkType::Inline,
        "/notes".to_string(),
        String::new()
    ))));
    assert!(events.contains(&Event::Start(Tag::List(Some(1)))));
    assert!(events.contains(&Event::Start(Tag::List(None))));
}

#[test]
fn heading_gives_start_text_end() {
    let tag = Tag::Heading(HeadingLevel::H3);
    assert_eq!(events_of("<h3>Title</h3>"), pair(tag, vec![text("Title")]));
}

#[test]
fn heading_among_other_blocks_keeps_its_three_events() {
    let events = events_of("<p>before</p><h3>Title</h3><hr>");
    let mut expected = pair(Tag::Paragraph, vec![text("before")]);
    expected.append(&mut pair(Tag::Heading(HeadingLevel::H3), vec![text("Title")]));
    expected.push(Event::Rule);
    assert_eq!(events, expected);
}

#[test]
fn every_heading_level_is_read_off_its_name() {
    let levels = [
        HeadingLevel::H1,
        HeadingLevel::H2,
        HeadingLevel::H3,
        HeadingLevel::H4,
        HeadingLevel::H5,
        HeadingLevel::H6,
    ];
    for (i, level) in levels.iter().enumerate() {
        let raw = format!("<h{}>x</h{}>", i + 1, i + 1);
        assert_eq!(events_of(&raw), pair(Tag::Heading(*level), vec![text("x")]));
    }
}

#[test]
fn image_with_src_only_has_empty_alt() {
    let tag = Tag::Image(LinkType::Inline, "a.png".to_string(), String::new());
    assert_eq!(events_of("<img src=\"a.png\">"), pair(tag, vec![]));
}

#[test]
fn image_with_alt_only_has_empty_src() {
    let tag = Tag::Image(LinkType::Inline, String::new(), "x".to_string());
    assert_eq!(events_of("<img alt=\"x\">"), pair(tag, vec![]));
}

#[test]
fn image_with_both_attributes_keeps_each_in_its_place() {
    let tag = Tag::Image(LinkType::Inline, "a.png".to_string(), "x".to_string());
    assert_eq!(events_of("<img alt=\"x\" src=\"a.png\">"), pair(tag.clone(), vec![]));
    assert_eq!(events_of("<img src=\"a.png\" alt=\"x\">"), pair(tag, vec![]));
}

#[test]
fn image_without_attributes_gives_nothing() {
    assert_eq!(events_of("<img>"), vec![]);
    assert_eq!(events_of("<img width=\"3\">"), vec![]);
}

#[test]
fn pre_with_language_class_is_fenced() {
    let tag = Tag::CodeBlock(CodeBlockKind::Fenced("rust".to_string()));
    assert_eq!(
        events_of("<pre class=\"language-rust\">fn main() {}</pre>"),
        pair(tag, vec![text("fn main() {}")])
    );
}

#[test]
fn pre_with_highlight_class_takes_the_language_of_its_code() {
    let tag = Tag::CodeBlock(CodeBlockKind::Fenced("go".to_string()));
    assert_eq!(
        events_of("<pre class=\"highlight\"><code data-lang=\"go\">x</code></pre>"),
        pair(tag, vec![text("x")])
    );
}

#[test]
fn pre_with_highlight_class_trims_the_language() {
    let tag = Tag::CodeBlock(CodeBlockKind::Fenced("go".to_string()));
    assert_eq!(
        events_of("<pre class=\"highlight\"><span><code data-lang=\"  go \">x</code></span></pre>"),
        pair(tag, vec![text("x")])
    );
}

#[test]
fn pre_with_highlight_class_looks_at_the_first_code_only() {
    let tag = Tag::CodeBlock(CodeBlockKind::Indented);
    assert_eq!(
        events_of("<pre class=\"highlight\"><code>x</code><code data-lang=\"go\">y</code></pre>"),
        pair(tag, vec![text("xy")])
    );
}

#[test]
fn pre_language_class_wins_over_highlight() {
    let tag = Tag::CodeBlock(CodeBlockKind::Fenced("rust".to_string()));
    assert_eq!(
        events_of("<pre class=\"highlight language-rust\"><code data-lang=\"go\">x</code></pre>"),
        pair(tag, vec![text("x")])
    );
}

#[test]
fn pre_without_class_is_indented() {
    let tag = Tag::CodeBlock(CodeBlockKind::Indented);
    assert_eq!(events_of("<pre>plain</pre>"), pair(tag, vec![text("plain")]));
}

#[test]
fn pre_without_highlight_ignores_data_lang() {
    let tag = Tag::CodeBlock(CodeBlockKind::Indented);
    assert_eq!(
        events_of("<pre class=\"other\"><code data-lang=\"go\">x</code></pre>"),
        pair(tag, vec![text("x")])
    );
}

#[test]
fn pre_text_is_one_event_whatever_the_markup() {
    let tag = Tag::CodeBlock(CodeBlockKind::Indented);
    assert_eq!(
        events_of("<pre>a<code>b<span>c</span></code>d<!-- e --></pre>"),
        pair(tag, vec![text("abcd")])
    );
}

#[test]
fn nested_lists_come_inside_their_item() {
    let inner = pair(Tag::List(Some(1)), pair(Tag::Item, vec![text("B")]));
    let mut item = vec![text("A")];
    item.extend(inner);
    let expected = pair(Tag::List(None), pair(Tag::Item, item));
    assert_eq!(events_of("<ul><li>A<ol><li>B</li></ol></li></ul>"), expected);
}

#[test]
fn item_children_keep_document_order_around_a_nested_list() {
    let inner = pair(Tag::List(None), pair(Tag::Item, vec![text("B")]));
    let mut item = vec![text("A")];
    item.extend(inner);
    item.push(text("C"));
    let expected = pair(Tag::List(Some(1)), pair(Tag::Item, item));
    assert_eq!(events_of("<ol><li>A<ul><li>B</li></ul>C</li></ol>"), expected);
}

#[test]
fn list_ignores_children_that_are_no_items() {
    let expected = pair(Tag::List(None), pair(Tag::Item, vec![text("A")]));
    assert_eq!(events_of("<ul>stray<li>A</li><p>no</p></ul>"), expected);
}

#[test]
fn inline_code_is_trimmed_in_a_list_item_only() {
    let in_list = pair(
        Tag::List(None),
        pair(Tag::Item, vec![Event::Code("x".to_string())]),
    );
    assert_eq!(events_of("<ul><li><code>  x  </code></li></ul>"), in_list);
    let in_paragraph = pair(Tag::Paragraph, vec![Event::Code("  x  ".to_string())]);
    assert_eq!(events_of("<p><code>  x  </code></p>"), in_paragraph);
}

#[test]
fn inline_code_is_trimmed_below_an_item_too() {
    let expected = pair(
        Tag::List(None),
        pair(
            Tag::Item,
            pair(Tag::Strong, vec![Event::Code("x".to_string())]),
        ),
    );
    assert_eq!(
        events_of("<ul><li><strong><code> x </code></strong></li></ul>"),
        expected
    );
}

#[test]
fn inline_code_takes_its_first_child_only() {
    assert_eq!(
        events_of("<p><code>a<b>c</b>d</code></p>"),
        pair(Tag::Paragraph, vec![Event::Code("a".to_string())])
    );
    assert_eq!(
        events_of("<p><code><b>c</b>d</code></p>"),
        pair(Tag::Paragraph, vec![])
    );
    assert_eq!(events_of("<p><code></code></p>"), pair(Tag::Paragraph, vec![]));
}

#[test]
fn newline_between_blocks_gives_nothing() {
    let mut expected = pair(Tag::Paragraph, vec![text("a")]);
    expected.append(&mut pair(Tag::Paragraph, vec![text("b")]));
    assert_eq!(events_of("<p>a</p>\n<p>b</p>"), expected);
    assert_eq!(events_of("<p>a</p>\n   <p>b</p>"), expected);
}

#[test]
fn newline_between_inline_elements_is_kept() {
    let mut inside = pair(Tag::Emphasis, vec![text("a")]);
    inside.push(text("\n"));
    inside.append(&mut pair(Tag::Emphasis, vec![text("b")]));
    assert_eq!(
        events_of("<p><em>a</em>\n<em>b</em></p>"),
        pair(Tag::Paragraph, inside)
    );
}

#[test]
fn same_fragment_gives_same_events() {
    let raw = "<h2>T</h2><p>a <em>b</em> <a href=\"u\">c</a></p><ul><li>x</li></ul><pre>y</pre>";
    let first = events_of(raw);
    let second = events_of(raw);
    assert!(!first.is_empty());
    assert_eq!(first, second);
}

#[test]
fn parser_appends_and_keeps_what_was_there() {
    let mut events = vec![Event::Rule, text("kept")];
    parser("<br>", &mut events);
    assert_eq!(events, vec![Event::Rule, text("kept"), Event::HardBreak]);
}

#[test]
fn breaks_and_rules_are_leaves() {
    assert_eq!(events_of("<br><hr>"), vec![Event::HardBreak, Event::Rule]);
}

#[test]
fn blockquote_holds_blocks() {
    let mut inside = pair(Tag::Heading(HeadingLevel::H2), vec![text("T")]);
    inside.append(&mut pair(Tag::List(None), pair(Tag::Item, vec![text("x")])));
    assert_eq!(
        events_of("<blockquote><h2>T</h2><ul><li>x</li></ul></blockquote>"),
        pair(Tag::BlockQuote, inside)
    );
}

#[test]
fn blockquote_drops_bare_text() {
    assert_eq!(
        events_of("<blockquote>bare</blockquote>"),
        pair(Tag::BlockQuote, vec![])
    );
}

#[test]
fn unknown_blocks_are_dropped_with_all_they_hold() {
    assert_eq!(events_of("<div><p>inside</p></div>"), vec![]);
    assert_eq!(events_of("<table><tr><td>x</td></tr></table>"), vec![]);
    assert_eq!(events_of("bare text"), vec![]);
    assert_eq!(events_of("<!-- note -->"), vec![]);
    assert_eq!(events_of(""), vec![]);
}

#[test]
fn unknown_inline_elements_are_dropped_with_all_they_hold() {
    assert_eq!(
        events_of("<p>a<span>b<em>c</em></span>d</p>"),
        pair(Tag::Paragraph, vec![text("a"), text("d")])
    );
}

#[test]
fn block_names_are_no_blocks_inside_inline_content() {
    assert_eq!(
        events_of("<h1>a<br>b<img src=\"x\"></h1>"),
        pair(Tag::Heading(HeadingLevel::H1), vec![text("a"), text("b")])
    );
}

#[test]
fn links_carry_address_and_title() {
    let both = Tag::Link(LinkType::Inline, "u".to_string(), "t".to_string());
    assert_eq!(
        events_of("<p><a title=\"t\" href=\"u\">x</a></p>"),
        pair(Tag::Paragraph, pair(both, vec![text("x")]))
    );
    let href = Tag::Link(LinkType::Inline, "u".to_string(), String::new());
    assert_eq!(
        events_of("<p><a href=\"u\">x</a></p>"),
        pair(Tag::Paragraph, pair(href, vec![text("x")]))
    );
    let title = Tag::Link(LinkType::Inline, String::new(), "t".to_string());
    assert_eq!(
        events_of("<p><a title=\"t\">x</a></p>"),
        pair(Tag::Paragraph, pair(title, vec![text("x")]))
    );
}

#[test]
fn link_without_address_or_title_is_dropped_with_its_content() {
    assert_eq!(
        events_of("<p>a<a name=\"n\">x<em>y</em></a>b</p>"),
        pair(Tag::Paragraph, vec![text("a"), text("b")])
    );
}

#[test]
fn inline_marks_nest() {
    let inner = pair(Tag::Strikethrough, vec![text("z")]);
    let mut middle = vec![text("y")];
    middle.extend(inner);
    let mut outer = vec![text("x")];
    outer.extend(pair(Tag::Emphasis, middle));
    assert_eq!(
        events_of("<p><strong>x<em>y<del>z</del></em></strong></p>"),
        pair(Tag::Paragraph, pair(Tag::Strong, outer))
    );
}

#[test]
fn inline_text_is_not_collapsed() {
    assert_eq!(
        events_of("<p>  a \n\n b  </p>"),
        pair(Tag::Paragraph, vec![text("  a \n\n b  ")])
    );
}

#[test]
fn element_names_are_matched_exactly() {
    assert_eq!(events_of("<h7>x</h7>"), vec![]);
    assert_eq!(events_of("<h0>x</h0>"), vec![]);
    assert_eq!(events_of("<h>x</h>"), vec![]);
    assert_eq!(events_of("<h10>x</h10>"), vec![]);
}

#[test]
fn nesting_beyond_the_limit_is_cut_off() {
    let levels = MAX_DEPTH + 40;
    let mut raw = String::new();
    for _ in 0..levels {
        raw.push_str("<blockquote>");
    }
    raw.push_str("<p>deep</p>");
    for _ in 0..levels {
        raw.push_str("</blockquote>");
    }
    let events = events_of(&raw);
    let mut expected = Vec::new();
    for _ in 0..MAX_DEPTH {
        expected.push(Event::Start(Tag::BlockQuote));
    }
    for _ in 0..MAX_DEPTH {
        expected.push(Event::End(Tag::BlockQuote));
    }
    assert_eq!(events, expected);
}

#[test]
fn nesting_within_the_limit_is_walked_to_the_bottom() {
    let levels = MAX_DEPTH - 2;
    let mut raw = String::new();
    for _ in 0..levels {
        raw.push_str("<blockquote>");
    }
    raw.push_str("<p>deep</p>");
    for _ in 0..levels {
        raw.push_str("</blockquote>");
    }
    let events = events_of(&raw);
    assert_eq!(events.len(), 2 * levels + 3);
    assert_eq!(events[levels], Event::Start(Tag::Paragraph));
    assert_eq!(events[levels + 1], text("deep"));
    assert_eq!(events[levels + 2], Event::End(Tag::Paragraph));
    assert!(well_nested(&events));
}

#[test]
fn try_parser_parses_a_text_within_the_limit() {
    let mut events = vec![Event::Rule];
    assert!(try_parser("<h2>T</h2><br>", &mut events));
    let mut expected = vec![Event::Rule];
    expected.append(&mut pair(Tag::Heading(HeadingLevel::H2), vec![text("T")]));
    expected.push(Event::HardBreak);
    assert_eq!(events, expected);
}

#[test]
fn try_parser_gives_what_parser_gives() {
    let raw = "<p>a <em>b</em></p><ul><li>c</li></ul><pre class=\"language-x\">d</pre>";
    let mut tried = Vec::new();
    assert!(try_parser(raw, &mut tried));
    assert_eq!(tried, events_of(raw));
}

#[test]
fn try_parser_leaves_a_text_beyond_the_limit_alone() {
    let mut raw = String::from("<p>");
    raw.push_str(&"a".repeat(MAX_TEXT - 2));
    assert_eq!(raw.chars().count(), MAX_TEXT + 1);
    let mut events = vec![Event::Rule];
    assert!(!try_parser(&raw, &mut events));
    assert_eq!(events, vec![Event::Rule]);
}

#[test]
fn text_limit_counts_characters() {
    assert_eq!(MAX_TEXT, 1 << 28);
}

#[test]
fn nul_characters_become_replacement_characters() {
    let raw = format!("<p>a{}b</p>", "\u{0}".repeat(1000));
    let events = events_of(&raw);
    assert_eq!(events.len(), 3);
    match &events[1] {
        Event::Text(inside) => {
            assert!(inside.starts_with('a'));
            assert!(inside.ends_with('b'));
        }
        other => panic!("{:?}", other),
    }
    assert!(well_nested(&events));
}

#[test]
fn image_start_is_directly_followed_by_its_end() {
    let events = events_of(
        "<blockquote><img src=\"a\"><p>x</p><img alt=\"b\"></blockquote><img src=\"c\" alt=\"d\">",
    );
    let mut images = 0;
    for (i, event) in events.iter().enumerate() {
        if let Event::Start(tag @ Tag::Image(..)) = event {
            images += 1;
            assert_eq!(events[i + 1], Event::End(tag.clone()));
        }
        if let Event::End(tag @ Tag::Image(..)) = event {
            assert_eq!(events[i - 1], Event::Start(tag.clone()));
        }
    }
    assert_eq!(images, 3);
}
