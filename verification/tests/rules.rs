use html_to_pulldown_cmark_events::event::{CodeBlockKind, HeadingLevel, LinkType, Tag};
use html_to_pulldown_cmark_events::rules::{
    address_pair, attribute, class_language, code_block_kind, has_class, heading_level, image_tag,
    inline_mark, link_tag, list_start, looks_below,
};

fn attrs(pairs: &[(&str, &str)]) -> Vec<(String, String)> {
    pairs.iter().map(|(name, value)| (name.to_string(), value.to_string())).collect()
}

fn classes(names: &[&str]) -> Vec<String> {
    names.iter().map(|name| name.to_string()).collect()
}

#[test]
fn heading_level_of_each_heading_name() {
    assert_eq!(heading_level("h1"), Some(HeadingLevel::H1));
    assert_eq!(heading_level("h2"), Some(HeadingLevel::H2));
    assert_eq!(heading_level("h3"), Some(HeadingLevel::H3));
    assert_eq!(heading_level("h4"), Some(HeadingLevel::H4));
    assert_eq!(heading_level("h5"), Some(HeadingLevel::H5));
    assert_eq!(heading_level("h6"), Some(HeadingLevel::H6));
}

#[test]
fn heading_level_of_other_names_is_none() {
    for name in ["", "h", "h0", "h7", "h9", "h10", "h1 ", "H1", "p", "1h", "hr", "\u{e9}1"] {
        assert_eq!(heading_level(name), None, "{:?}", name);
    }
}

#[test]
fn list_start_tells_ordered_from_unordered() {
    assert_eq!(list_start("ol"), Some(Some(1)));
    assert_eq!(list_start("ul"), Some(None));
    assert_eq!(list_start("li"), None);
    assert_eq!(list_start("o"), None);
    assert_eq!(list_start("OL"), None);
    assert_eq!(list_start(""), None);
}

#[test]
fn inline_mark_knows_three_names() {
    assert_eq!(inline_mark("strong"), Some(Tag::Strong));
    assert_eq!(inline_mark("em"), Some(Tag::Emphasis));
    assert_eq!(inline_mark("del"), Some(Tag::Strikethrough));
    for name in ["b", "i", "s", "a", "code", "span", "sub", "sup", "Strong", ""] {
        assert_eq!(inline_mark(name), None, "{:?}", name);
    }
}

#[test]
fn attribute_finds_the_first_with_the_name() {
    let list = attrs(&[("alt", "x"), ("src", "a.png"), ("src", "b.png")]);
    assert_eq!(attribute(&list, "src"), Some("a.png".to_string()));
    assert_eq!(attribute(&list, "alt"), Some("x".to_string()));
    assert_eq!(attribute(&list, "href"), None);
    assert_eq!(attribute(&list, "sr"), None);
    assert_eq!(attribute(&attrs(&[]), "src"), None);
    assert_eq!(attribute(&attrs(&[("src", "")]), "src"), Some(String::new()));
}

#[test]
fn address_pair_fills_in_the_missing_one() {
    let both = attrs(&[("href", "u"), ("title", "t")]);
    assert_eq!(address_pair(&both, "href", "title"), Some(("u".to_string(), "t".to_string())));
    let first = attrs(&[("href", "u")]);
    assert_eq!(address_pair(&first, "href", "title"), Some(("u".to_string(), String::new())));
    let second = attrs(&[("title", "t")]);
    assert_eq!(address_pair(&second, "href", "title"), Some((String::new(), "t".to_string())));
    let neither = attrs(&[("class", "c")]);
    assert_eq!(address_pair(&neither, "href", "title"), None);
}

#[test]
fn image_tag_reads_src_and_alt() {
    let inline = LinkType::Inline;
    assert_eq!(
        image_tag(&attrs(&[("src", "a.png")])),
        Some(Tag::Image(inline, "a.png".to_string(), String::new()))
    );
    assert_eq!(
        image_tag(&attrs(&[("alt", "x")])),
        Some(Tag::Image(inline, String::new(), "x".to_string()))
    );
    assert_eq!(
        image_tag(&attrs(&[("alt", "x"), ("height", "2"), ("src", "a.png")])),
        Some(Tag::Image(inline, "a.png".to_string(), "x".to_string()))
    );
    assert_eq!(image_tag(&attrs(&[("href", "u"), ("title", "t")])), None);
    assert_eq!(image_tag(&attrs(&[])), None);
}

#[test]
fn link_tag_reads_href_and_title() {
    let inline = LinkType::Inline;
    assert_eq!(
        link_tag(&attrs(&[("href", "u")])),
        Some(Tag::Link(inline, "u".to_string(), String::new()))
    );
    assert_eq!(
        link_tag(&attrs(&[("title", "t")])),
        Some(Tag::Link(inline, String::new(), "t".to_string()))
    );
    assert_eq!(
        link_tag(&attrs(&[("href", "u"), ("rel", "r"), ("title", "t")])),
        Some(Tag::Link(inline, "u".to_string(), "t".to_string()))
    );
    assert_eq!(link_tag(&attrs(&[("src", "u"), ("alt", "t")])), None);
    assert_eq!(link_tag(&attrs(&[])), None);
}

#[test]
fn class_language_takes_the_first_language_class() {
    assert_eq!(class_language(&classes(&["language-rust"])), Some("rust".to_string()));
    assert_eq!(
        class_language(&classes(&["hljs", "language-go", "language-rust"])),
        Some("go".to_string())
    );
    assert_eq!(class_language(&classes(&["language-"])), Some(String::new()));
    assert_eq!(class_language(&classes(&["language-c\u{a0}"])), Some("c".to_string()));
    assert_eq!(class_language(&classes(&["language-language-x"])), Some("language-x".to_string()));
}

#[test]
fn class_language_is_none_without_a_language_class() {
    assert_eq!(class_language(&classes(&[])), None);
    assert_eq!(class_language(&classes(&["highlight", "rust"])), None);
    assert_eq!(class_language(&classes(&["language"])), None);
    assert_eq!(class_language(&classes(&["lang-rust"])), None);
    assert_eq!(class_language(&classes(&["xlanguage-rust"])), None);
}

#[test]
fn has_class_wants_the_whole_name() {
    assert!(has_class(&classes(&["a", "highlight"]), "highlight"));
    assert!(!has_class(&classes(&["a", "highlighted"]), "highlight"));
    assert!(!has_class(&classes(&["high"]), "highlight"));
    assert!(!has_class(&classes(&[]), "highlight"));
}

#[test]
fn looks_below_only_under_highlight_without_language() {
    assert!(looks_below(&classes(&["highlight"])));
    assert!(looks_below(&classes(&["a", "highlight", "b"])));
    assert!(!looks_below(&classes(&["highlight", "language-rust"])));
    assert!(!looks_below(&classes(&["language-rust"])));
    assert!(!looks_below(&classes(&[])));
}

#[test]
fn code_block_kind_prefers_the_class() {
    let code = Some(attrs(&[("data-lang", "go")]));
    assert_eq!(
        code_block_kind(&classes(&["highlight", "language-rust"]), &code),
        CodeBlockKind::Fenced("rust".to_string())
    );
    assert_eq!(
        code_block_kind(&classes(&["language-rust"]), &None),
        CodeBlockKind::Fenced("rust".to_string())
    );
}

#[test]
fn code_block_kind_takes_data_lang_under_highlight() {
    let code = Some(attrs(&[("class", "x"), ("data-lang", "\t go \n")]));
    assert_eq!(
        code_block_kind(&classes(&["highlight"]), &code),
        CodeBlockKind::Fenced("go".to_string())
    );
    assert_eq!(
        code_block_kind(&classes(&["highlight"]), &Some(attrs(&[("data-lang", "")]))),
        CodeBlockKind::Fenced(String::new())
    );
}

#[test]
fn code_block_kind_is_indented_otherwise() {
    let code = Some(attrs(&[("data-lang", "go")]));
    assert_eq!(code_block_kind(&classes(&[]), &code), CodeBlockKind::Indented);
    assert_eq!(code_block_kind(&classes(&["other"]), &code), CodeBlockKind::Indented);
    assert_eq!(code_block_kind(&classes(&["highlight"]), &None), CodeBlockKind::Indented);
    assert_eq!(
        code_block_kind(&classes(&["highlight"]), &Some(attrs(&[("lang", "go")]))),
        CodeBlockKind::Indented
    );
    assert_eq!(code_block_kind(&classes(&[]), &None), CodeBlockKind::Indented);
}
