use mdpretty::highlight::syntax_highlighter;
use mdpretty::layout::{get_bounds, prettify};
use mdpretty::node::{ListItem, Node};
use mdpretty::render::render_node;
use mdpretty::style::StyleConfig;

fn plain() -> StyleConfig {
    colored::control::set_override(false);
    StyleConfig::bare(false, false, false)
}

fn text(value: &str) -> Node {
    Node::Text { value: value.to_string() }
}

fn para(value: &str) -> Node {
    Node::Paragraph { children: vec![text(value)] }
}

fn render(node: &Node, depth: usize, cfg: &StyleConfig) -> Option<String> {
    render_node(node, depth, cfg).map(|v| v.iter().collect())
}

/// Remove every complete `ESC [ ... m` sequence.
fn strip_esc(s: &str) -> String {
    let v: Vec<char> = s.chars().collect();
    let mut out = String::new();
    let mut i = 0;
    while i < v.len() {
        if v[i] == '\u{1b}' && i + 1 < v.len() && v[i + 1] == '[' {
            let mut j = i + 2;
            let mut found = None;
            while j < v.len() {
                if v[j] == 'm' {
                    found = Some(j);
                    break;
                }
                j += 1;
            }
            if let Some(j) = found {
                i = j + 1;
                continue;
            }
        }
        out.push(v[i]);
        i += 1;
    }
    out
}

#[test]
fn paragraph_of_plain_text_wraps_in_newlines() {
    let cfg = plain();
    let out = render(&para("hello world"), 0, &cfg).unwrap();
    assert_eq!(out, "\nhello world\n");
}

#[test]
fn paragraph_indents_by_depth() {
    let cfg = plain();
    let out = render(&para("hi"), 2, &cfg).unwrap();
    assert_eq!(strip_esc(&out), "\n  hi\n");
}

#[test]
fn strikethrough_marks_each_span_character() {
    let cfg = plain();
    let out = render(&text("a ~~bc~~ d"), 0, &cfg).unwrap();
    assert_eq!(out, "a b\u{336}c\u{336} d");
}

#[test]
fn unmatched_strike_delimiters_stay_literal() {
    let cfg = plain();
    let out = render(&text("a ~~bc d"), 0, &cfg).unwrap();
    assert_eq!(out, "a ~~bc d");
}

#[test]
fn heading_level_zero_renders_unstyled() {
    let cfg = plain();
    let heading = Node::Heading { level: 0, children: vec![text("title")] };
    assert_eq!(render(&heading, 0, &cfg).unwrap(), "\ntitle\n");
}

#[test]
fn heading_level_seven_renders_unstyled() {
    let cfg = plain();
    let heading = Node::Heading { level: 7, children: vec![text("title")] };
    assert_eq!(render(&heading, 0, &cfg).unwrap(), "\ntitle\n");
}

#[test]
fn heading_level_two_carries_two_block_glyphs() {
    let cfg = plain();
    let heading = Node::Heading { level: 2, children: vec![text("title")] };
    assert_eq!(strip_esc(&render(&heading, 0, &cfg).unwrap()), "\n██ title\n");
}

#[test]
fn thematic_break_is_a_dash_rule() {
    let cfg = plain();
    assert_eq!(render(&Node::ThematicBreak, 0, &cfg).unwrap(), "\n---\n");
}

#[test]
fn unsupported_node_yields_no_output() {
    let cfg = plain();
    assert!(render(&Node::Other, 0, &cfg).is_none());
}

#[test]
fn link_with_http_url_appends_the_url_suffix() {
    let cfg = plain();
    let link = Node::Link { url: "http://example.com".to_string(), children: vec![text("here")] };
    assert_eq!(strip_esc(&render(&link, 0, &cfg).unwrap()), "here :(http://example.com)");
}

#[test]
fn link_without_http_has_no_suffix() {
    let cfg = plain();
    let link = Node::Link { url: "mailto:a@b".to_string(), children: vec![text("here")] };
    assert_eq!(strip_esc(&render(&link, 0, &cfg).unwrap()), "here");
}

fn item(value: &str) -> ListItem {
    ListItem { children: vec![para(value)] }
}

#[test]
fn ordered_list_numbers_from_start_in_document_order() {
    let cfg = plain();
    let list = Node::List {
        ordered: true,
        start: Some(5),
        items: vec![item("one"), item("two"), item("three")],
    };
    let out = render(&list, 0, &cfg).unwrap();
    assert_eq!(strip_esc(&out), "\n 5. one\n 6. two\n 7. three\n\n");
}

#[test]
fn ordered_list_without_start_numbers_from_one() {
    let cfg = plain();
    let list = Node::List { ordered: true, start: None, items: vec![item("a"), item("b")] };
    assert_eq!(strip_esc(&render(&list, 0, &cfg).unwrap()), "\n 1. a\n 2. b\n\n");
}

#[test]
fn unordered_bullet_cycles_with_depth() {
    let cfg = plain();
    let glyphs = ['•', '·', '*', '-', '•'];
    for (depth, glyph) in glyphs.iter().enumerate() {
        let list = Node::List { ordered: false, start: None, items: vec![item("x")] };
        let out = strip_esc(&render(&list, depth, &cfg).unwrap());
        let expected = format!("\n{} {} x\n\n", " ".repeat(2 * depth), glyph);
        assert_eq!(out, expected, "depth {}", depth);
    }
}

#[test]
fn inline_code_keeps_its_text() {
    let cfg = plain();
    let code = Node::InlineCode { value: "x + 1".to_string() };
    assert_eq!(strip_esc(&render(&code, 0, &cfg).unwrap()), "x + 1");
}

#[test]
fn fenced_code_without_highlighting_is_plain() {
    let mut cfg = plain();
    cfg.syntax_highlighting = false;
    let code = Node::FencedCode { lang: None, value: "let x = 1;".to_string() };
    assert_eq!(strip_esc(&render(&code, 0, &cfg).unwrap()), "\nlet x = 1;\n\n");
}

#[test]
fn fenced_code_highlighted_keeps_visible_text() {
    let cfg = plain();
    let code = Node::FencedCode { lang: Some("rs".to_string()), value: "let x = 1;".to_string() };
    assert_eq!(strip_esc(&render(&code, 0, &cfg).unwrap()), "\nlet x = 1;\n\n");
}

#[test]
fn highlighter_keeps_the_code_characters() {
    let out = syntax_highlighter("rs", "let x = 1;".to_string(), "base16-ocean.dark".to_string(), true);
    assert_eq!(strip_esc(&out), "let x = 1;");
}

#[test]
fn highlighter_expands_tabs_to_four_spaces() {
    let out = syntax_highlighter("txt", "a\tb".to_string(), "base16-ocean.dark".to_string(), false);
    assert_eq!(strip_esc(&out), "a    b");
}

#[test]
fn highlighter_survives_unknown_language_and_theme() {
    let out = syntax_highlighter("nosuchlang", "hello".to_string(), "no-such-theme".to_string(), false);
    assert_eq!(strip_esc(&out), "hello");
}

#[test]
fn blockquote_indents_its_paragraph() {
    let cfg = plain();
    let quote = Node::BlockQuote { children: vec![para("quoted")] };
    assert_eq!(strip_esc(&render(&quote, 0, &cfg).unwrap()), "\n quoted\n\n");
}

#[test]
fn emphasis_and_strong_keep_visible_text() {
    let cfg = plain();
    let em = Node::Emphasis { children: vec![text("soft")] };
    let strong = Node::Strong { children: vec![text("loud")] };
    assert_eq!(strip_esc(&render(&em, 0, &cfg).unwrap()), "soft");
    assert_eq!(strip_esc(&render(&strong, 0, &cfg).unwrap()), "loud");
}

#[test]
fn prettify_renders_a_document_and_reports_bounds() {
    let cfg = plain();
    let doc = Node::Root { children: vec![para("hi")] };
    let (out, bounds) = prettify(&doc, &cfg, 80, 24);
    assert_eq!(out, "\nhi\n\n\n");
    assert_eq!(get_bounds(&bounds), (3, 0));
}

#[test]
fn prettify_empty_document_is_one_blank_line() {
    let cfg = plain();
    let doc = Node::Other;
    let (out, bounds) = prettify(&doc, &cfg, 80, 24);
    assert_eq!(out, "\n");
    assert_eq!(get_bounds(&bounds), (0, 0));
}

#[test]
fn paragraph_with_strikethrough_keeps_surrounding_text() {
    let cfg = plain();
    let out = render(&para("a ~~bc~~ d"), 0, &cfg).unwrap();
    assert_eq!(out, "\na b\u{336}c\u{336} d\n");
}

#[test]
fn heading_joins_several_children() {
    let cfg = plain();
    let heading = Node::Heading {
        level: 2,
        children: vec![text("see "), Node::InlineCode { value: "x".to_string() }],
    };
    assert_eq!(strip_esc(&render(&heading, 0, &cfg).unwrap()), "\n██ see x\n");
}

#[test]
fn link_joins_several_children() {
    let cfg = plain();
    let link = Node::Link {
        url: "http://a.b".to_string(),
        children: vec![text("go "), Node::Emphasis { children: vec![text("here")] }],
    };
    assert_eq!(strip_esc(&render(&link, 0, &cfg).unwrap()), "go here :(http://a.b)");
}

#[test]
fn root_joins_blocks_in_document_order() {
    let cfg = plain();
    let doc = Node::Root {
        children: vec![para("one"), Node::ThematicBreak, Node::Other, para("two")],
    };
    let (out, _) = prettify(&doc, &cfg, 80, 24);
    assert_eq!(out, "\none\n\n---\n\ntwo\n\n\n");
}
