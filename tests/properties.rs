use markdown::block::parse_blocks;
use markdown::inline::{parse_code, parse_emphasis, parse_image, parse_link, parse_spans, parse_strong};
use markdown::Block::{CodeBlock, Header, Paragraph, UnorderedList};
use markdown::Span::{Code, Emphasis, Image, Link, Literal, Text};
use markdown::{parse, to_html, ListItem, Span};

fn text(s: &str) -> Span {
    Text(s.to_owned())
}

#[test]
fn parse_is_total_on_odd_input() {
    for s in [
        "",
        "\n",
        "\r\n\r\n",
        "[",
        "![",
        "```",
        "> ",
        "* ",
        "- ",
        "1. ",
        "\\",
        "`",
        "**",
        "__",
        "[]:",
        "[a]:",
        "é*ü*ß",
        "<div>",
        "    ",
        "\t",
    ] {
        let _ = parse(s);
        let _ = to_html(s);
    }
}

#[test]
fn heading_closing_hashes_any_count() {
    assert_eq!(parse("### Title ###"), vec![Header(vec![text("Title")], 3)]);
    assert_eq!(parse("### Title #"), vec![Header(vec![text("Title")], 3)]);
    assert_eq!(parse("### Title ##########"), vec![Header(vec![text("Title")], 3)]);
    assert_eq!(parse("###   Title   "), vec![Header(vec![text("Title")], 3)]);
    assert_eq!(parse("# Title"), vec![Header(vec![text("Title")], 1)]);
    assert_eq!(parse("####### Title"), vec![Paragraph(vec![text("####### Title")])]);
}

#[test]
fn list_continuation_boundary() {
    assert_eq!(
        parse("* A list\n* is good\n\nmore text"),
        vec![
            UnorderedList(vec![
                ListItem::Simple(vec![text("A list")]),
                ListItem::Simple(vec![text("is good")])
            ]),
            Paragraph(vec![text("more text")])
        ]
    );
}

#[test]
fn link_bracket_balancing() {
    assert_eq!(
        parse_spans("[a link with ![an image](src) inside](dest)"),
        vec![Link(
            vec![text("a link with "), Image("an image".to_owned(), "src".to_owned(), None), text(" inside")],
            "dest".to_owned(),
            None
        )]
    );
}

#[test]
fn escapes_are_literal() {
    assert_eq!(
        parse_spans("\\*not emphasis\\*"),
        vec![Literal('*'), text("not emphasis"), Literal('*')]
    );
}

#[test]
fn spaced_asterisks_are_not_emphasis() {
    let spans = parse_spans("a * b * c");
    assert!(spans.iter().all(|s| !matches!(s, Emphasis(_))));
    assert_eq!(spans, vec![text("a "), Literal('*'), text(" b "), Literal('*'), text(" c")]);
    assert_eq!(parse_spans("*word*"), vec![Emphasis(vec![text("word")])]);
}

#[test]
fn unclosed_fence_is_no_code_block() {
    let blocks = parse_blocks("```rust\nlet x = 1;\n# heading");
    assert!(blocks.iter().all(|b| !matches!(b, CodeBlock(_, _))));
    assert_eq!(
        blocks,
        vec![
            Paragraph(vec![Code("`".to_owned()), text("rust"), text("\n"), text("let x = 1;")]),
            Header(vec![text("heading")], 1)
        ]
    );
    assert_eq!(
        parse_blocks("```\ncode\n```"),
        vec![CodeBlock(Some("".to_owned()), vec!["code".to_owned()])]
    );
}

#[test]
fn unresolved_reference_renders_raw() {
    assert_eq!(to_html("see [foo][bar] here"), "<p>see [foo][bar] here</p>\n");
    assert_eq!(
        to_html("see [foo][bar] here\n\n[bar]: http://x.org"),
        "<p>see <a href=\"http://x.org\">foo</a> here</p>\n"
    );
}

#[test]
fn implicit_reference_uses_slug() {
    assert_eq!(
        to_html("[Foo]\n\n[foo]: http://x.org \"T\""),
        "<p><a href=\"http://x.org\" title=\"T\">Foo</a></p>\n"
    );
}

#[test]
fn reference_ids_are_case_folded() {
    match parse_spans("[x][ExAmple]").as_slice() {
        [markdown::Span::RefLink(_, id, raw)] => {
            assert_eq!(id, "example");
            assert_eq!(raw, "[x][ExAmple]");
        }
        other => panic!("{:?}", other),
    }
    assert_eq!(
        parse("[ABC]: http://a.b"),
        vec![markdown::Block::LinkReference("abc".to_owned(), "http://a.b".to_owned(), None)]
    );
}

#[test]
fn paragraph_lines_join_with_newline() {
    assert_eq!(
        parse("one\ntwo  \nthree"),
        vec![Paragraph(vec![
            text("one"),
            text("\n"),
            text("two"),
            markdown::Span::Break,
            text("three")
        ])]
    );
}

#[test]
fn loose_list_items_are_paragraphs() {
    assert_eq!(
        parse("* a\n\n* b"),
        vec![UnorderedList(vec![
            ListItem::Paragraph(vec![Paragraph(vec![text("a")])]),
            ListItem::Paragraph(vec![Paragraph(vec![text("b")])])
        ])]
    );
}

#[test]
fn plus_marker_starts_a_list() {
    assert_eq!(
        parse("+ one\n+ two"),
        vec![UnorderedList(vec![
            ListItem::Simple(vec![text("one")]),
            ListItem::Simple(vec![text("two")])
        ])]
    );
}

#[test]
fn empty_input_has_no_blocks() {
    assert_eq!(parse(""), vec![]);
    assert_eq!(parse("\n\n"), vec![]);
}

#[test]
fn later_reference_definition_wins() {
    assert_eq!(
        to_html("[x][r]\n\n[r]: http://first\n[r]: http://second"),
        "<p><a href=\"http://second\">x</a></p>\n"
    );
}

#[test]
fn deep_nesting_degrades_to_text() {
    let deep = ">".repeat(200) + " x";
    let blocks = parse(&deep);
    assert_eq!(blocks.len(), 1);
    let mut depth = 0;
    let mut cur = &blocks[0];
    while let markdown::Block::Blockquote(inner) = cur {
        depth += 1;
        cur = &inner[0];
    }
    assert_eq!(depth, 64);
    assert!(matches!(cur, Paragraph(_)));
}

#[test]
fn recognizers_count_bytes() {
    assert_eq!(parse_emphasis("*é*"), Some((Emphasis(vec![text("é")]), 4)));
    assert_eq!(parse_strong("**é**"), Some((markdown::Span::Strong(vec![text("é")]), 6)));
    assert_eq!(
        parse_link("[é](u)"),
        Some((Link(vec![text("é")], "u".to_owned(), None), 7))
    );
    assert_eq!(parse_code("`é`"), Some((Code("é".to_owned()), 4)));
    assert_eq!(
        parse_image("![é](u) x"),
        Some((Image("é".to_owned(), "u".to_owned(), None), 8))
    );
    assert_eq!(
        markdown::html_block::find_tag("é<div>"),
        Some(("div".to_owned(), 2, 7))
    );
}

#[test]
fn indented_code_spans_blank_lines() {
    assert_eq!(
        markdown::block::parse_code_block(&vec!["    a", "", "    b"]),
        Some((CodeBlock(None, vec!["a".to_owned(), "".to_owned(), "b".to_owned()]), 3))
    );
    assert_eq!(
        parse_blocks("    a\n\npara"),
        vec![CodeBlock(None, vec!["a".to_owned()]), Paragraph(vec![text("para")])]
    );
}

#[test]
fn bare_quote_line_ends_quote_before_plain_line() {
    match markdown::block::parse_blockquote(&vec!["> a", ">", "b"]) {
        Some((markdown::Block::Blockquote(_), 2)) => (),
        x => panic!("Found {:?}", x),
    }
    match markdown::block::parse_blockquote(&vec!["> a", ">  ", "> b"]) {
        Some((markdown::Block::Blockquote(_), 3)) => (),
        x => panic!("Found {:?}", x),
    }
}

#[test]
fn blank_line_inside_item_makes_list_loose() {
    assert_eq!(
        markdown::block::parse_unordered_list(&vec!["* a", "", "  more", "* b"]),
        Some((
            UnorderedList(vec![
                ListItem::Paragraph(vec![Paragraph(vec![text("a")]), Paragraph(vec![text("more")])]),
                ListItem::Paragraph(vec![Paragraph(vec![text("b")])])
            ]),
            4
        ))
    );
}

#[test]
fn definition_without_url_is_text() {
    let r = parse("[a]:");
    assert_eq!(r.len(), 1);
    assert!(matches!(r[0], Paragraph(_)));
}

#[test]
fn unclosed_fence_document_is_one_paragraph() {
    let r = parse("```rust\nfn main() {}\nmore");
    assert_eq!(r.len(), 1);
    assert!(matches!(r[0], Paragraph(_)));
}

#[test]
fn closing_hashes_then_trailing_space() {
    assert_eq!(parse("### Title ###  "), vec![Header(vec![text("Title")], 3)]);
}

#[test]
fn ordered_markers_need_a_dot() {
    assert_eq!(parse("2024 was good"), vec![Paragraph(vec![text("2024 was good")])]);
    assert_eq!(parse("Mr. Smith"), vec![Paragraph(vec![text("Mr. Smith")])]);
    match &parse("b. one\nc. two")[0] {
        markdown::Block::OrderedList(items, t) => {
            assert_eq!(items.len(), 2);
            assert_eq!(*t, markdown::OrderedListType::Lowercase);
        }
        x => panic!("Found {:?}", x),
    }
    match &parse("iv. one")[0] {
        markdown::Block::OrderedList(_, t) => {
            assert_eq!(*t, markdown::OrderedListType::LowercaseRoman)
        }
        x => panic!("Found {:?}", x),
    }
    match &parse("2024. one")[0] {
        markdown::Block::OrderedList(_, t) => assert_eq!(*t, markdown::OrderedListType::Numeric),
        x => panic!("Found {:?}", x),
    }
}
