use markdown::html::to_html as blocks_to_html;
use markdown::Block::{Blockquote, CodeBlock, Header, Hr, OrderedList, Paragraph, Raw};
use markdown::Span::{Code, Emphasis, Image, Link, Strong, Text};
use markdown::{generate_markdown, to_html, tokenize, ListItem, OrderedListType, Span};

fn text(s: &str) -> Span {
    Text(s.to_owned())
}

#[test]
fn renders_heading_with_slug() {
    assert_eq!(to_html("## Hello World"), "<h2 id='hello_world'>Hello World</h2>\n");
}

#[test]
fn renders_heading_level_above_nine() {
    assert_eq!(blocks_to_html(&vec![Header(vec![text("x")], 12)]), "<h12 id='x'>x</h12>\n");
}

#[test]
fn escapes_text_but_keeps_entities() {
    assert_eq!(to_html("a < b & c"), "<p>a &lt; b &amp; c</p>\n");
    assert_eq!(to_html("&copy; 'q' \"d\""), "<p>&copy; &#8217;q&#8217; &quot;d&quot;</p>\n");
    assert_eq!(to_html("`a&amp;b`"), "<p><code>a&amp;amp;b</code></p>\n");
}

#[test]
fn renders_spans() {
    assert_eq!(
        blocks_to_html(&vec![Paragraph(vec![
            Emphasis(vec![text("e")]),
            Strong(vec![text("s")]),
            Code("c".to_owned()),
            Link(vec![text("l")], "u".to_owned(), Some("t".to_owned())),
            Image("a".to_owned(), "i".to_owned(), None)
        ])]),
        "<p><em>e</em><strong>s</strong><code>c</code><a href=\"u\" title=\"t\">l</a><img src=\"i\" alt=\"a\" /></p>\n"
    );
}

#[test]
fn renders_blocks() {
    assert_eq!(
        blocks_to_html(&vec![
            Blockquote(vec![Paragraph(vec![text("q")])]),
            Hr,
            CodeBlock(Some("rs".to_owned()), vec!["a<b".to_owned(), "c".to_owned()]),
            Raw("<div></div>".to_owned())
        ]),
        "<blockquote>\n<p>q</p>\n</blockquote>\n\n<hr />\n\n<pre><code class=\"language-rs\">a&lt;b\nc</code></pre>\n\n<div></div>\n"
    );
}

#[test]
fn renders_ordered_list_type() {
    assert_eq!(
        blocks_to_html(&vec![OrderedList(
            vec![ListItem::Simple(vec![text("x")])],
            OrderedListType::LowercaseRoman
        )]),
        "<ol type=\"i\">\n<li>x</li>\n</ol>\n"
    );
    assert_eq!(to_html("1. x\n2. y"), "<ol>\n<li>x</li>\n\n<li>y</li>\n</ol>\n");
    assert_eq!(OrderedListType::Uppercase.to_html_type(), "A");
}

#[test]
fn generates_markdown() {
    assert_eq!(
        generate_markdown(vec![
            Header(vec![text("T")], 2),
            Paragraph(vec![Emphasis(vec![text("e")]), text(" and "), Strong(vec![text("s")])]),
            Blockquote(vec![Paragraph(vec![text("q")])]),
            Hr
        ]),
        "## T\n\n*e* and **s**\n\n> q\n\n==="
    );
}

#[test]
fn generates_code_and_lists() {
    assert_eq!(
        generate_markdown(vec![CodeBlock(None, vec!["a".to_owned(), "b".to_owned()])]),
        "    a\n    b"
    );
    assert_eq!(
        generate_markdown(vec![CodeBlock(Some("rs".to_owned()), vec!["a".to_owned()])]),
        "```rs\na\n```"
    );
    assert_eq!(
        generate_markdown(vec![OrderedList(
            vec![ListItem::Simple(vec![text("x")]), ListItem::Simple(vec![text("y")])],
            OrderedListType::Numeric
        )]),
        "1. x\n1. y"
    );
}

#[test]
fn round_trip_keeps_structure() {
    let src = "# Title\n\nSome *text* with a [link](http://x.org).\n\n* one\n* two\n\n> quoted";
    let blocks = tokenize(src);
    let again = tokenize(&generate_markdown(tokenize(src)));
    assert_eq!(blocks, again);
}

#[test]
fn round_trip_code_span_with_backtick() {
    let src = "x ``a`b`` y";
    let out = generate_markdown(tokenize(src));
    assert_eq!(out, "x ``a`b`` y");
    assert_eq!(to_html(&out), to_html(src));
    assert_eq!(to_html(src), "<p>x <code>a`b</code> y</p>\n");
}

#[test]
fn round_trip_guards_paragraph_start() {
    for src in ["  # x", "  > x", "\\- x", "1\\. x", "a\\. b", "\\= x"] {
        let out = generate_markdown(tokenize(src));
        assert_eq!(to_html(&out), to_html(src), "source {:?}, written {:?}", src, out);
    }
    assert_eq!(generate_markdown(vec![Paragraph(vec![text("# x")])]), "\\# x");
    assert_eq!(generate_markdown(vec![Paragraph(vec![text("> x")])]), " > x");
    assert_eq!(generate_markdown(vec![Paragraph(vec![text("1. x")])]), "1\\. x");
    assert_eq!(to_html("1\\. x"), "<p>1. x</p>\n");
    assert_eq!(to_html("\\# x"), "<p># x</p>\n");
    assert_eq!(to_html(" > x"), "<p>&gt; x</p>\n");
}
