use markdown::html_block::{find_tag, parse_html_block};
use markdown::Block::Raw;

fn tag(t: &str, h: usize, e: usize) -> Option<(String, usize, usize)> {
    Some((t.to_owned(), h, e))
}

fn raw(s: &str, n: usize) -> (markdown::Block, usize) {
    (Raw(s.to_owned()), n)
}

#[test]
fn find_tag_basic() {
    assert_eq!(find_tag("<div>"), tag("div", 0, 5));
    assert_eq!(find_tag("</div>"), tag("/div", 0, 6));
    assert_eq!(find_tag("  <div>  "), tag("div", 2, 7));
    assert_eq!(find_tag("  </div>  "), tag("/div", 2, 8));
    assert_eq!(find_tag("deadbeef<div>deadbeef"), tag("div", 8, 13));
}

#[test]
fn find_tag_special() {
    assert_eq!(find_tag("<hr>"), tag("hr", 0, 4));
    assert_eq!(find_tag("<hr/>"), tag("hr/", 0, 5));
    assert_eq!(find_tag("<hr />"), tag("hr", 0, 6));
    assert_eq!(find_tag("  <hr>  "), tag("hr", 2, 6));
    assert_eq!(find_tag("  <hr/>  "), tag("hr/", 2, 7));
    assert_eq!(find_tag("  <hr />  "), tag("hr", 2, 8));
    assert_eq!(find_tag("  <hr class=\"thick\">  "), tag("hr", 2, 20));
    assert_eq!(find_tag(" <hr  class=\"thick\" />  "), tag("hr", 1, 22));
}

#[test]
fn finds_block() {
    assert_eq!(
        parse_html_block(&vec!["<div>   ", "  the block  ", "</div>   "]).unwrap(),
        raw("<div>\n  the block\n</div>\n", 3)
    );
    assert_eq!(
        parse_html_block(&vec!["<div>", "    more text", "</div>"]).unwrap(),
        raw("<div>\n    more text\n</div>\n", 3)
    );
    assert_eq!(
        parse_html_block(&vec!["<div class=\"csv\">", "<table>", "</table>", "</div>"]).unwrap(),
        raw("<div class=\"csv\">\n<table>\n</table>\n</div>\n", 4)
    );
}

#[test]
fn html_block_knows_when_to_stop() {
    assert_eq!(
        parse_html_block(&vec!["<div>", "    Test", "    this", "stuff", "    now", "</div>    "])
            .unwrap(),
        raw("<div>\n    Test\n    this\nstuff\n    now\n</div>\n", 6)
    );
}

#[test]
fn html_block_no_false_positives() {
    assert_eq!(parse_html_block(&vec!["</table>", "    this", "stuff", "    now", "</div>"]), None);
    assert_eq!(parse_html_block(&vec!["<table>", "    this", "stuff", "    now", "</div>"]), None);
    assert_eq!(
        parse_html_block(&vec!["<table>", "<table>    this", "stuff", "    now", "</table>"]),
        None
    );
}

#[test]
fn html_block_no_early_matching() {
    assert_eq!(parse_html_block(&vec![" <div>", "    this", "stuff", "</div>"]), None);
    assert_eq!(parse_html_block(&vec!["xyz", "<div>", "    this", "stuff", "</div>"]), None);
    assert_eq!(parse_html_block(&vec!["xyz<div>", "    this", "stuff", "</div>"]), None);
    assert_eq!(parse_html_block(&vec!["<div>", "    this", "stuff", "</div>xyz"]), None);
    assert_eq!(parse_html_block(&vec!["wyz <div>", "    this", "stuff", "</div>"]), None);
    assert_eq!(parse_html_block(&vec!["<div>", "    this", "stuff", "</div> xyz "]), None);
}

#[test]
fn ignore_nested_tags() {
    assert_eq!(
        parse_html_block(&vec![
            "<table>",
            "<table>",
            "<table></table>",
            "<table>",
            "</table>",
            "</table>",
            "</table>",
            "continued texted"
        ])
        .unwrap(),
        raw("<table>\n<table>\n<table></table>\n<table>\n</table>\n</table>\n</table>\n", 7)
    );
    assert_eq!(
        parse_html_block(&vec![
            "<div>",
            "    <div>",
            "    this",
            "<div></div>",
            " is ",
            "<div>",
            "stuff",
            "</div>",
            "    done",
            "</div> xyz </div>   ",
            "continued texted"
        ])
        .unwrap(),
        raw(
            "<div>\n    <div>\n    this\n<div></div>\n is\n<div>\nstuff\n</div>\n    done\n</div> xyz </div>\n",
            10
        )
    );
}

#[test]
fn finds_html_comment_line() {
    assert_eq!(
        parse_html_block(&vec!["<!-- one line comment -->", "next line"]).unwrap(),
        raw("<!-- one line comment -->\n", 1)
    );
    assert_eq!(
        parse_html_block(&vec!["<!--one line comment-->    "]).unwrap(),
        raw("<!--one line comment-->\n", 1)
    );
}

#[test]
fn finds_html_comment_block() {
    assert_eq!(
        parse_html_block(&vec!["<!--", "  this is a", "  comment block", "-->", "next line"])
            .unwrap(),
        raw("<!--\n  this is a\n  comment block\n-->\n", 4)
    );
    assert_eq!(
        parse_html_block(&vec![
            "<!-- followed by  ",
            "  another",
            "  comment block",
            "style-->",
            "next line"
        ])
        .unwrap(),
        raw("<!-- followed by\n  another\n  comment block\nstyle-->\n", 4)
    );
}

#[test]
fn finds_html_horizontal_rule() {
    assert_eq!(parse_html_block(&vec!["<hr>", "next line"]).unwrap(), raw("<hr>\n", 1));
    assert_eq!(parse_html_block(&vec!["<hr/>", "next line"]).unwrap(), raw("<hr/>\n", 1));
    assert_eq!(parse_html_block(&vec!["<hr \t/>", "next line"]).unwrap(), raw("<hr \t/>\n", 1));
}

#[test]
fn finds_html_line_break() {
    assert_eq!(parse_html_block(&vec!["<br>", "next line"]).unwrap(), raw("<br>\n", 1));
    assert_eq!(parse_html_block(&vec!["<br/>", "next line"]).unwrap(), raw("<br/>\n", 1));
    assert_eq!(parse_html_block(&vec!["<br\t />", "next line"]).unwrap(), raw("<br\t />\n", 1));
}
