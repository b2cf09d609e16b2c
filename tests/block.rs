use markdown::block::{
    parse_atx_header, parse_blockquote, parse_blocks, parse_code_block, parse_hr,
    parse_link_reference, parse_ordered_list, parse_setext_header, parse_unordered_list,
};
use markdown::Block::{
    Blockquote, CodeBlock, Header, Hr, LinkReference, OrderedList, Paragraph, UnorderedList,
};
use markdown::{ListItem, OrderedListType, Span};

fn text(s: &str) -> Span {
    Span::Text(s.to_owned())
}

fn lines(v: &[&str]) -> Vec<String> {
    v.iter().map(|s| s.to_string()).collect()
}

#[test]
fn mod_finds_atx_header() {
    assert_eq!(parse_blocks("### Test"), vec![Header(vec![text("Test")], 3)]);
}

#[test]
fn finds_setext_header() {
    assert_eq!(parse_blocks("Test\n-------"), vec![Header(vec![text("Test")], 2)]);
    assert_eq!(parse_blocks("Test\n======="), vec![Header(vec![text("Test")], 1)]);
}

#[test]
fn mod_finds_hr() {
    assert_eq!(parse_blocks("-------"), vec![Hr]);
    assert_eq!(parse_blocks("======="), vec![Hr]);
}

#[test]
fn mod_finds_code_block() {
    assert_eq!(
        parse_blocks("    this is code\n    and this as well"),
        vec![CodeBlock(None, lines(&["this is code", "and this as well"]))]
    );
    assert_eq!(
        parse_blocks("```\nthis is code\nand this as well\n```"),
        vec![CodeBlock(Some("".to_owned()), lines(&["this is code", "and this as well"]))]
    );
}

#[test]
fn finds_blockquotes() {
    assert_eq!(
        parse_blocks("> One Paragraph\n>\n> ## H2 \n>\n"),
        vec![Blockquote(vec![
            Paragraph(vec![text("One Paragraph")]),
            Header(vec![text("H2")], 2)
        ])]
    );
    assert_eq!(
        parse_blocks("> One Paragraph\n>\n> > Another blockquote\n>\n"),
        vec![Blockquote(vec![
            Paragraph(vec![text("One Paragraph")]),
            Blockquote(vec![Paragraph(vec![text("Another blockquote")])])
        ])]
    );
    assert_eq!(
        parse_blocks("> > One Paragraph\n> >\n> > Another blockquote\n>\n"),
        vec![Blockquote(vec![Blockquote(vec![
            Paragraph(vec![text("One Paragraph")]),
            Paragraph(vec![text("Another blockquote")])
        ])])]
    );
    assert_eq!(
        parse_blocks("> One Paragraph, just > text \n>\n"),
        vec![Blockquote(vec![Paragraph(vec![text("One Paragraph, just > text")])])]
    );
    assert_eq!(
        parse_blocks("> One Paragraph\n>\n> just > text \n>\n"),
        vec![Blockquote(vec![
            Paragraph(vec![text("One Paragraph")]),
            Paragraph(vec![text("just > text")])
        ])]
    );
}

#[test]
fn finds_blockquote() {
    match parse_blockquote(&vec!["> A citation", "> is good"]) {
        Some((Blockquote(_), 2)) => (),
        _ => panic!(),
    }
    match parse_blockquote(&vec!["> A citation", "> is good,", "very good"]) {
        Some((Blockquote(_), 3)) => (),
        _ => panic!(),
    }
}

#[test]
fn blockquote_knows_when_to_stop() {
    match parse_blockquote(&vec!["> A citation", "> is good", "", "whatever"]) {
        Some((Blockquote(_), 3)) => (),
        _ => panic!(),
    }
}

#[test]
fn code_block_finds_code_block() {
    assert_eq!(
        parse_code_block(&vec!["    Test"]).unwrap(),
        (CodeBlock(None, lines(&["Test"])), 1)
    );
    assert_eq!(
        parse_code_block(&vec!["    Test", "    this"]).unwrap(),
        (CodeBlock(None, lines(&["Test", "this"])), 2)
    );
    assert_eq!(
        parse_code_block(&vec!["```testlang", "Test", "this", "```"]).unwrap(),
        (CodeBlock(Some("testlang".to_owned()), lines(&["Test", "this"])), 4)
    );
}

#[test]
fn code_block_knows_when_to_stop() {
    assert_eq!(
        parse_code_block(&vec!["    Test", "    this", "stuff", "    now"]).unwrap(),
        (CodeBlock(None, lines(&["Test", "this"])), 2)
    );
}

#[test]
fn code_block_no_false_positives() {
    assert_eq!(parse_code_block(&vec!["   Test"]), None);
}

#[test]
fn code_block_no_early_matching() {
    assert_eq!(parse_code_block(&vec!["Test", "    this", "stuff", "    now"]), None);
}

#[test]
fn atx_header_finds_atx_header() {
    assert_eq!(
        parse_atx_header(&vec!["### Test", "testtest"]).unwrap(),
        (Header(vec![text("Test")], 3), 1)
    );
    assert_eq!(
        parse_atx_header(&vec!["# Test", "testtest"]).unwrap(),
        (Header(vec![text("Test")], 1), 1)
    );
    assert_eq!(
        parse_atx_header(&vec!["###### Test", "testtest"]).unwrap(),
        (Header(vec![text("Test")], 6), 1)
    );
    assert_eq!(
        parse_atx_header(&vec!["### Test and a pretty long sentence", "testtest"]).unwrap(),
        (Header(vec![text("Test and a pretty long sentence")], 3), 1)
    );
}

#[test]
fn ignores_closing_hashes() {
    assert_eq!(
        parse_atx_header(&vec!["### Test ###", "testtest"]).unwrap(),
        (Header(vec![text("Test")], 3), 1)
    );
    assert_eq!(
        parse_atx_header(&vec!["# Test #", "testtest"]).unwrap(),
        (Header(vec![text("Test")], 1), 1)
    );
    assert_eq!(
        parse_atx_header(&vec!["###### Test ##", "testtest"]).unwrap(),
        (Header(vec![text("Test")], 6), 1)
    );
    assert_eq!(
        parse_atx_header(&vec!["### Test and a pretty long sentence #########", "testtest"])
            .unwrap(),
        (Header(vec![text("Test and a pretty long sentence")], 3), 1)
    );
}

#[test]
fn atx_header_no_false_positives() {
    assert_eq!(parse_atx_header(&vec!["####### Test", "testtest"]), None);
    assert_eq!(parse_atx_header(&vec!["Test #", "testtest"]), None);
    assert_eq!(parse_atx_header(&vec!["T ### est #", "testtest"]), None);
}

#[test]
fn hr_finds_hr() {
    assert_eq!(parse_hr(&vec!["-------"]).unwrap(), (Hr, 1));
    assert_eq!(parse_hr(&vec!["---"]).unwrap(), (Hr, 1));
    assert_eq!(parse_hr(&vec!["----------------------------"]).unwrap(), (Hr, 1));
    assert_eq!(parse_hr(&vec!["-------", "abc"]).unwrap(), (Hr, 1));
    assert_eq!(parse_hr(&vec!["======="]).unwrap(), (Hr, 1));
    assert_eq!(parse_hr(&vec!["==="]).unwrap(), (Hr, 1));
    assert_eq!(parse_hr(&vec!["============================"]).unwrap(), (Hr, 1));
    assert_eq!(parse_hr(&vec!["=======", "abc"]).unwrap(), (Hr, 1));
}

#[test]
fn hr_no_false_positives() {
    assert_eq!(parse_hr(&vec!["a-------"]), None);
    assert_eq!(parse_hr(&vec!["--- a"]), None);
    assert_eq!(parse_hr(&vec!["--a-"]), None);
    assert_eq!(parse_hr(&vec!["-------====--------------"]), None);
    assert_eq!(parse_hr(&vec!["a======"]), None);
    assert_eq!(parse_hr(&vec!["=== a"]), None);
    assert_eq!(parse_hr(&vec!["==a="]), None);
    assert_eq!(parse_hr(&vec!["=======---================="]), None);
}

#[test]
fn setext_header_finds_atx_header() {
    assert_eq!(
        parse_setext_header(&vec!["Test", "=========="]).unwrap(),
        (Header(vec![text("Test")], 1), 2)
    );
    assert_eq!(
        parse_setext_header(&vec!["Test", "----------"]).unwrap(),
        (Header(vec![text("Test")], 2), 2)
    );
    assert_eq!(
        parse_setext_header(&vec!["This is a test", "==="]).unwrap(),
        (Header(vec![text("This is a test")], 1), 2)
    );
    assert_eq!(
        parse_setext_header(&vec!["This is a test", "---"]).unwrap(),
        (Header(vec![text("This is a test")], 2), 2)
    );
}

#[test]
fn finds_link_reference() {
    let r = |id: &str, url: &str, t: Option<&str>| {
        LinkReference(id.to_owned(), url.to_owned(), t.map(|x| x.to_owned()))
    };
    assert_eq!(
        parse_link_reference(&vec!["[Test]: https://example.com"]).unwrap(),
        (r("test", "https://example.com", None), 1)
    );
    assert_eq!(
        parse_link_reference(&vec!["[Test]: https://example.com \"example\""]).unwrap(),
        (r("test", "https://example.com", Some("example")), 1)
    );
    assert_eq!(
        parse_link_reference(&vec!["[Test]: https://example.com (example)"]).unwrap(),
        (r("test", "https://example.com", Some("example")), 1)
    );
    assert_eq!(
        parse_link_reference(&vec!["[Test]: https://example.com 'example'"]).unwrap(),
        (r("test", "https://example.com", Some("example")), 1)
    );
    assert_eq!(
        parse_link_reference(&vec!["[Test]:     https://example.com        'example'"]).unwrap(),
        (r("test", "https://example.com", Some("example")), 1)
    );
    assert_eq!(
        parse_link_reference(&vec!["[Test]:", "https://example.com \"example\""]).unwrap(),
        (r("test", "https://example.com", Some("example")), 2)
    );
}

#[test]
fn ordered_list_finds_list() {
    match parse_ordered_list(&vec!["1. A list", "2. is good"]) {
        Some((OrderedList(_, lt), 2)) if lt == OrderedListType::Numeric => (),
        x => panic!("Found {:?}", x),
    }
    match parse_ordered_list(&vec!["a. A list", "b. is good", "laksjdnflakdsjnf"]) {
        Some((OrderedList(_, lt), 3)) if lt == OrderedListType::Lowercase => (),
        x => panic!("Found {:?}", x),
    }
    match parse_ordered_list(&vec!["A. A list", "B. is good", "laksjdnflakdsjnf"]) {
        Some((OrderedList(_, lt), 3)) if lt == OrderedListType::Uppercase => (),
        x => panic!("Found {:?}", x),
    }
}

#[test]
fn ordered_list_knows_when_to_stop() {
    match parse_ordered_list(&vec!["i. A list", "ii. is good", "", "laksjdnflakdsjnf"]) {
        Some((OrderedList(_, lt), 3)) if lt == OrderedListType::LowercaseRoman => (),
        x => panic!("Found {:?}", x),
    }
    match parse_ordered_list(&vec!["I. A list", "", "laksjdnflakdsjnf"]) {
        Some((OrderedList(_, lt), 2)) if lt == OrderedListType::UppercaseRoman => (),
        x => panic!("Found {:?}", x),
    }
}

#[test]
fn multi_level_list() {
    match parse_ordered_list(&vec![
        "1. A list",
        "     1.1. One point one",
        "     1.2. One point two",
    ]) {
        Some((OrderedList(ref items, lt), 3)) if lt == OrderedListType::Numeric => match &items[0]
        {
            &ListItem::Paragraph(ref items) => match &items[1] {
                &OrderedList(_, ref lt1) if lt1 == &OrderedListType::Numeric => (),
                x => panic!("Found {:?}", x),
            },
            x => panic!("Found {:?}", x),
        },
        x => panic!("Found {:?}", x),
    }
}

#[test]
fn ordered_list_no_false_positives() {
    assert_eq!(parse_ordered_list(&vec!["test 1. test"]), None);
}

#[test]
fn ordered_list_no_early_matching() {
    assert_eq!(parse_ordered_list(&vec!["test", "1. not", "2. a list"]), None);
}

#[test]
fn unordered_list_finds_list() {
    match parse_unordered_list(&vec!["* A list", "* is good"]) {
        Some((UnorderedList(_), 2)) => (),
        x => panic!("Found {:?}", x),
    }
    match parse_unordered_list(&vec!["* A list", "* is good", "laksjdnflakdsjnf"]) {
        Some((UnorderedList(_), 3)) => (),
        x => panic!("Found {:?}", x),
    }
}

#[test]
fn unordered_list_knows_when_to_stop() {
    match parse_unordered_list(&vec!["* A list", "* is good", "", "laksjdnflakdsjnf"]) {
        Some((UnorderedList(_), 3)) => (),
        x => panic!("Found {:?}", x),
    }
    match parse_unordered_list(&vec!["* A list", "", "laksjdnflakdsjnf"]) {
        Some((UnorderedList(_), 2)) => (),
        x => panic!("Found {:?}", x),
    }
}

#[test]
fn unordered_list_no_false_positives() {
    assert_eq!(parse_unordered_list(&vec!["test * test"]), None);
}

#[test]
fn unordered_list_no_early_matching() {
    assert_eq!(parse_unordered_list(&vec!["test", "* whot", "* a list"]), None);
}
