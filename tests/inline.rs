use markdown::inline::{
    parse_break, parse_code, parse_emphasis, parse_image, parse_link, parse_spans, parse_strong,
};
use markdown::Span;
use markdown::Span::{Break, Code, Emphasis, Image, Link, Literal, RefLink, Strong, Text};

fn text(s: &str) -> Span {
    Text(s.to_owned())
}

fn some(s: &str) -> Option<String> {
    Some(s.to_owned())
}

#[test]
fn converts_into_text() {
    assert_eq!(parse_spans("this is a test"), vec![text("this is a test")]);
}

#[test]
fn finds_escapes() {
    assert_eq!(parse_spans(r"\*"), vec![Literal('*')]);
}

#[test]
fn mod_finds_breaks() {
    assert_eq!(parse_spans("this is a test  "), vec![text("this is a test"), Break]);
}

#[test]
fn mod_finds_code() {
    assert_eq!(
        parse_spans("this `is a` test"),
        vec![text("this "), Code("is a".to_owned()), text(" test")]
    );
    assert_eq!(
        parse_spans("this ``is a`` test"),
        vec![text("this "), Code("is a".to_owned()), text(" test")]
    );
}

#[test]
fn mod_finds_emphasis() {
    assert_eq!(
        parse_spans("this _is a_ test"),
        vec![text("this "), Emphasis(vec![text("is a")]), text(" test")]
    );
    assert_eq!(
        parse_spans("this *is a* test"),
        vec![text("this "), Emphasis(vec![text("is a")]), text(" test")]
    );
}

#[test]
fn mod_finds_strong() {
    assert_eq!(
        parse_spans("this __is a__ test"),
        vec![text("this "), Strong(vec![text("is a")]), text(" test")]
    );
    assert_eq!(
        parse_spans("this **is a** test"),
        vec![text("this "), Strong(vec![text("is a")]), text(" test")]
    );
}

#[test]
fn mod_finds_link() {
    assert_eq!(
        parse_spans("this is [an example](example.com) test"),
        vec![
            text("this is "),
            Link(vec![text("an example")], "example.com".to_owned(), None),
            text(" test")
        ]
    );
}

#[test]
fn mod_finds_image() {
    assert_eq!(
        parse_spans("this is ![an example](example.com) test"),
        vec![
            text("this is "),
            Image("an example".to_owned(), "example.com".to_owned(), None),
            text(" test")
        ]
    );
}

#[test]
fn finds_everything() {
    assert_eq!(
        parse_spans("some text ![an image](image.com) _emphasis_ __strong__ `teh codez` [a link](example.com)  "),
        vec![
            text("some text "),
            Image("an image".to_owned(), "image.com".to_owned(), None),
            text(" "),
            Emphasis(vec![text("emphasis")]),
            text(" "),
            Strong(vec![text("strong")]),
            text(" "),
            Code("teh codez".to_owned()),
            text(" "),
            Link(vec![text("a link")], "example.com".to_owned(), None),
            Break
        ]
    );
}

#[test]
fn properly_consumes_multibyte_utf8() {
    let test_phrase = std::str::from_utf8(b"This shouldn\xE2\x80\x99t panic").unwrap();
    let _ = parse_spans(&test_phrase);
}

#[test]
fn emphasis_finds_emphasis() {
    assert_eq!(
        parse_emphasis("_testing things_ test"),
        Some((Emphasis(vec![text("testing things")]), 16))
    );
    assert_eq!(
        parse_emphasis("*testing things* test"),
        Some((Emphasis(vec![text("testing things")]), 16))
    );
    assert_eq!(
        parse_emphasis("_testing things_ things_ test"),
        Some((Emphasis(vec![text("testing things")]), 16))
    );
    assert_eq!(parse_emphasis("_w_ things_ test"), Some((Emphasis(vec![text("w")]), 3)));
    assert_eq!(parse_emphasis("*w* things* test"), Some((Emphasis(vec![text("w")]), 3)));
    assert_eq!(parse_emphasis("_w__ testing things test"), Some((Emphasis(vec![text("w")]), 3)));
}

#[test]
fn handles_escaped_emphasis() {
    assert_eq!(
        parse_emphasis("*escape\\* test*ing"),
        Some((Emphasis(vec![text("escape"), Literal('*'), text(" test")]), 15))
    );
    assert_eq!(
        parse_emphasis("*fake escape\\\\* test*ing"),
        Some((Emphasis(vec![text("fake escape"), Literal('\\')]), 15))
    );
    assert_eq!(
        parse_emphasis("_escape\\_ test_ing"),
        Some((Emphasis(vec![text("escape"), Literal('_'), text(" test")]), 15))
    );
    assert_eq!(
        parse_emphasis("_fake escape\\\\_ test_ing"),
        Some((Emphasis(vec![text("fake escape"), Literal('\\')]), 15))
    );
    assert_eq!(
        parse_emphasis("*surrounding * whitespace* escape"),
        Some((Emphasis(vec![text("surrounding "), Literal('*'), text(" whitespace")]), 26))
    );
    assert_eq!(
        parse_emphasis("_surrounding _ whitespace_ escape"),
        Some((Emphasis(vec![text("surrounding "), Literal('_'), text(" whitespace")]), 26))
    );
    assert_eq!(
        parse_emphasis("*not *whitespace escaped*"),
        Some((Emphasis(vec![text("not")]), 6))
    )
}

#[test]
fn emphasis_no_false_positives() {
    assert_eq!(parse_emphasis("__ testing things test"), None);
    assert_eq!(parse_emphasis("_ test"), None);
    assert_eq!(parse_emphasis("* escape \\* test"), None);
    assert_eq!(parse_emphasis("* whitespace * escape test"), None);
    assert_eq!(parse_emphasis("*overlapping * * whitespace escapes"), None);
}

#[test]
fn strong_finds_strong() {
    assert_eq!(
        parse_strong("__testing things__ test"),
        Some((Strong(vec![text("testing things")]), 18))
    );
    assert_eq!(
        parse_strong("**testing things** test"),
        Some((Strong(vec![text("testing things")]), 18))
    );
    assert_eq!(
        parse_strong("__testing things__ things__ test"),
        Some((Strong(vec![text("testing things")]), 18))
    );
    assert_eq!(parse_strong("__w__ things_ test"), Some((Strong(vec![text("w")]), 5)));
    assert_eq!(parse_strong("**w** things** test"), Some((Strong(vec![text("w")]), 5)));
    assert_eq!(parse_strong("__w___ testing things test"), Some((Strong(vec![text("w")]), 5)));
}

#[test]
fn handles_escaped_strong() {
    assert_eq!(
        parse_strong("**escape\\** test**ing"),
        Some((Strong(vec![text("escape"), Literal('*'), text("* test")]), 18))
    );
    assert_eq!(
        parse_strong("**fake escape\\\\** test**ing"),
        Some((Strong(vec![text("fake escape"), Literal('\\')]), 17))
    );
    assert_eq!(
        parse_strong("__escape\\__ test__ing"),
        Some((Strong(vec![text("escape"), Literal('_'), text("_ test")]), 18))
    );
    assert_eq!(
        parse_strong("__fake escape\\\\__ test__ing"),
        Some((Strong(vec![text("fake escape"), Literal('\\')]), 17))
    );
}

#[test]
fn strong_no_false_positives() {
    assert_eq!(parse_strong("__ testing things test"), None);
    assert_eq!(parse_strong("__testing things** test"), None);
    assert_eq!(parse_strong("____ testing things test"), None);
    assert_eq!(parse_strong("** test"), None);
    assert_eq!(parse_strong("**** test"), None);
}

#[test]
fn strong_no_early_matching() {
    assert_eq!(parse_strong("were __testing things__ test"), None);
    assert_eq!(parse_strong("were **testing things** test"), None);
}

#[test]
fn code_finds_code() {
    assert_eq!(parse_code("`testing things` test"), Some((Code("testing things".to_owned()), 16)));
    assert_eq!(parse_code("``testing things`` test"), Some((Code("testing things".to_owned()), 18)));
    assert_eq!(
        parse_code("``testing things`` things`` test"),
        Some((Code("testing things".to_owned()), 18))
    );
    assert_eq!(parse_code("`w` testing things test"), Some((Code("w".to_owned()), 3)));
    assert_eq!(parse_code("`w`` testing things test"), Some((Code("w".to_owned()), 3)));
    assert_eq!(parse_code("``w`` testing things test"), Some((Code("w".to_owned()), 5)));
    assert_eq!(parse_code("``w``` testing things test"), Some((Code("w".to_owned()), 5)));
}

#[test]
fn code_no_false_positives() {
    assert_eq!(parse_code("`` testing things test"), None);
    assert_eq!(parse_code("` test"), None);
}

#[test]
fn code_no_early_matching() {
    assert_eq!(parse_code("were ``testing things`` test"), None);
    assert_eq!(parse_code("were `testing things` test"), None);
}

#[test]
fn br_finds_breaks() {
    assert_eq!(parse_break("  "), Some((Break, 2)));
}

#[test]
fn br_no_false_positives() {
    assert_eq!(parse_break("this is a test  "), None);
    assert_eq!(parse_break(" "), None);
    assert_eq!(parse_break("  a"), None);
}

#[test]
fn image_finds_image() {
    assert_eq!(
        parse_image("![an example](example.com) test"),
        Some((Image("an example".to_owned(), "example.com".to_owned(), None), 26))
    );
    assert_eq!(
        parse_image("![](example.com) test"),
        Some((Image("".to_owned(), "example.com".to_owned(), None), 16))
    );
    assert_eq!(
        parse_image("![an example]() test"),
        Some((Image("an example".to_owned(), "".to_owned(), None), 15))
    );
    assert_eq!(
        parse_image("![]() test"),
        Some((Image("".to_owned(), "".to_owned(), None), 5))
    );
    assert_eq!(
        parse_image("![an example](example.com \"Title\") test"),
        Some((Image("an example".to_owned(), "example.com".to_owned(), some("Title")), 34))
    );
    assert_eq!(
        parse_image("![an example](example.com) test [a link](example.com)"),
        Some((Image("an example".to_owned(), "example.com".to_owned(), None), 26))
    );
}

#[test]
fn image_no_false_positives() {
    assert_eq!(parse_image("![()] testing things test"), None);
    assert_eq!(parse_image("!()[] testing things test"), None);
}

#[test]
fn image_no_early_matching() {
    assert_eq!(parse_image("were ![an example](example.com) test"), None);
}

#[test]
fn link_finds_link() {
    assert_eq!(
        parse_link("[an example](example.com) test"),
        Some((Link(vec![text("an example")], "example.com".to_owned(), None), 25))
    );
    assert_eq!(
        parse_link("[an example][example]"),
        Some((
            RefLink(vec![text("an example")], "example".to_owned(), "[an example][example]".to_owned()),
            21
        ))
    );
    assert_eq!(
        parse_link("[](example.com) test"),
        Some((Link(vec![], "example.com".to_owned(), None), 15))
    );
    assert_eq!(
        parse_link("[an example]() test"),
        Some((Link(vec![text("an example")], "".to_owned(), None), 14))
    );
    assert_eq!(parse_link("[]() test"), Some((Link(vec![], "".to_owned(), None), 4)));
    assert_eq!(
        parse_link("[()] test"),
        Some((RefLink(vec![text("()")], "".to_owned(), "[()]".to_owned()), 4))
    );
    assert_eq!(
        parse_link("[an example](example.com \"Title\") test"),
        Some((Link(vec![text("an example")], "example.com".to_owned(), some("Title")), 33))
    );
    assert_eq!(
        parse_link("[an example](example.com) test [a link](example.com)"),
        Some((Link(vec![text("an example")], "example.com".to_owned(), None), 25))
    );
}

#[test]
fn brackets_in_link() {
    assert_eq!(
        parse_link("[![test](abc)](example.com) test [a link](example.com)"),
        Some((
            Link(
                vec![Image("test".to_owned(), "abc".to_owned(), None)],
                "example.com".to_owned(),
                None
            ),
            27
        ))
    );
    assert_eq!(
        parse_link("[huh[]wow](example.com)"),
        Some((
            Link(
                vec![text("huh"), RefLink(vec![], "".to_owned(), "[]".to_owned()), text("wow")],
                "example.com".to_owned(),
                None
            ),
            23
        ))
    );
    assert_eq!(
        parse_link("[huh\\[wow](example.com)"),
        Some((
            Link(vec![text("huh"), Literal('['), text("wow")], "example.com".to_owned(), None),
            23
        ))
    );
    assert_eq!(parse_link("[huh[wow](example.com)"), None);
    assert_eq!(
        parse_link("[an example](example.com \"Title (huh!)\") test"),
        Some((
            Link(vec![text("an example")], "example.com".to_owned(), some("Title (huh!)")),
            40
        ))
    );
}

#[test]
fn space_length() {
    assert_eq!(
        parse_link("[an example]      [example]"),
        Some((
            RefLink(
                vec![text("an example")],
                "example".to_owned(),
                "[an example]      [example]".to_owned()
            ),
            27
        ))
    );
    assert_eq!(
        parse_link("[an example](example.com           \"Title\") test"),
        Some((Link(vec![text("an example")], "example.com".to_owned(), some("Title")), 43))
    );
}

#[test]
fn link_no_false_positives() {
    assert_eq!(parse_link("()[] testing things test"), None);
    assert_eq!(parse_link("[[][[]] testing things test"), None);
}

#[test]
fn link_no_early_matching() {
    assert_eq!(parse_link("were [an example](example.com) test"), None);
}
