use mdhtml::compilation_targets::to_html::{compile_all, compile_md, compile_token};
use mdhtml::parser::parse_md_str;
use mdhtml::tokens::{Header, Link, PlainText, Token};

#[test]
fn header_html() {
    assert_eq!(compile_md("# Title\n"), "<h1><span>Title</span></h1>");
    assert_eq!(compile_md("### Deep"), "<h3><span>Deep</span></h3>");
}

#[test]
fn header_level_digits() {
    let (open, close) = Header { level: 12 }.compile();
    assert_eq!(open, "<h12>");
    assert_eq!(close, "</h12>");
}

#[test]
fn link_html_with_and_without_url() {
    assert_eq!(compile_md("[text](url)"), "<div><a href='url'><span>text</span></a></div>");
    assert_eq!(compile_md("[text]()"), "<div><a ><span>text</span></a></div>");
    let (open, _) = Link { url: String::new() }.compile();
    assert!(!open.contains("href"));
}

#[test]
fn unclosed_italic_html() {
    assert_eq!(compile_md("*no close"), "<div><span>*no close</span></div>");
}

#[test]
fn nested_tags_are_balanced() {
    assert_eq!(
        compile_md("**[a](u)** and [*b*](v)"),
        "<div><strong><a href='u'><span>a</span></a></strong><span> and </span><a href='v'><i><span>b</span></i></a></div>"
    );
}

#[test]
fn nested_list_html() {
    assert_eq!(
        compile_md("- a\n  - b\n\n"),
        "<ul><li><span>a</span></li><ul><li><span>b</span></li></ul></ul><div></div>"
    );
}

#[test]
fn blocks_are_concatenated() {
    let parsed = parse_md_str("# A\nb\n");
    assert_eq!(compile_all(parsed), "<h1><span>A</span></h1><div><span>b</span></div>");
}

#[test]
fn empty_document_html() {
    assert_eq!(compile_md(""), "");
}

#[test]
fn empty_plain_text_is_a_line_break() {
    let (open, close) = compile_token(&Token::PlainText(PlainText { text: String::new() }));
    assert_eq!(open, "<br>");
    assert_eq!(close, "");
    let (open, close) = PlainText { text: String::from("x") }.compile();
    assert_eq!(open, "<span>x");
    assert_eq!(close, "</span>");
}

#[test]
fn inline_code_and_code_block_html() {
    assert_eq!(compile_md("`c`"), "<div><code><span>c</span></code></div>");
    assert_eq!(compile_md("```x```"), "<pre><span>x</span></pre>");
}
