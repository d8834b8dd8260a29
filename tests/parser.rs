use mdhtml::parser::parse_md_str;
use mdhtml::tokens::{Bold, Header, Italic, Link, List, ListItem, MdSyntaxTree, Paragraph, PlainText, Token};

fn match_syntax(md_syntax: MdSyntaxTree, expected: Vec<Token>) {
    let mut tokens_in_order = vec![];
    for row in md_syntax {
        let mut it = row.iter_dfs();
        while let Some(tk) = it.next() {
            tokens_in_order.push(tk.clone());
        }
    }
    assert_eq!(tokens_in_order, expected);
}

fn text(s: &str) -> Token {
    Token::PlainText(PlainText { text: String::from(s) })
}

#[test]
fn t_headers() {
    let md_syntax = parse_md_str(
        "# First header
## Second header
### Third header",
    );
    let expected_order: Vec<Token> = Vec::from([
        Token::Header(Header { level: 1 }),
        text("First header"),
        Token::Header(Header { level: 2 }),
        text("Second header"),
        Token::Header(Header { level: 3 }),
        text("Third header"),
    ]);
    match_syntax(md_syntax, expected_order);
}

#[test]
fn t_links() {
    let md_syntax = parse_md_str(
        "[Link](http://gnu.org)
*[Italic link](http://gnu.org)*
**[Bold link](http://gnu.org)**",
    );
    let expected_order: Vec<Token> = Vec::from([
        Token::Paragraph(Paragraph {}),
        Token::Link(Link { url: String::from("http://gnu.org") }),
        text("Link"),
        Token::Paragraph(Paragraph {}),
        Token::Italic(Italic {}),
        Token::Link(Link { url: String::from("http://gnu.org") }),
        text("Italic link"),
        Token::Paragraph(Paragraph {}),
        Token::Bold(Bold {}),
        Token::Link(Link { url: String::from("http://gnu.org") }),
        text("Bold link"),
    ]);
    match_syntax(md_syntax, expected_order);
}

#[test]
fn t_lists() {
    let md_syntax = parse_md_str(
        "- First item
- Second item
- Third item

",
    );
    let expected_order: Vec<Token> = Vec::from([
        Token::List(List { level: 0 }),
        Token::ListItem(ListItem {}),
        text("First item"),
        Token::ListItem(ListItem {}),
        text("Second item"),
        Token::ListItem(ListItem {}),
        text("Third item"),
        Token::Paragraph(Paragraph {}),
    ]);
    match_syntax(md_syntax, expected_order);
}

#[test]
fn header_title_tree() {
    let parsed = parse_md_str("# Title\n");
    assert_eq!(parsed.len(), 1);
    let tree = &parsed[0];
    assert_eq!(tree.len(), 2);
    let root = tree.get_node(mdhtml::tree::TreeIndex::Arena(0)).unwrap();
    assert_eq!(root.val, Token::Header(Header { level: 1 }));
    assert_eq!(root.children, vec![1]);
    assert_eq!(tree.get(mdhtml::tree::TreeIndex::Arena(1)), Some(&text("Title")));
}

#[test]
fn indented_item_nests_a_list() {
    let parsed = parse_md_str("- a\n  - b\n\n");
    match_syntax(
        parsed,
        vec![
            Token::List(List { level: 0 }),
            Token::ListItem(ListItem {}),
            text("a"),
            Token::List(List { level: 1 }),
            Token::ListItem(ListItem {}),
            text("b"),
            Token::Paragraph(Paragraph {}),
        ],
    );
}

#[test]
fn unindented_item_is_a_sibling() {
    let parsed = parse_md_str("- a\n- b\n\n");
    match_syntax(
        parsed,
        vec![
            Token::List(List { level: 0 }),
            Token::ListItem(ListItem {}),
            text("a"),
            Token::ListItem(ListItem {}),
            text("b"),
            Token::Paragraph(Paragraph {}),
        ],
    );
}

#[test]
fn unclosed_italic_is_plain_text() {
    let parsed = parse_md_str("*no close");
    match_syntax(parsed, vec![Token::Paragraph(Paragraph {}), text("*no close")]);
}

#[test]
fn link_with_caption() {
    let parsed = parse_md_str("[text](url)");
    match_syntax(
        parsed,
        vec![Token::Paragraph(Paragraph {}), Token::Link(Link { url: String::from("url") }), text("text")],
    );
}

#[test]
fn empty_document_has_no_blocks() {
    assert_eq!(parse_md_str("").len(), 0);
}

#[test]
fn empty_line_is_an_empty_paragraph() {
    let parsed = parse_md_str("\n");
    match_syntax(parsed, vec![Token::Paragraph(Paragraph {})]);
}

#[test]
fn text_around_inline_tokens() {
    let parsed = parse_md_str("a *b* `c` **d** e");
    match_syntax(
        parsed,
        vec![
            Token::Paragraph(Paragraph {}),
            text("a "),
            Token::Italic(Italic {}),
            text("b"),
            text(" "),
            Token::InlineCode(mdhtml::tokens::InlineCode {}),
            text("c"),
            text(" "),
            Token::Bold(Bold {}),
            text("d"),
            text(" e"),
        ],
    );
}

#[test]
fn fenced_code_block() {
    let parsed = parse_md_str("```x = 1```\nafter");
    match_syntax(
        parsed,
        vec![
            Token::Code(mdhtml::tokens::Code {}),
            text("x = 1"),
            Token::Paragraph(Paragraph {}),
            Token::Paragraph(Paragraph {}),
            text("after"),
        ],
    );
}

#[test]
fn nested_inline_tokens() {
    let parsed = parse_md_str("**[a](u)** and [*b*](v)");
    match_syntax(
        parsed,
        vec![
            Token::Paragraph(Paragraph {}),
            Token::Bold(Bold {}),
            Token::Link(Link { url: String::from("u") }),
            text("a"),
            text(" and "),
            Token::Link(Link { url: String::from("v") }),
            Token::Italic(Italic {}),
            text("b"),
        ],
    );
}

#[test]
fn unmatched_delimiters_stay_literal() {
    let parsed = parse_md_str("**x*");
    match_syntax(parsed, vec![Token::Paragraph(Paragraph {}), text("*"), Token::Italic(Italic {}), text("x")]);
    let parsed = parse_md_str("[a](b");
    match_syntax(parsed, vec![Token::Paragraph(Paragraph {}), text("[a](b")]);
}

#[test]
fn header_needs_space_after_hashes() {
    let parsed = parse_md_str("#x
## y");
    match_syntax(
        parsed,
        vec![Token::Paragraph(Paragraph {}), text("#x"), Token::Header(Header { level: 2 }), text("y")],
    );
}

#[test]
fn parsing_is_repeatable() {
    let src = "# T\n- a\n  - b\n\n*i* [l](u)\n";
    let first = mdhtml::compilation_targets::to_html::compile_md(src);
    let second = mdhtml::compilation_targets::to_html::compile_md(src);
    assert_eq!(first, second);
    let mut a = vec![];
    for row in parse_md_str(src) {
        let mut it = row.iter_dfs();
        while let Some(tk) = it.next() {
            a.push(tk.clone());
        }
    }
    let mut b = vec![];
    for row in parse_md_str(src) {
        let mut it = row.iter_dfs();
        while let Some(tk) = it.next() {
            b.push(tk.clone());
        }
    }
    assert_eq!(a, b);
}
