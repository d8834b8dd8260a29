use vstd::prelude::*;

use crate::tree::Tree;

verus! {

// Tokens describe markdown elements without saying how they are rendered: a
// syntax tree of tokens can be compiled to any target.

/// A markdown element. Children are not held here but in the tree.
#[derive(Clone, Debug)]
pub enum Token {
    Header(Header),
    Paragraph(Paragraph),
    List(List),
    Code(Code),
    PlainText(PlainText),
    Italic(Italic),
    InlineCode(InlineCode),
    Link(Link),
    Bold(Bold),
    ListItem(ListItem),
}

/// What a token is, with its text fields as character sequences.
pub enum TokenView {
    Header(u32),
    Paragraph,
    List(usize),
    Code,
    PlainText(Seq<char>),
    Italic,
    InlineCode,
    Link(Seq<char>),
    Bold,
    ListItem,
}

pub trait Leveled {
    spec fn spec_level(&self) -> u32;

    fn level(&self) -> (r: u32)
        ensures
            r == self.spec_level(),
    ;
}

pub trait Src {
    fn src(&self) -> String;
}

pub trait TextComponent {
    spec fn spec_text(&self) -> Seq<char>;

    fn text(&self) -> (r: String)
        ensures
            r@ == self.spec_text(),
    ;
}

// Line-consuming tokens.

#[derive(PartialEq, Eq, Structural, Debug, Clone, Copy)]
pub struct List {
    pub level: usize,
}

#[derive(PartialEq, Eq, Structural, Debug, Clone, Copy)]
pub struct OrderedList {}

#[derive(PartialEq, Eq, Structural, Debug, Clone, Copy)]
pub struct Header {
    pub level: u32,
}

#[derive(PartialEq, Eq, Structural, Debug, Clone, Copy)]
pub struct Paragraph {}

#[derive(PartialEq, Eq, Structural, Debug, Clone, Copy)]
pub struct Code {}

// Inline tokens.

#[derive(Debug, Clone)]
pub struct PlainText {
    pub text: String,
}

#[derive(PartialEq, Eq, Structural, Debug, Clone, Copy)]
pub struct Italic {}

#[derive(PartialEq, Eq, Structural, Debug, Clone, Copy)]
pub struct InlineCode {}

#[derive(PartialEq, Eq, Structural, Debug, Clone, Copy)]
pub struct Bold {}

#[derive(Debug, Clone)]
pub struct Link {
    pub url: String,
}

#[derive(PartialEq, Eq, Structural, Debug, Clone, Copy)]
pub struct ListItem {}

impl PartialEq for PlainText {
    fn eq(&self, o: &PlainText) -> (r: bool) {
        self.text == o.text
    }
}

impl vstd::std_specs::cmp::PartialEqSpecImpl for PlainText {
    open spec fn obeys_eq_spec() -> bool {
        true
    }

    open spec fn eq_spec(&self, o: &PlainText) -> bool {
        self.text@ == o.text@
    }
}

impl PartialEq for Link {
    fn eq(&self, o: &Link) -> (r: bool) {
        self.url == o.url
    }
}

impl vstd::std_specs::cmp::PartialEqSpecImpl for Link {
    open spec fn obeys_eq_spec() -> bool {
        true
    }

    open spec fn eq_spec(&self, o: &Link) -> bool {
        self.url@ == o.url@
    }
}

impl View for Token {
    type V = TokenView;

    open spec fn view(&self) -> TokenView {
        match self {
            Token::Header(h) => TokenView::Header(h.level),
            Token::Paragraph(_) => TokenView::Paragraph,
            Token::List(l) => TokenView::List(l.level),
            Token::Code(_) => TokenView::Code,
            Token::PlainText(t) => TokenView::PlainText(t.text@),
            Token::Italic(_) => TokenView::Italic,
            Token::InlineCode(_) => TokenView::InlineCode,
            Token::Link(l) => TokenView::Link(l.url@),
            Token::Bold(_) => TokenView::Bold,
            Token::ListItem(_) => TokenView::ListItem,
        }
    }
}

impl PartialEq for Token {
    fn eq(&self, o: &Token) -> (r: bool) {
        match (self, o) {
            (Token::Header(a), Token::Header(b)) => a.level == b.level,
            (Token::Paragraph(_), Token::Paragraph(_)) => true,
            (Token::List(a), Token::List(b)) => a.level == b.level,
            (Token::Code(_), Token::Code(_)) => true,
            (Token::PlainText(a), Token::PlainText(b)) => a.text == b.text,
            (Token::Italic(_), Token::Italic(_)) => true,
            (Token::InlineCode(_), Token::InlineCode(_)) => true,
            (Token::Link(a), Token::Link(b)) => a.url == b.url,
            (Token::Bold(_), Token::Bold(_)) => true,
            (Token::ListItem(_), Token::ListItem(_)) => true,
            _ => false,
        }
    }
}

impl vstd::std_specs::cmp::PartialEqSpecImpl for Token {
    open spec fn obeys_eq_spec() -> bool {
        true
    }

    open spec fn eq_spec(&self, o: &Token) -> bool {
        self@ == o@
    }
}

impl Leveled for Header {
    open spec fn spec_level(&self) -> u32 {
        self.level
    }

    fn level(&self) -> (r: u32) {
        self.level
    }
}

impl Leveled for List {
    open spec fn spec_level(&self) -> u32 {
        self.level as u32
    }

    fn level(&self) -> (r: u32) {
        self.level as u32
    }
}

impl TextComponent for PlainText {
    open spec fn spec_text(&self) -> Seq<char> {
        self.text@
    }

    fn text(&self) -> (r: String) {
        self.text.clone()
    }
}

/// One block of a document: a tree rooted at a line-consuming token.
pub type MdLine = Tree<Token>;

/// A whole document: its blocks in source order.
pub type MdSyntaxTree = Vec<MdLine>;

} // verus!
