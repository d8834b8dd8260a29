use vstd::prelude::*;

use crate::scan::{
    collect_string, find_char, find_char_exec, lemma_find_char, lemma_skip_blanks, line_end,
    next_line, next_line_exec, skip_blanks, skip_blanks_exec,
};
use crate::tokens::{Bold, InlineCode, Italic, Link, List, ListItem, Token, TokenView};

verus! {

/// A token recognised at the start of a window of the text: where its inner
/// text (to be broken into its own children) lies and where scanning resumes.
pub struct Hit {
    pub inner_start: usize,
    pub inner_end: usize,
    pub next: usize,
    pub token: Token,
}

/// `(inner_start, inner_end, next, token)` of a recognised token.
pub type HitSpec = (int, int, int, TokenView);

pub open spec fn hit_view(h: Option<Hit>) -> Option<HitSpec> {
    match h {
        Some(h) => Some((h.inner_start as int, h.inner_end as int, h.next as int, h.token@)),
        None => None,
    }
}

/// A hit found at `i` in the window `[i, e)` keeps its inner text inside what it
/// consumed, and consumes at least one character.
pub open spec fn hit_in(h: Option<HitSpec>, i: int, e: int) -> bool {
    h matches Some(x) ==> i <= x.0 <= x.1 <= x.2 <= e && i < x.2
}

/// The parsers that may recognise a token's children.
#[derive(PartialEq, Eq, Structural, Clone, Copy, Debug)]
pub enum ChildParser {
    Italic,
    Bold,
    Link,
    InlineCode,
    List,
    ListItem,
}

/// A recogniser of one kind of token at position `i` of a parent's text, which
/// ends at `e`; `depth` is where a recognised token would stand in the tree.
pub trait Parse {
    spec fn spec_parse(t: Seq<char>, i: int, e: int, depth: int) -> Option<HitSpec>;

    fn parse(t: &Vec<char>, i: usize, e: usize, depth: usize) -> (r: Option<Hit>)
        requires
            i <= e <= t@.len(),
        ensures
            hit_view(r) == Self::spec_parse(t@, i as int, e as int, depth as int),
    ;
}

/// `*inner*`, with a nonempty inner text free of `*`.
pub open spec fn italic_spec(t: Seq<char>, i: int, e: int) -> Option<HitSpec> {
    if i < e && t[i] == '*' {
        let j = find_char(t, i + 1, e, '*');
        if i + 1 < j < e {
            Some((i + 1, j, j + 1, TokenView::Italic))
        } else {
            None
        }
    } else {
        None
    }
}

/// `**inner**`, with an inner text free of `*`.
pub open spec fn bold_spec(t: Seq<char>, i: int, e: int) -> Option<HitSpec> {
    if i + 1 < e && t[i] == '*' && t[i + 1] == '*' {
        let j = find_char(t, i + 2, e, '*');
        if j + 1 < e && t[j + 1] == '*' {
            Some((i + 2, j, j + 2, TokenView::Bold))
        } else {
            None
        }
    } else {
        None
    }
}

/// `[caption](url)`: the caption is the inner text, the url is kept in the token.
pub open spec fn link_spec(t: Seq<char>, i: int, e: int) -> Option<HitSpec> {
    if i < e && t[i] == '[' {
        let j = find_char(t, i + 1, e, ']');
        if e - j > 1 && t[j + 1] == '(' {
            let k = find_char(t, j + 2, e, ')');
            if k < e {
                Some((i + 1, j, k + 1, TokenView::Link(t.subrange(j + 2, k))))
            } else {
                None
            }
        } else {
            None
        }
    } else {
        None
    }
}

/// `` `inner` ``, with an inner text free of backticks.
pub open spec fn inline_code_spec(t: Seq<char>, i: int, e: int) -> Option<HitSpec> {
    if i < e && t[i] == '`' {
        let j = find_char(t, i + 1, e, '`');
        if j < e {
            Some((i + 1, j, j + 1, TokenView::InlineCode))
        } else {
            None
        }
    } else {
        None
    }
}

/// Blanks, `- `, then the rest of the line (which must not be empty input).
pub open spec fn list_item_spec(t: Seq<char>, i: int, e: int) -> Option<HitSpec> {
    let w = skip_blanks(t, i, e);
    if w + 2 < e && t[w] == '-' && t[w + 1] == ' ' {
        Some((w + 2, line_end(t, w + 2, e), next_line(t, w + 2, e), TokenView::ListItem))
    } else {
        None
    }
}

/// The line starting at `i` is a list item indented by at least `depth` blanks.
pub open spec fn item_line(t: Seq<char>, i: int, e: int, depth: int) -> bool {
    let w = skip_blanks(t, i, e);
    &&& w - i >= depth
    &&& w + 1 < e
    &&& t[w] == '-'
    &&& t[w + 1] == ' '
}

/// The end of the run of item lines, indented by at least `depth`, that starts
/// with the line at `i`.
pub open spec fn list_end(t: Seq<char>, i: int, e: int, depth: int) -> int
    decreases e - i,
{
    let nl = next_line(t, i, e);
    if i < nl < e && item_line(t, nl, e, depth) {
        list_end(t, nl, e, depth)
    } else {
        nl
    }
}

/// A run of item lines indented by at least `depth`, ended by the end of the
/// window or by a line that is not such an item (a blank line, other text, or
/// an item indented less).
pub open spec fn list_spec(t: Seq<char>, i: int, e: int, depth: int) -> Option<HitSpec> {
    if item_line(t, i, e, depth) && depth <= usize::MAX {
        let end = list_end(t, i, e, depth);
        Some((i, end, end, TokenView::List(depth as usize)))
    } else {
        None
    }
}

/// `lead` says that `i` is where the parent's text begins: a nested list never
/// begins there, since a list's first line is one of its own items.
pub open spec fn run_spec(p: ChildParser, t: Seq<char>, i: int, e: int, depth: int, lead: bool) -> Option<
    HitSpec,
> {
    match p {
        ChildParser::Italic => italic_spec(t, i, e),
        ChildParser::Bold => bold_spec(t, i, e),
        ChildParser::Link => link_spec(t, i, e),
        ChildParser::InlineCode => inline_code_spec(t, i, e),
        ChildParser::List => if lead {
            None
        } else {
            list_spec(t, i, e, depth)
        },
        ChildParser::ListItem => list_item_spec(t, i, e),
    }
}

/// The first of `ps[k..]` that recognises a token at `i`.
pub open spec fn first_hit(ps: Seq<ChildParser>, k: int, t: Seq<char>, i: int, e: int, depth: int, lead: bool) -> Option<
    HitSpec,
>
    decreases ps.len() - k,
{
    if k >= ps.len() || k < 0 {
        None
    } else {
        match run_spec(ps[k], t, i, e, depth, lead) {
            Some(h) => Some(h),
            None => first_hit(ps, k + 1, t, i, e, depth, lead),
        }
    }
}

/// Which parsers may recognise the children of a token, in priority order.
pub open spec fn child_kinds(tok: TokenView) -> Seq<ChildParser> {
    match tok {
        TokenView::Header(_) | TokenView::Paragraph | TokenView::ListItem => seq![
            ChildParser::Italic,
            ChildParser::Bold,
            ChildParser::Link,
            ChildParser::InlineCode,
        ],
        TokenView::List(_) => seq![ChildParser::List, ChildParser::ListItem],
        TokenView::Link(_) | TokenView::InlineCode => seq![ChildParser::Italic, ChildParser::Bold],
        TokenView::Bold => seq![ChildParser::Italic, ChildParser::Link],
        TokenView::Italic => seq![ChildParser::Bold, ChildParser::Link],
        _ => seq![],
    }
}

pub proof fn lemma_list_end(t: Seq<char>, i: int, e: int, depth: int)
    requires
        0 <= i < e <= t.len(),
    ensures
        i < list_end(t, i, e, depth) <= e,
    decreases e - i,
{
    let le = line_end(t, i, e);
    lemma_find_char(t, i, e, '\n');
    let nl = next_line(t, i, e);
    if i < nl < e && item_line(t, nl, e, depth) {
        lemma_list_end(t, nl, e, depth);
    }
}

pub proof fn lemma_run_in(p: ChildParser, t: Seq<char>, i: int, e: int, depth: int, lead: bool)
    requires
        0 <= i <= e <= t.len(),
    ensures
        hit_in(run_spec(p, t, i, e, depth, lead), i, e),
{
    match p {
        ChildParser::Italic => {
            if i < e {
                lemma_find_char(t, i + 1, e, '*');
            }
        },
        ChildParser::Bold => {
            if i + 2 <= e {
                lemma_find_char(t, i + 2, e, '*');
            }
        },
        ChildParser::Link => {
            if i < e {
                lemma_find_char(t, i + 1, e, ']');
                let j = find_char(t, i + 1, e, ']');
                if j + 2 <= e {
                    lemma_find_char(t, j + 2, e, ')');
                }
            }
        },
        ChildParser::InlineCode => {
            if i < e {
                lemma_find_char(t, i + 1, e, '`');
            }
        },
        ChildParser::List => {
            lemma_skip_blanks(t, i, e);
            if item_line(t, i, e, depth) {
                lemma_list_end(t, i, e, depth);
            }
        },
        ChildParser::ListItem => {
            lemma_skip_blanks(t, i, e);
            let w = skip_blanks(t, i, e);
            if w + 2 < e {
                lemma_find_char(t, w + 2, e, '\n');
            }
        },
    }
}

pub proof fn lemma_first_hit_in(ps: Seq<ChildParser>, k: int, t: Seq<char>, i: int, e: int, depth: int, lead: bool)
    requires
        0 <= i <= e <= t.len(),
    ensures
        hit_in(first_hit(ps, k, t, i, e, depth, lead), i, e),
    decreases ps.len() - k,
{
    if 0 <= k < ps.len() {
        lemma_run_in(ps[k], t, i, e, depth, lead);
        lemma_first_hit_in(ps, k + 1, t, i, e, depth, lead);
    }
}

impl Parse for Italic {
    open spec fn spec_parse(t: Seq<char>, i: int, e: int, depth: int) -> Option<HitSpec> {
        italic_spec(t, i, e)
    }

    fn parse(t: &Vec<char>, i: usize, e: usize, _depth: usize) -> (r: Option<Hit>) {
        if i < e && t[i] == '*' {
            let j = find_char_exec(t, i + 1, e, '*');
            if i + 1 < j && j < e {
                return Some(Hit { inner_start: i + 1, inner_end: j, next: j + 1, token: Token::Italic(Italic {}) });
            }
        }
        None
    }
}

impl Parse for Bold {
    open spec fn spec_parse(t: Seq<char>, i: int, e: int, depth: int) -> Option<HitSpec> {
        bold_spec(t, i, e)
    }

    fn parse(t: &Vec<char>, i: usize, e: usize, _depth: usize) -> (r: Option<Hit>) {
        if e - i > 1 && t[i] == '*' && t[i + 1] == '*' {
            let j = find_char_exec(t, i + 2, e, '*');
            if e - j > 1 && t[j + 1] == '*' {
                return Some(Hit { inner_start: i + 2, inner_end: j, next: j + 2, token: Token::Bold(Bold {}) });
            }
        }
        None
    }
}

impl Parse for Link {
    open spec fn spec_parse(t: Seq<char>, i: int, e: int, depth: int) -> Option<HitSpec> {
        link_spec(t, i, e)
    }

    fn parse(t: &Vec<char>, i: usize, e: usize, _depth: usize) -> (r: Option<Hit>) {
        if i < e && t[i] == '[' {
            let j = find_char_exec(t, i + 1, e, ']');
            if e - j > 1 && t[j + 1] == '(' {
                let k = find_char_exec(t, j + 2, e, ')');
                if k < e {
                    let url = collect_string(t, j + 2, k);
                    return Some(Hit { inner_start: i + 1, inner_end: j, next: k + 1, token: Token::Link(Link { url }) });
                }
            }
        }
        None
    }
}

impl Parse for InlineCode {
    open spec fn spec_parse(t: Seq<char>, i: int, e: int, depth: int) -> Option<HitSpec> {
        inline_code_spec(t, i, e)
    }

    fn parse(t: &Vec<char>, i: usize, e: usize, _depth: usize) -> (r: Option<Hit>) {
        if i < e && t[i] == '`' {
            let j = find_char_exec(t, i + 1, e, '`');
            if j < e {
                return Some(Hit { inner_start: i + 1, inner_end: j, next: j + 1, token: Token::InlineCode(InlineCode {}) });
            }
        }
        None
    }
}

impl Parse for ListItem {
    open spec fn spec_parse(t: Seq<char>, i: int, e: int, depth: int) -> Option<HitSpec> {
        list_item_spec(t, i, e)
    }

    fn parse(t: &Vec<char>, i: usize, e: usize, _depth: usize) -> (r: Option<Hit>) {
        let w = skip_blanks_exec(t, i, e);
        if e - w > 2 && t[w] == '-' && t[w + 1] == ' ' {
            let (le, nl) = next_line_exec(t, w + 2, e);
            return Some(Hit { inner_start: w + 2, inner_end: le, next: nl, token: Token::ListItem(ListItem {}) });
        }
        None
    }
}

fn is_item_line(t: &Vec<char>, i: usize, e: usize, depth: usize) -> (r: bool)
    requires
        i <= e <= t@.len(),
    ensures
        r == item_line(t@, i as int, e as int, depth as int),
{
    let w = skip_blanks_exec(t, i, e);
    w - i >= depth && e - w > 1 && t[w] == '-' && t[w + 1] == ' '
}

impl Parse for List {
    open spec fn spec_parse(t: Seq<char>, i: int, e: int, depth: int) -> Option<HitSpec> {
        list_spec(t, i, e, depth)
    }

    fn parse(t: &Vec<char>, i: usize, e: usize, depth: usize) -> (r: Option<Hit>) {
        if !is_item_line(t, i, e, depth) {
            return None;
        }
        let mut cur = i;
        proof {
            lemma_skip_blanks(t@, i as int, e as int);
        }
        loop
            invariant
                i <= cur < e <= t@.len(),
                item_line(t@, i as int, e as int, depth as int),
                list_end(t@, cur as int, e as int, depth as int) == list_end(
                    t@,
                    i as int,
                    e as int,
                    depth as int,
                ),
            decreases e - cur,
        {
            let (_, nl) = next_line_exec(t, cur, e);
            if nl < e && is_item_line(t, nl, e, depth) {
                cur = nl;
            } else {
                return Some(Hit { inner_start: i, inner_end: nl, next: nl, token: Token::List(List { level: depth }) });
            }
        }
    }
}

/// Runs one child parser at `i`.
pub fn run_parser(p: ChildParser, t: &Vec<char>, i: usize, e: usize, depth: usize, lead: bool) -> (r: Option<Hit>)
    requires
        i <= e <= t@.len(),
    ensures
        hit_view(r) == run_spec(p, t@, i as int, e as int, depth as int, lead),
        hit_in(hit_view(r), i as int, e as int),
{
    proof {
        lemma_run_in(p, t@, i as int, e as int, depth as int, lead);
    }
    match p {
        ChildParser::Italic => Italic::parse(t, i, e, depth),
        ChildParser::Bold => Bold::parse(t, i, e, depth),
        ChildParser::Link => Link::parse(t, i, e, depth),
        ChildParser::InlineCode => InlineCode::parse(t, i, e, depth),
        ChildParser::List => if lead {
            None
        } else {
            List::parse(t, i, e, depth)
        },
        ChildParser::ListItem => ListItem::parse(t, i, e, depth),
    }
}

/// Tries the parsers of `ps` in order at `i` and keeps the first hit.
pub fn try_all_parsers(ps: &Vec<ChildParser>, t: &Vec<char>, i: usize, e: usize, depth: usize, lead: bool) -> (r:
    Option<Hit>)
    requires
        i <= e <= t@.len(),
    ensures
        hit_view(r) == first_hit(ps@, 0, t@, i as int, e as int, depth as int, lead),
        hit_in(hit_view(r), i as int, e as int),
{
    proof {
        lemma_first_hit_in(ps@, 0, t@, i as int, e as int, depth as int, lead);
    }
    let mut k: usize = 0;
    while k < ps.len()
        invariant
            k <= ps@.len(),
            i <= e <= t@.len(),
            first_hit(ps@, k as int, t@, i as int, e as int, depth as int, lead) == first_hit(
                ps@,
                0,
                t@,
                i as int,
                e as int,
                depth as int,
                lead,
            ),
        decreases ps.len() - k,
    {
        let h = run_parser(ps[k], t, i, e, depth, lead);
        if h.is_some() {
            return h;
        }
        k = k + 1;
    }
    None
}

} // verus!
