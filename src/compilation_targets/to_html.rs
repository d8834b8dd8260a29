use vstd::prelude::*;

use crate::parser::{line_view, md_spec, node_view, NodeSpec};
use crate::scan::push_char;
use crate::tokens::{Header, Link, MdLine, MdSyntaxTree, PlainText, Token, TokenView};
use crate::tree::{child_lists, walk};

verus! {

broadcast use vstd::string::group_string_axioms;

/// The decimal digit `d`.
pub open spec fn digit(d: nat) -> char {
    if d == 0 {
        '0'
    } else if d == 1 {
        '1'
    } else if d == 2 {
        '2'
    } else if d == 3 {
        '3'
    } else if d == 4 {
        '4'
    } else if d == 5 {
        '5'
    } else if d == 6 {
        '6'
    } else if d == 7 {
        '7'
    } else if d == 8 {
        '8'
    } else {
        '9'
    }
}

/// `n` written in decimal.
pub open spec fn dec(n: nat) -> Seq<char>
    decreases n,
{
    if n < 10 {
        seq![digit(n)]
    } else {
        dec(n / 10).push(digit(n % 10))
    }
}

/// The fragment that opens a token's element.
pub open spec fn open_tag(tok: TokenView) -> Seq<char> {
    match tok {
        TokenView::Header(l) => "<h"@ + dec(l as nat) + ">"@,
        TokenView::Paragraph => "<div>"@,
        TokenView::List(_) => "<ul>"@,
        TokenView::ListItem => "<li>"@,
        TokenView::Code => "<pre>"@,
        TokenView::Bold => "<strong>"@,
        TokenView::Italic => "<i>"@,
        TokenView::InlineCode => "<code>"@,
        TokenView::Link(url) => if url.len() == 0 {
            "<a >"@
        } else {
            "<a href='"@ + url + "'>"@
        },
        TokenView::PlainText(text) => if text.len() == 0 {
            "<br>"@
        } else {
            "<span>"@ + text
        },
    }
}

/// The fragment that closes a token's element.
pub open spec fn close_tag(tok: TokenView) -> Seq<char> {
    match tok {
        TokenView::Header(l) => "</h"@ + dec(l as nat) + ">"@,
        TokenView::Paragraph => "</div>"@,
        TokenView::List(_) => "</ul>"@,
        TokenView::ListItem => "</li>"@,
        TokenView::Code => "</pre>"@,
        TokenView::Bold => "</strong>"@,
        TokenView::Italic => "</i>"@,
        TokenView::InlineCode => "</code>"@,
        TokenView::Link(_) => "</a>"@,
        TokenView::PlainText(text) => if text.len() == 0 {
            Seq::empty()
        } else {
            "</span>"@
        },
    }
}

/// Closing fragments waiting to be emitted, each with the depth of its node;
/// the last entry is the most recently opened.
pub type Pending = Seq<(Seq<char>, int)>;

/// Pops, most recent first, every pending entry recorded at depth `d` or
/// deeper: what they emit and what stays pending.
pub open spec fn close_until(stack: Pending, d: int) -> (Seq<char>, Pending)
    decreases stack.len(),
{
    if stack.len() > 0 && stack.last().1 >= d {
        let rest = close_until(stack.drop_last(), d);
        (stack.last().0 + rest.0, rest.1)
    } else {
        (Seq::empty(), stack)
    }
}

/// Emits every pending entry, most recent first.
pub open spec fn flush(stack: Pending) -> Seq<char>
    decreases stack.len(),
{
    if stack.len() == 0 {
        Seq::empty()
    } else {
        stack.last().0 + flush(stack.drop_last())
    }
}

/// The markup for the nodes at positions `k..` of the visiting order `order`,
/// with `stack` pending: each node first closes what is pending at its depth or
/// deeper, then opens; a node with children leaves its closing fragment pending,
/// a leaf closes at once.
pub open spec fn emit(nodes: Seq<NodeSpec>, order: Seq<usize>, k: int, stack: Pending) -> Seq<char>
    decreases order.len() - k,
{
    if k < 0 || k >= order.len() || order[k] >= nodes.len() {
        flush(stack)
    } else {
        let node = nodes[order[k] as int];
        let cu = close_until(stack, node.2);
        if node.1.len() > 0 {
            cu.0 + open_tag(node.0) + emit(nodes, order, k + 1, cu.1.push((close_tag(node.0), node.2)))
        } else {
            cu.0 + open_tag(node.0) + close_tag(node.0) + emit(nodes, order, k + 1, cu.1)
        }
    }
}

/// Depth-first order of a block's nodes.
pub open spec fn dfs_of(nodes: Seq<NodeSpec>) -> Seq<usize> {
    walk(nodes.map_values(|n: NodeSpec| n.1), seq![0usize], true, nodes.len())
}

/// The markup of one block.
pub open spec fn line_html(nodes: Seq<NodeSpec>) -> Seq<char> {
    emit(nodes, dfs_of(nodes), 0, Seq::empty())
}

/// The markup of a document: its blocks' markup, concatenated in order.
pub open spec fn doc_html(lines: Seq<Seq<NodeSpec>>) -> Seq<char>
    decreases lines.len(),
{
    if lines.len() == 0 {
        Seq::empty()
    } else {
        doc_html(lines.drop_last()) + line_html(lines.last())
    }
}

/// The markup of a document given as source text.
pub open spec fn md_html(s: Seq<char>) -> Seq<char> {
    doc_html(md_spec(s))
}


fn digit_char(d: u32) -> (c: char)
    requires
        d < 10,
    ensures
        c == digit(d as nat),
{
    if d == 0 {
        '0'
    } else if d == 1 {
        '1'
    } else if d == 2 {
        '2'
    } else if d == 3 {
        '3'
    } else if d == 4 {
        '4'
    } else if d == 5 {
        '5'
    } else if d == 6 {
        '6'
    } else if d == 7 {
        '7'
    } else if d == 8 {
        '8'
    } else {
        '9'
    }
}

/// Appends `n` in decimal.
fn push_dec(s: &mut String, n: u32)
    ensures
        final(s)@ == old(s)@ + dec(n as nat),
    decreases n,
{
    if n >= 10 {
        push_dec(s, n / 10);
    }
    push_char(s, digit_char(n % 10));
    proof {
        if n < 10 {
            assert(dec(n as nat) == seq![digit(n as nat)]);
        } else {
            assert(dec(n as nat) == dec((n / 10) as nat).push(digit((n % 10) as nat)));
        }
    }
    assert(s@ =~= old(s)@ + dec(n as nat));
}

impl PlainText {
    /// `<span>` with the text and `</span>`, or a line break when the text is empty.
    pub fn compile(&self) -> (r: (String, String))
        ensures
            r.0@ == open_tag(TokenView::PlainText(self.text@)),
            r.1@ == close_tag(TokenView::PlainText(self.text@)),
    {
        if self.text.as_str().is_empty() {
            ("<br>".to_owned(), String::new())
        } else {
            let mut open = "<span>".to_owned();
            open.append(self.text.as_str());
            (open, "</span>".to_owned())
        }
    }
}

impl Link {
    /// An anchor, with an `href` only when the url is not empty.
    pub fn compile(&self) -> (r: (String, String))
        ensures
            r.0@ == open_tag(TokenView::Link(self.url@)),
            r.1@ == close_tag(TokenView::Link(self.url@)),
    {
        if self.url.as_str().is_empty() {
            ("<a >".to_owned(), "</a>".to_owned())
        } else {
            let mut open = "<a href='".to_owned();
            open.append(self.url.as_str());
            open.append("'>");
            (open, "</a>".to_owned())
        }
    }
}

impl Header {
    /// `<hN>` and `</hN>` for a header of level N.
    pub fn compile(&self) -> (r: (String, String))
        ensures
            r.0@ == open_tag(TokenView::Header(self.level)),
            r.1@ == close_tag(TokenView::Header(self.level)),
    {
        let mut open = "<h".to_owned();
        push_dec(&mut open, self.level);
        open.append(">");
        let mut close = "</h".to_owned();
        push_dec(&mut close, self.level);
        close.append(">");
        (open, close)
    }
}

/// The opening and closing fragments of a token's element.
pub fn compile_token(token: &Token) -> (r: (String, String))
    ensures
        r.0@ == open_tag(token@),
        r.1@ == close_tag(token@),
{
    match token {
        Token::Header(h) => h.compile(),
        Token::Paragraph(_) => ("<div>".to_owned(), "</div>".to_owned()),
        Token::List(_) => ("<ul>".to_owned(), "</ul>".to_owned()),
        Token::ListItem(_) => ("<li>".to_owned(), "</li>".to_owned()),
        Token::Code(_) => ("<pre>".to_owned(), "</pre>".to_owned()),
        Token::Bold(_) => ("<strong>".to_owned(), "</strong>".to_owned()),
        Token::Italic(_) => ("<i>".to_owned(), "</i>".to_owned()),
        Token::InlineCode(_) => ("<code>".to_owned(), "</code>".to_owned()),
        Token::Link(l) => l.compile(),
        Token::PlainText(t) => t.compile(),
    }
}

pub open spec fn pending_view(stack: Seq<(String, usize)>) -> Pending {
    stack.map_values(|e: (String, usize)| (e.0@, e.1 as int))
}

/// Walks one block's tree depth-first and emits its markup, keeping the
/// closing fragments of nodes with children on a stack until a node at the
/// same depth or shallower, or the end, closes them.
pub fn compile_line(line: &MdLine) -> (r: String)
    ensures
        r@ == line_html(line_view(*line)),
{
    let ghost nodes = line_view(*line);
    let ghost order = line.dfs_order();
    proof {
        assert(child_lists(line.nodes()) =~= nodes.map_values(|n: NodeSpec| n.1));
        assert(order == dfs_of(nodes));
    }
    let mut html = String::new();
    let mut stack: Vec<(String, usize)> = Vec::new();
    let mut it = line.nodes_dfs();
    let ghost mut k: int = 0;
    proof {
        assert(order.subrange(0, order.len() as int) =~= order);
        assert(pending_view(stack@) =~= Seq::empty());
        assert(html@ + emit(nodes, order, 0, pending_view(stack@)) =~= line_html(nodes));
        crate::tree::lemma_walk_bounds(child_lists(line.nodes()), seq![0usize], true, line.nodes().len());
    }
    loop
        invariant
            0 <= k <= order.len(),
            it.arena() == line.nodes(),
            it.remaining() == order.subrange(k, order.len() as int),
            forall|m: int| 0 <= m < order.len() ==> #[trigger] order[m] < nodes.len(),
            nodes == line_view(*line),
            order == dfs_of(nodes),
            html@ + emit(nodes, order, k, pending_view(stack@)) == line_html(nodes),
        ensures
            k == order.len(),
            html@ + emit(nodes, order, k, pending_view(stack@)) == line_html(nodes),
        decreases it.remaining().len(),
    {
        let ghost rem = it.remaining();
        match it.next() {
            None => {
                break;
            },
            Some(node) => {
                assert(rem[0] == order[k]);
                let ghost idx = order[k] as int;
                assert(*node == line.nodes()[idx]);
                assert(nodes[idx] == node_view(*node));
                let d = node.level;
                let ghost st0 = pending_view(stack@);
                let ghost h0 = html@;
                while stack.len() > 0 && stack[stack.len() - 1].1 >= d
                    invariant
                        html@ + close_until(pending_view(stack@), d as int).0 == h0 + close_until(
                            st0,
                            d as int,
                        ).0,
                        close_until(pending_view(stack@), d as int).1 == close_until(st0, d as int).1,
                    decreases stack.len(),
                {
                    let ghost sv = pending_view(stack@);
                    let (c, _) = stack.pop().unwrap();
                    assert(pending_view(stack@) =~= sv.drop_last());
                    html.append(c.as_str());
                    assert(html@ + close_until(pending_view(stack@), d as int).0 =~= h0
                        + close_until(st0, d as int).0);
                }
                let (open, close) = compile_token(&node.val);
                html.append(open.as_str());
                let ghost cu = close_until(st0, d as int);
                assert(cu.1 == pending_view(stack@));
                if node.children.len() > 0 {
                    stack.push((close, d));
                    assert(pending_view(stack@) =~= cu.1.push((close_tag(node.val@), d as int)));
                } else {
                    html.append(close.as_str());
                }
                proof {
                    k = k + 1;
                    assert(it.remaining() =~= order.subrange(k, order.len() as int));
                }
                assert(html@ + emit(nodes, order, k, pending_view(stack@)) =~= line_html(nodes));
            },
        }
    }
    while stack.len() > 0
        invariant
            html@ + flush(pending_view(stack@)) == line_html(nodes),
        decreases stack.len(),
    {
        let ghost sv = pending_view(stack@);
        let (c, _) = stack.pop().unwrap();
        assert(pending_view(stack@) =~= sv.drop_last());
        html.append(c.as_str());
        assert(html@ + flush(pending_view(stack@)) =~= line_html(nodes));
    }
    assert(html@ =~= line_html(nodes));
    html
}

/// The markup of a whole document: each block's markup, in order.
pub fn compile_all(input: MdSyntaxTree) -> (r: String)
    ensures
        r@ == doc_html(input@.map_values(|l: MdLine| line_view(l))),
{
    let mut html = String::new();
    let mut i: usize = 0;
    while i < input.len()
        invariant
            i <= input@.len(),
            html@ == doc_html(input@.subrange(0, i as int).map_values(|l: MdLine| line_view(l))),
        decreases input.len() - i,
    {
        let part = compile_line(&input[i]);
        html.append(part.as_str());
        let ghost pre = input@.subrange(0, i as int + 1).map_values(|l: MdLine| line_view(l));
        assert(pre.drop_last() =~= input@.subrange(0, i as int).map_values(|l: MdLine| line_view(l)));
        i = i + 1;
    }
    assert(input@.subrange(0, i as int) =~= input@);
    html
}

/// Parses a document and compiles it to markup.
pub fn compile_md(input: &str) -> (r: String)
    ensures
        r@ == md_html(input@),
{
    let parsed = crate::parser::parse_md_str(input);
    compile_all(parsed)
}

/// One step of a block's markup: the element of a node opened or closed, with
/// the node's arena index and depth.
pub enum Tag {
    Open(int, int),
    Close(int, int),
}

/// The elements still open, as `(node, depth)`, the most recently opened last.
pub type OpenElems = Seq<(int, int)>;

/// The close steps for every open element at depth `d` or deeper, most recent
/// first, and the elements left open.
pub open spec fn close_steps(open: OpenElems, d: int) -> (Seq<Tag>, OpenElems)
    decreases open.len(),
{
    if open.len() > 0 && open.last().1 >= d {
        let rest = close_steps(open.drop_last(), d);
        (seq![Tag::Close(open.last().0, open.last().1)] + rest.0, rest.1)
    } else {
        (Seq::empty(), open)
    }
}

/// The close steps for every open element, most recent first.
pub open spec fn flush_steps(open: OpenElems) -> Seq<Tag>
    decreases open.len(),
{
    if open.len() == 0 {
        Seq::empty()
    } else {
        seq![Tag::Close(open.last().0, open.last().1)] + flush_steps(open.drop_last())
    }
}

/// The steps of the markup for the nodes at positions `k..` of `order`, the
/// same walk as `emit` with elements in place of fragments.
pub open spec fn steps(nodes: Seq<NodeSpec>, order: Seq<usize>, k: int, open: OpenElems) -> Seq<Tag>
    decreases order.len() - k,
{
    if k < 0 || k >= order.len() || order[k] >= nodes.len() {
        flush_steps(open)
    } else {
        let n = order[k] as int;
        let d = nodes[n].2;
        let cu = close_steps(open, d);
        if nodes[n].1.len() > 0 {
            cu.0 + seq![Tag::Open(n, d)] + steps(nodes, order, k + 1, cu.1.push((n, d)))
        } else {
            cu.0 + seq![Tag::Open(n, d), Tag::Close(n, d)] + steps(nodes, order, k + 1, cu.1)
        }
    }
}

/// The steps of one block's markup.
pub open spec fn line_steps(nodes: Seq<NodeSpec>) -> Seq<Tag> {
    steps(nodes, dfs_of(nodes), 0, Seq::empty())
}

/// The fragment that a step writes.
pub open spec fn step_text(nodes: Seq<NodeSpec>, t: Tag) -> Seq<char> {
    match t {
        Tag::Open(n, _) => open_tag(nodes[n].0),
        Tag::Close(n, _) => close_tag(nodes[n].0),
    }
}

/// The fragments of a run of steps, concatenated.
pub open spec fn steps_text(nodes: Seq<NodeSpec>, ts: Seq<Tag>) -> Seq<char>
    decreases ts.len(),
{
    if ts.len() == 0 {
        Seq::empty()
    } else {
        step_text(nodes, ts[0]) + steps_text(nodes, ts.drop_first())
    }
}

/// Replays steps from the open elements `open`: an element may open only
/// inside elements of smaller depth, and only the most recently opened element
/// may close. `None` when a step breaks this.
pub open spec fn replay(ts: Seq<Tag>, open: OpenElems) -> Option<OpenElems>
    decreases ts.len(),
{
    if ts.len() == 0 {
        Some(open)
    } else {
        match ts[0] {
            Tag::Open(n, d) => if open.len() == 0 || open.last().1 < d {
                replay(ts.drop_first(), open.push((n, d)))
            } else {
                None
            },
            Tag::Close(n, d) => if open.len() > 0 && open.last() == (n, d) {
                replay(ts.drop_first(), open.drop_last())
            } else {
                None
            },
        }
    }
}

/// The nodes whose elements the steps open, in order.
pub open spec fn opened(ts: Seq<Tag>) -> Seq<int>
    decreases ts.len(),
{
    if ts.len() == 0 {
        Seq::empty()
    } else {
        match ts[0] {
            Tag::Open(n, _) => seq![n] + opened(ts.drop_first()),
            Tag::Close(_, _) => opened(ts.drop_first()),
        }
    }
}

/// The closing fragments pending for open elements.
pub open spec fn pending_of(nodes: Seq<NodeSpec>, open: OpenElems) -> Pending {
    open.map_values(|e: (int, int)| (close_tag(nodes[e.0].0), e.1))
}

/// Depths strictly increase from the first opened element to the last.
pub open spec fn rising(open: OpenElems) -> bool {
    forall|a: int, b: int| 0 <= a < b < open.len() ==> open[a].1 < open[b].1
}

proof fn lemma_steps_text_concat(nodes: Seq<NodeSpec>, a: Seq<Tag>, b: Seq<Tag>)
    ensures
        steps_text(nodes, a + b) == steps_text(nodes, a) + steps_text(nodes, b),
    decreases a.len(),
{
    if a.len() == 0 {
        assert(a + b =~= b);
    } else {
        assert((a + b).drop_first() =~= a.drop_first() + b);
        lemma_steps_text_concat(nodes, a.drop_first(), b);
    }
}

proof fn lemma_replay_concat(a: Seq<Tag>, b: Seq<Tag>, open: OpenElems)
    ensures
        replay(a + b, open) == (match replay(a, open) {
            Some(o) => replay(b, o),
            None => None,
        }),
    decreases a.len(),
{
    if a.len() == 0 {
        assert(a + b =~= b);
    } else {
        assert((a + b).drop_first() =~= a.drop_first() + b);
        match a[0] {
            Tag::Open(n, d) => {
                lemma_replay_concat(a.drop_first(), b, open.push((n, d)));
            },
            Tag::Close(n, d) => {
                lemma_replay_concat(a.drop_first(), b, open.drop_last());
            },
        }
    }
}

proof fn lemma_opened_concat(a: Seq<Tag>, b: Seq<Tag>)
    ensures
        opened(a + b) == opened(a) + opened(b),
    decreases a.len(),
{
    if a.len() == 0 {
        assert(a + b =~= b);
    } else {
        assert((a + b).drop_first() =~= a.drop_first() + b);
        lemma_opened_concat(a.drop_first(), b);
        assert(opened(a + b) =~= opened(a) + opened(b));
    }
}

proof fn lemma_one_step(nodes: Seq<NodeSpec>, t: Tag, open: OpenElems)
    ensures
        steps_text(nodes, seq![t]) == step_text(nodes, t),
        opened(seq![t]) == (match t {
            Tag::Open(n, _) => seq![n],
            Tag::Close(_, _) => Seq::<int>::empty(),
        }),
        replay(seq![t], open) == (match t {
            Tag::Open(n, d) => if open.len() == 0 || open.last().1 < d {
                Some(open.push((n, d)))
            } else {
                None
            },
            Tag::Close(n, d) => if open.len() > 0 && open.last() == (n, d) {
                Some(open.drop_last())
            } else {
                None
            },
        }),
{
    let s = seq![t];
    assert(s.drop_first() =~= Seq::<Tag>::empty());
    assert(steps_text(nodes, Seq::<Tag>::empty()) == Seq::<char>::empty());
    assert(opened(Seq::<Tag>::empty()) == Seq::<int>::empty());
    assert(step_text(nodes, t) + Seq::<char>::empty() =~= step_text(nodes, t));
    match t {
        Tag::Open(n, d) => {
            assert(replay(Seq::<Tag>::empty(), open.push((n, d))) == Some(open.push((n, d))));
            assert(seq![n] + Seq::<int>::empty() =~= seq![n]);
        },
        Tag::Close(n, d) => {
            assert(replay(Seq::<Tag>::empty(), open.drop_last()) == Some(open.drop_last()));
        },
    }
}

proof fn lemma_close_steps(nodes: Seq<NodeSpec>, open: OpenElems, d: int)
    requires
        rising(open),
    ensures
        ({
            let cs = close_steps(open, d);
            &&& close_until(pending_of(nodes, open), d) == (steps_text(nodes, cs.0), pending_of(nodes, cs.1))
            &&& replay(cs.0, open) == Some(cs.1)
            &&& opened(cs.0) == Seq::<int>::empty()
            &&& rising(cs.1)
            &&& (cs.1.len() == 0 || cs.1.last().1 < d)
        }),
    decreases open.len(),
{
    let cs = close_steps(open, d);
    if open.len() > 0 && open.last().1 >= d {
        let rest = open.drop_last();
        lemma_close_steps(nodes, rest, d);
        let e = open.last();
        assert(pending_of(nodes, open).drop_last() =~= pending_of(nodes, rest));
        assert(pending_of(nodes, open).last() == (close_tag(nodes[e.0].0), e.1));
        let head = seq![Tag::Close(e.0, e.1)];
        let tail = close_steps(rest, d).0;
        assert(cs.0 == head + tail);
        lemma_one_step(nodes, Tag::Close(e.0, e.1), open);
        lemma_steps_text_concat(nodes, head, tail);
        lemma_replay_concat(head, tail, open);
        lemma_opened_concat(head, tail);
        assert(opened(cs.0) =~= Seq::<int>::empty());
        assert(rising(rest));
    } else {
        assert(steps_text(nodes, Seq::<Tag>::empty()) =~= Seq::<char>::empty());
        if open.len() > 0 {
            assert(open.last().1 < d);
        }
    }
}

proof fn lemma_flush_steps(nodes: Seq<NodeSpec>, open: OpenElems)
    ensures
        flush(pending_of(nodes, open)) == steps_text(nodes, flush_steps(open)),
        replay(flush_steps(open), open) == Some(Seq::<(int, int)>::empty()),
        opened(flush_steps(open)) == Seq::<int>::empty(),
    decreases open.len(),
{
    if open.len() > 0 {
        let rest = open.drop_last();
        lemma_flush_steps(nodes, rest);
        let e = open.last();
        assert(pending_of(nodes, open).drop_last() =~= pending_of(nodes, rest));
        let head = seq![Tag::Close(e.0, e.1)];
        let tail = flush_steps(rest);
        lemma_one_step(nodes, Tag::Close(e.0, e.1), open);
        lemma_steps_text_concat(nodes, head, tail);
        lemma_replay_concat(head, tail, open);
        lemma_opened_concat(head, tail);
        assert(opened(flush_steps(open)) =~= Seq::<int>::empty());
    } else {
        assert(open =~= Seq::<(int, int)>::empty());
    }
}

proof fn lemma_steps(nodes: Seq<NodeSpec>, order: Seq<usize>, k: int, open: OpenElems)
    requires
        0 <= k <= order.len(),
        rising(open),
        forall|m: int| 0 <= m < order.len() ==> #[trigger] order[m] < nodes.len(),
    ensures
        emit(nodes, order, k, pending_of(nodes, open)) == steps_text(nodes, steps(nodes, order, k, open)),
        replay(steps(nodes, order, k, open), open) == Some(Seq::<(int, int)>::empty()),
        opened(steps(nodes, order, k, open)) == order.subrange(k, order.len() as int).map_values(
            |i: usize| i as int,
        ),
    decreases order.len() - k,
{
    if k >= order.len() {
        lemma_flush_steps(nodes, open);
        assert(order.subrange(k, order.len() as int).map_values(|i: usize| i as int) =~= Seq::<int>::empty());
    } else {
        let n = order[k] as int;
        let d = nodes[n].2;
        let cs = close_steps(open, d);
        lemma_close_steps(nodes, open, d);
        let tail_order = order.subrange(k + 1, order.len() as int).map_values(|i: usize| i as int);
        assert(order.subrange(k, order.len() as int).map_values(|i: usize| i as int) =~= seq![n]
            + tail_order);
        if nodes[n].1.len() > 0 {
            let o2 = cs.1.push((n, d));
            assert(rising(o2));
            lemma_steps(nodes, order, k + 1, o2);
            assert(pending_of(nodes, o2) =~= pending_of(nodes, cs.1).push((close_tag(nodes[n].0), d)));
            let mid = seq![Tag::Open(n, d)];
            let rest = steps(nodes, order, k + 1, o2);
            lemma_one_step(nodes, Tag::Open(n, d), cs.1);
            lemma_steps_text_concat(nodes, cs.0 + mid, rest);
            lemma_steps_text_concat(nodes, cs.0, mid);
            lemma_replay_concat(cs.0 + mid, rest, open);
            lemma_replay_concat(cs.0, mid, open);
            lemma_opened_concat(cs.0 + mid, rest);
            lemma_opened_concat(cs.0, mid);
        } else {
            lemma_steps(nodes, order, k + 1, cs.1);
            let mid = seq![Tag::Open(n, d), Tag::Close(n, d)];
            let rest = steps(nodes, order, k + 1, cs.1);
            let m1 = seq![Tag::Open(n, d)];
            let m2 = seq![Tag::Close(n, d)];
            assert(mid =~= m1 + m2);
            lemma_one_step(nodes, Tag::Open(n, d), cs.1);
            lemma_one_step(nodes, Tag::Close(n, d), cs.1.push((n, d)));
            lemma_steps_text_concat(nodes, m1, m2);
            lemma_replay_concat(m1, m2, cs.1);
            lemma_opened_concat(m1, m2);
            assert(opened(m2) =~= Seq::<int>::empty());
            assert(opened(mid) =~= seq![n]);
            lemma_steps_text_concat(nodes, cs.0 + mid, rest);
            lemma_steps_text_concat(nodes, cs.0, mid);
            lemma_replay_concat(cs.0 + mid, rest, open);
            lemma_replay_concat(cs.0, mid, open);
            lemma_opened_concat(cs.0 + mid, rest);
            lemma_opened_concat(cs.0, mid);
            assert(cs.1.push((n, d)).drop_last() =~= cs.1);
        }
    }
}

/// The markup of any block is well nested and follows its depth-first order:
/// it is exactly the fragments of a run of open and close steps in which every
/// element opens inside elements of smaller depth only, every close ends the
/// most recently opened element, nothing stays open at the end, and the
/// elements open in depth-first order of their nodes.
pub proof fn lemma_markup_well_nested(nodes: Seq<NodeSpec>)
    ensures
        line_html(nodes) == steps_text(nodes, line_steps(nodes)),
        replay(line_steps(nodes), Seq::empty()) == Some(Seq::<(int, int)>::empty()),
        opened(line_steps(nodes)) == dfs_of(nodes).map_values(|i: usize| i as int),
{
    let order = dfs_of(nodes);
    crate::tree::lemma_walk_bounds(nodes.map_values(|n: NodeSpec| n.1), seq![0usize], true, nodes.len());
    lemma_steps(nodes, order, 0, Seq::empty());
    assert(pending_of(nodes, Seq::empty()) =~= Seq::<(Seq<char>, int)>::empty());
    assert(order.subrange(0, order.len() as int) =~= order);
}

/// Parsing then compiling is a function of the source text alone: equal
/// inputs give equal block trees and equal markup.
pub proof fn lemma_parse_compile_deterministic(a: Seq<char>, b: Seq<char>)
    requires
        a == b,
    ensures
        md_spec(a) == md_spec(b),
        md_html(a) == md_html(b),
        md_html(a) == doc_html(md_spec(a)),
{
}

} // verus!
