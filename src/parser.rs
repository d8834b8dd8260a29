use std::collections::VecDeque;
use vstd::prelude::*;

use crate::inline::{
    child_kinds, first_hit, hit_in, hit_view, lemma_first_hit_in, lemma_list_end, list_spec,
    try_all_parsers, ChildParser, Hit, HitSpec, Parse,
};
use crate::scan::{
    lemma_find_char, lemma_skip_blanks, lemma_skip_char, line_end, next_line,
    next_line_exec, skip_char, skip_char_exec, collect_string,
};
use crate::tokens::{Code, Header, List, MdLine, MdSyntaxTree, Paragraph, PlainText, Token, TokenView};
use crate::tree::{child_appended, Node, Tree, TreeIndex};

verus! {

/// A child found while scanning a parent's text: the window of its own inner
/// text and its token.
pub struct Child {
    pub inner_start: usize,
    pub inner_end: usize,
    pub token: Token,
}

/// `(inner_start, inner_end, token)` of a child.
pub type ChildSpec = (int, int, TokenView);

pub open spec fn child_view(c: Child) -> ChildSpec {
    (c.inner_start as int, c.inner_end as int, c.token@)
}

/// The first position in `[p, e)` where one of `ps` recognises a token, or `e`.
pub open spec fn plain_end(ps: Seq<ChildParser>, t: Seq<char>, p: int, e: int, depth: int) -> int
    decreases e - p,
{
    if p >= e {
        e
    } else if first_hit(ps, 0, t, p, e, depth, false) is Some {
        p
    } else {
        plain_end(ps, t, p + 1, e, depth)
    }
}

pub proof fn lemma_plain_end(ps: Seq<ChildParser>, t: Seq<char>, p: int, e: int, depth: int)
    requires
        p <= e,
    ensures
        p <= plain_end(ps, t, p, e, depth) <= e,
    decreases e - p,
{
    if p < e && first_hit(ps, 0, t, p, e, depth, false) is None {
        lemma_plain_end(ps, t, p + 1, e, depth);
    }
}

/// The children found in the window `[i, e)` by the parsers `ps`: each token
/// recognised where scanning stands, and each run of text before the next
/// recognised token as plain text. `lead` says that `i` begins the parent's text.
pub open spec fn scan_from(ps: Seq<ChildParser>, t: Seq<char>, i: int, e: int, depth: int, lead: bool) -> Seq<
    ChildSpec,
>
    decreases e - i,
    via scan_decreases
{
    if i >= e || i < 0 || e > t.len() {
        Seq::empty()
    } else {
        match first_hit(ps, 0, t, i, e, depth, lead) {
            Some(h) => seq![(h.0, h.1, h.3)] + scan_from(ps, t, h.2, e, depth, false),
            None => {
                let p = plain_end(ps, t, i + 1, e, depth);
                seq![(p, p, TokenView::PlainText(t.subrange(i, p)))] + scan_from(ps, t, p, e, depth, false)
            },
        }
    }
}

#[via_fn]
proof fn scan_decreases(ps: Seq<ChildParser>, t: Seq<char>, i: int, e: int, depth: int, lead: bool) {
    if !(i >= e || i < 0 || e > t.len()) {
        lemma_first_hit_in(ps, 0, t, i, e, depth, lead);
        lemma_plain_end(ps, t, i + 1, e, depth);
    }
}

/// The children of the text in the window `[i, e)`.
pub open spec fn scan(ps: Seq<ChildParser>, t: Seq<char>, i: int, e: int, depth: int) -> Seq<ChildSpec> {
    scan_from(ps, t, i, e, depth, true)
}

/// Every child found in `[i, e)` has its inner window inside `[i, e)`.
pub proof fn lemma_scan_from_in(ps: Seq<ChildParser>, t: Seq<char>, i: int, e: int, depth: int, lead: bool)
    ensures
        forall|k: int|
            0 <= k < scan_from(ps, t, i, e, depth, lead).len() ==> {
                let c = #[trigger] scan_from(ps, t, i, e, depth, lead)[k];
                i <= c.0 <= c.1 <= e <= t.len()
            },
    decreases e - i,
{
    if !(i >= e || i < 0 || e > t.len()) {
        lemma_first_hit_in(ps, 0, t, i, e, depth, lead);
        lemma_plain_end(ps, t, i + 1, e, depth);
        let next = match first_hit(ps, 0, t, i, e, depth, lead) {
            Some(h) => h.2,
            None => plain_end(ps, t, i + 1, e, depth),
        };
        lemma_scan_from_in(ps, t, next, e, depth, false);
        let rest = scan_from(ps, t, next, e, depth, false);
        assert forall|k: int| 0 <= k < scan_from(ps, t, i, e, depth, lead).len() implies {
            let c = #[trigger] scan_from(ps, t, i, e, depth, lead)[k];
            i <= c.0 <= c.1 <= e <= t.len()
        } by {
            if k > 0 {
                assert(scan_from(ps, t, i, e, depth, lead)[k] == rest[k - 1]);
            }
        }
    }
}

pub proof fn lemma_scan_in(ps: Seq<ChildParser>, t: Seq<char>, i: int, e: int, depth: int)
    ensures
        forall|k: int|
            0 <= k < scan(ps, t, i, e, depth).len() ==> {
                let c = #[trigger] scan(ps, t, i, e, depth)[k];
                i <= c.0 <= c.1 <= e <= t.len()
            },
{
    lemma_scan_from_in(ps, t, i, e, depth, true);
}

/// Breaks the window `[i, e)` into children with the parsers `ps`.
pub fn parse_children(ps: &Vec<ChildParser>, t: &Vec<char>, i: usize, e: usize, depth: usize) -> (r:
    Vec<Child>)
    requires
        i <= e <= t@.len(),
    ensures
        r@.map_values(|c: Child| child_view(c)) == scan(ps@, t@, i as int, e as int, depth as int),
{
    let mut out: Vec<Child> = Vec::new();
    let mut cur = i;
    while cur < e
        invariant
            i <= cur <= e <= t@.len(),
            out@.map_values(|c: Child| child_view(c)) + scan_from(
                ps@,
                t@,
                cur as int,
                e as int,
                depth as int,
                cur == i,
            ) == scan(ps@, t@, i as int, e as int, depth as int),
        decreases e - cur,
    {
        let ghost before = out@.map_values(|c: Child| child_view(c));
        match try_all_parsers(ps, t, cur, e, depth, cur == i) {
            Some(h) => {
                out.push(Child { inner_start: h.inner_start, inner_end: h.inner_end, token: h.token });
                assert(out@.map_values(|c: Child| child_view(c)) =~= before.push(
                    (h.inner_start as int, h.inner_end as int, h.token@),
                ));
                cur = h.next;
            },
            None => {
                let mut p = cur + 1;
                proof {
                    lemma_plain_end(ps@, t@, p as int, e as int, depth as int);
                }
                while p < e && try_all_parsers(ps, t, p, e, depth, false).is_none()
                    invariant
                        cur < p <= e <= t@.len(),
                        plain_end(ps@, t@, p as int, e as int, depth as int) == plain_end(
                            ps@,
                            t@,
                            cur + 1,
                            e as int,
                            depth as int,
                        ),
                    decreases e - p,
                {
                    p = p + 1;
                }
                let text = collect_string(t, cur, p);
                out.push(Child { inner_start: p, inner_end: p, token: Token::PlainText(PlainText { text }) });
                assert(out@.map_values(|c: Child| child_view(c)) =~= before.push(
                    (p as int, p as int, TokenView::PlainText(t@.subrange(cur as int, p as int))),
                ));
                cur = p;
            },
        }
        proof {
            let s = scan(ps@, t@, i as int, e as int, depth as int);
            assert(out@.map_values(|c: Child| child_view(c)) + scan_from(
                ps@,
                t@,
                cur as int,
                e as int,
                depth as int,
                cur == i,
            ) =~= s);
        }
    }
    assert(out@.map_values(|c: Child| child_view(c)) =~= out@.map_values(|c: Child| child_view(c))
        + scan_from(ps@, t@, cur as int, e as int, depth as int, cur == i));
    out
}


/// A token's table of the parsers that may recognise its direct children.
pub trait HigherLevel {
    spec fn spec_child_parsers(&self) -> Seq<ChildParser>;

    fn child_parsers(&self) -> (r: Vec<ChildParser>)
        ensures
            r@ == self.spec_child_parsers(),
    ;
}

impl HigherLevel for Token {
    open spec fn spec_child_parsers(&self) -> Seq<ChildParser> {
        child_kinds(self@)
    }

    fn child_parsers(&self) -> (r: Vec<ChildParser>) {
        let r = match self {
            Token::Header(_) | Token::Paragraph(_) | Token::ListItem(_) => vec![
                ChildParser::Italic,
                ChildParser::Bold,
                ChildParser::Link,
                ChildParser::InlineCode,
            ],
            Token::List(_) => vec![ChildParser::List, ChildParser::ListItem],
            Token::Link(_) | Token::InlineCode(_) => vec![ChildParser::Italic, ChildParser::Bold],
            Token::Bold(_) => vec![ChildParser::Italic, ChildParser::Link],
            Token::Italic(_) => vec![ChildParser::Bold, ChildParser::Link],
            _ => vec![],
        };
        assert(r@ =~= child_kinds(self@));
        r
    }
}

// Line-consuming parsers. Each claims whole lines starting at `i` and hands
// back the window that its children are parsed from.

/// A recogniser of one kind of block: it claims whole lines starting at `i`.
pub trait LineConsumingParse {
    spec fn spec_parse_lines(t: Seq<char>, i: int) -> Option<HitSpec>;

    fn parse_lines(t: &Vec<char>, i: usize) -> (r: Option<Hit>)
        requires
            i <= t@.len(),
        ensures
            hit_view(r) == Self::spec_parse_lines(t@, i as int),
    ;
}

/// Three backticks start at `j`.
pub open spec fn fence_at(t: Seq<char>, j: int, e: int) -> bool {
    0 <= j && j + 2 < e && t[j] == '`' && t[j + 1] == '`' && t[j + 2] == '`'
}

/// The first position in `[from, e)` where three backticks start, or `e`.
pub open spec fn find_fence(t: Seq<char>, from: int, e: int) -> int
    decreases e - from,
{
    if from >= e {
        e
    } else if fence_at(t, from, e) {
        from
    } else {
        find_fence(t, from + 1, e)
    }
}

pub proof fn lemma_find_fence(t: Seq<char>, from: int, e: int)
    requires
        from <= e,
    ensures
        from <= find_fence(t, from, e) <= e,
        find_fence(t, from, e) < e ==> fence_at(t, find_fence(t, from, e), e),
    decreases e - from,
{
    if from < e && !fence_at(t, from, e) {
        lemma_find_fence(t, from + 1, e);
    }
}

/// A fenced block: three backticks, the inner text, three backticks.
pub open spec fn code_block_spec(t: Seq<char>, i: int, e: int) -> Option<HitSpec> {
    if fence_at(t, i, e) {
        let j = find_fence(t, i + 3, e);
        if j < e {
            Some((i + 3, j, j + 3, TokenView::Code))
        } else {
            None
        }
    } else {
        None
    }
}

/// One to `u32::MAX` `#` signs and a space open a header line; the rest of the
/// line is its text.
pub open spec fn header_spec(t: Seq<char>, i: int, e: int) -> Option<HitSpec> {
    if i < e {
        let le = line_end(t, i, e);
        let h = skip_char(t, i, le, '#');
        if i < h < le && t[h] == ' ' && h - i <= u32::MAX {
            Some((h + 1, le, next_line(t, i, e), TokenView::Header((h - i) as u32)))
        } else {
            None
        }
    } else {
        None
    }
}

/// Any nonempty rest of the input: one line of text.
pub open spec fn paragraph_spec(t: Seq<char>, i: int, e: int) -> Option<HitSpec> {
    if i < e {
        Some((i, line_end(t, i, e), next_line(t, i, e), TokenView::Paragraph))
    } else {
        None
    }
}

/// The block at `i`: a fenced code block, a list, a header or a paragraph, in
/// that order of priority.
pub open spec fn block_spec(t: Seq<char>, i: int, e: int) -> Option<HitSpec> {
    if code_block_spec(t, i, e) is Some {
        code_block_spec(t, i, e)
    } else if list_spec(t, i, e, 0) is Some {
        list_spec(t, i, e, 0)
    } else if header_spec(t, i, e) is Some {
        header_spec(t, i, e)
    } else {
        paragraph_spec(t, i, e)
    }
}

pub proof fn lemma_block_in(t: Seq<char>, i: int, e: int)
    requires
        0 <= i <= e <= t.len(),
    ensures
        hit_in(block_spec(t, i, e), i, e),
        i < e <= t.len() ==> block_spec(t, i, e) is Some,
{
    if i + 3 <= e {
        lemma_find_fence(t, i + 3, e);
    }
    lemma_skip_blanks(t, i, e);
    if i < e {
        lemma_list_end(t, i, e, 0);
        lemma_find_char(t, i, e, '\n');
        lemma_skip_char(t, i, line_end(t, i, e), '#');
    }
}

impl LineConsumingParse for Code {
    open spec fn spec_parse_lines(t: Seq<char>, i: int) -> Option<HitSpec> {
        code_block_spec(t, i, t.len() as int)
    }

    fn parse_lines(t: &Vec<char>, i: usize) -> (r: Option<Hit>) {
        let e = t.len();
        if e - i > 2 && t[i] == '`' && t[i + 1] == '`' && t[i + 2] == '`' {
            let mut j = i + 3;
            proof {
                lemma_find_fence(t@, j as int, e as int);
            }
            while j < e && !(e - j > 2 && t[j] == '`' && t[j + 1] == '`' && t[j + 2] == '`')
                invariant
                    i + 3 <= j <= e <= t@.len(),
                    find_fence(t@, j as int, e as int) == find_fence(t@, i + 3, e as int),
                decreases e - j,
            {
                j = j + 1;
            }
            if j < e {
                return Some(Hit { inner_start: i + 3, inner_end: j, next: j + 3, token: Token::Code(Code {}) });
            }
        }
        None
    }
}

impl LineConsumingParse for Header {
    open spec fn spec_parse_lines(t: Seq<char>, i: int) -> Option<HitSpec> {
        header_spec(t, i, t.len() as int)
    }

    fn parse_lines(t: &Vec<char>, i: usize) -> (r: Option<Hit>) {
        let e = t.len();
        if i < e {
            let (le, nl) = next_line_exec(t, i, e);
            let h = skip_char_exec(t, i, le, '#');
            if i < h && h < le && t[h] == ' ' && h - i <= 0xffff_ffffusize {
                let level = (h - i) as u32;
                return Some(Hit { inner_start: h + 1, inner_end: le, next: nl, token: Token::Header(Header { level }) });
            }
        }
        None
    }
}

impl LineConsumingParse for Paragraph {
    open spec fn spec_parse_lines(t: Seq<char>, i: int) -> Option<HitSpec> {
        paragraph_spec(t, i, t.len() as int)
    }

    fn parse_lines(t: &Vec<char>, i: usize) -> (r: Option<Hit>) {
        let e = t.len();
        if i < e {
            let (le, nl) = next_line_exec(t, i, e);
            return Some(Hit { inner_start: i, inner_end: le, next: nl, token: Token::Paragraph(Paragraph {}) });
        }
        None
    }
}

impl LineConsumingParse for List {
    open spec fn spec_parse_lines(t: Seq<char>, i: int) -> Option<HitSpec> {
        list_spec(t, i, t.len() as int, 0)
    }

    fn parse_lines(t: &Vec<char>, i: usize) -> (r: Option<Hit>) {
        List::parse(t, i, t.len(), 0)
    }
}

/// Matches exactly one line-consuming parser at `i`.
pub fn parse_line_consuming_token(t: &Vec<char>, i: usize) -> (r: Option<Hit>)
    requires
        i <= t@.len(),
    ensures
        hit_view(r) == block_spec(t@, i as int, t@.len() as int),
        hit_in(hit_view(r), i as int, t@.len() as int),
        r is None <==> i == t@.len(),
{
    proof {
        lemma_block_in(t@, i as int, t@.len() as int);
    }
    let code = Code::parse_lines(t, i);
    if code.is_some() {
        return code;
    }
    let list = List::parse_lines(t, i);
    if list.is_some() {
        return list;
    }
    let header = Header::parse_lines(t, i);
    if header.is_some() {
        return header;
    }
    Paragraph::parse_lines(t, i)
}


/// A child waiting to be attached to the tree under the node at `parent`.
pub struct Entry {
    pub parent: usize,
    pub inner_start: usize,
    pub inner_end: usize,
    pub token: Token,
}

/// `(parent, inner_start, inner_end, token)` of a waiting child.
pub type EntrySpec = (int, int, int, TokenView);

/// `(token, children, level)` of a tree node.
pub type NodeSpec = (TokenView, Seq<usize>, int);

pub open spec fn entry_view(x: Entry) -> EntrySpec {
    (x.parent as int, x.inner_start as int, x.inner_end as int, x.token@)
}

pub open spec fn node_view(n: Node<Token>) -> NodeSpec {
    (n.val@, n.children@, n.level as int)
}

/// The nodes of a block's tree, in arena order.
pub open spec fn line_view(tree: MdLine) -> Seq<NodeSpec> {
    tree.nodes().map_values(|n: Node<Token>| node_view(n))
}

pub open spec fn entries_of(parent: int, kids: Seq<ChildSpec>) -> Seq<EntrySpec> {
    kids.map_values(|c: ChildSpec| (parent, c.0, c.1, c.2))
}

/// Breadth-first growth of a block's tree: the first waiting child becomes the
/// last child of its parent, and the children found in its own inner text, with
/// its own table of parsers, wait at the back of the queue. Growth ends when
/// nothing waits (or, never reached in practice, when the arena would no
/// longer be indexable by `usize`).
pub open spec fn expand(t: Seq<char>, nodes: Seq<NodeSpec>, queue: Seq<EntrySpec>) -> Seq<NodeSpec>
    decreases usize::MAX - nodes.len(),
{
    if queue.len() == 0 || nodes.len() + 1 >= usize::MAX {
        nodes
    } else {
        let p = queue[0].0;
        let tok = queue[0].3;
        if !(0 <= p < nodes.len()) {
            nodes
        } else {
            let n = nodes.len();
            let level = nodes[p].2 + 1;
            let grown = nodes.update(p, (nodes[p].0, nodes[p].1.push(n as usize), nodes[p].2)).push(
                (tok, Seq::empty(), level),
            );
            let kids = scan(child_kinds(tok), t, queue[0].1, queue[0].2, level + 1);
            expand(t, grown, queue.drop_first() + entries_of(n as int, kids))
        }
    }
}

/// The tree of the block at `i` and where the next block starts.
pub open spec fn line_spec(t: Seq<char>, i: int) -> Option<(Seq<NodeSpec>, int)> {
    match block_spec(t, i, t.len() as int) {
        Some(h) => {
            let root = seq![(h.3, Seq::<usize>::empty(), 0int)];
            let kids = scan(child_kinds(h.3), t, h.0, h.1, 1);
            Some((expand(t, root, entries_of(0, kids)), h.2))
        },
        None => None,
    }
}

/// The trees of the blocks of `t` from `i` on, in source order.
pub open spec fn doc_spec(t: Seq<char>, i: int) -> Seq<Seq<NodeSpec>>
    decreases t.len() - i,
    via doc_decreases
{
    if i < 0 || i >= t.len() {
        Seq::empty()
    } else {
        match line_spec(t, i) {
            Some((nodes, next)) => seq![nodes] + doc_spec(t, next),
            None => Seq::empty(),
        }
    }
}

#[via_fn]
proof fn doc_decreases(t: Seq<char>, i: int) {
    if !(i < 0 || i >= t.len()) {
        lemma_block_in(t, i, t.len() as int);
    }
}

/// The syntax trees of a whole document, one per block.
pub open spec fn md_spec(s: Seq<char>) -> Seq<Seq<NodeSpec>> {
    doc_spec(s, 0)
}

proof fn lemma_line_grown(before: Seq<Node<Token>>, after: Seq<Node<Token>>, k: int, val: Token)
    requires
        child_appended(before, after, k, val),
    ensures
        ({
            let nodes = before.map_values(|n: Node<Token>| node_view(n));
            let n = before.len();
            after.map_values(|n: Node<Token>| node_view(n)) == nodes.update(
                k,
                (nodes[k].0, nodes[k].1.push(n as usize), nodes[k].2),
            ).push((val@, Seq::empty(), nodes[k].2 + 1))
        }),
{
    let nodes = before.map_values(|n: Node<Token>| node_view(n));
    let n = before.len();
    let target = nodes.update(k, (nodes[k].0, nodes[k].1.push(n as usize), nodes[k].2)).push(
        (val@, Seq::empty(), nodes[k].2 + 1),
    );
    let got = after.map_values(|n: Node<Token>| node_view(n));
    assert forall|i: int| 0 <= i < got.len() implies got[i] == target[i] by {
        if i < n && i != k {
            assert(after[i] == before[i]);
        }
        if i == n {
            assert(after[n as int].children@ =~= Seq::<usize>::empty());
        }
    }
    assert(got =~= target);
}

/// Moves `kids` to the back of `queue`, each waiting under `parent`.
fn push_entries(queue: &mut VecDeque<Entry>, parent: usize, kids: Vec<Child>)
    ensures
        final(queue)@.map_values(|x: Entry| entry_view(x)) == old(queue)@.map_values(
            |x: Entry| entry_view(x),
        ) + entries_of(parent as int, kids@.map_values(|c: Child| child_view(c))),
{
    let ghost q0 = queue@;
    let ghost k0 = kids@;
    let mut kids = kids;
    while kids.len() > 0
        invariant
            queue@.len() + kids@.len() == q0.len() + k0.len(),
            queue@.len() >= q0.len(),
            kids@ == k0.subrange(queue@.len() - q0.len(), k0.len() as int),
            forall|m: int| 0 <= m < q0.len() ==> #[trigger] queue@[m] == q0[m],
            forall|m: int|
                q0.len() <= m < queue@.len() ==> entry_view(#[trigger] queue@[m]) == (
                    parent as int,
                    child_view(k0[m - q0.len()]).0,
                    child_view(k0[m - q0.len()]).1,
                    child_view(k0[m - q0.len()]).2,
                ),
        decreases kids.len(),
    {
        let c = kids.remove(0);
        queue.push_back(Entry { parent, inner_start: c.inner_start, inner_end: c.inner_end, token: c.token });
        assert(kids@ =~= k0.subrange(queue@.len() - q0.len(), k0.len() as int));
    }
    assert(queue@.map_values(|x: Entry| entry_view(x)) =~= q0.map_values(|x: Entry| entry_view(x))
        + entries_of(parent as int, k0.map_values(|c: Child| child_view(c))));
}

/// Parses the block at `i` into one tree: the block's token at the root and its
/// inline structure below, grown breadth-first.
pub fn consume_lines(t: &Vec<char>, i: usize) -> (r: Option<(usize, MdLine)>)
    requires
        i <= t@.len(),
    ensures
        match line_spec(t@, i as int) {
            Some((nodes, next)) => r matches Some(x) && x.0 == next && line_view(x.1) == nodes
                && x.1.wf(),
            None => r is None,
        },
        r is None <==> i == t@.len(),
        r matches Some(x) ==> i < x.0 <= t@.len(),
{
    let hit = match parse_line_consuming_token(t, i) {
        Some(h) => h,
        None => {
            return None;
        },
    };
    let next = hit.next;
    let kinds = hit.token.child_parsers();
    let ghost root_tok = hit.token@;
    let mut tree = Tree::new(hit.token);
    let kids = parse_children(&kinds, t, hit.inner_start, hit.inner_end, 1);
    proof {
        lemma_scan_in(kinds@, t@, hit.inner_start as int, hit.inner_end as int, 1);
    }
    let mut queue: VecDeque<Entry> = VecDeque::new();
    let ghost sc0 = scan(kinds@, t@, hit.inner_start as int, hit.inner_end as int, 1);
    push_entries(&mut queue, 0, kids);
    let ghost target = expand(t@, seq![(root_tok, Seq::<usize>::empty(), 0int)], entries_of(0, sc0));
    proof {
        assert(tree.nodes()[0].children@ =~= Seq::<usize>::empty());
        assert(line_view(tree) =~= seq![(root_tok, Seq::<usize>::empty(), 0int)]);
        assert forall|m: int| 0 <= m < queue@.len() implies {
            let x = #[trigger] queue@[m];
            &&& x.parent < tree.nodes().len()
            &&& x.inner_start <= x.inner_end <= t@.len()
        } by {
            assert(queue@.map_values(|x: Entry| entry_view(x))[m] == entry_view(queue@[m]));
            assert(entries_of(0, sc0)[m] == (0int, sc0[m].0, sc0[m].1, sc0[m].2));
        }
    }
    loop
        invariant
            tree.wf(),
            expand(t@, line_view(tree), queue@.map_values(|x: Entry| entry_view(x))) == target,
            forall|m: int|
                0 <= m < queue@.len() ==> {
                    let x = #[trigger] queue@[m];
                    &&& x.parent < tree.nodes().len()
                    &&& x.inner_start <= x.inner_end <= t@.len()
                },
        ensures
            tree.wf(),
            line_view(tree) == target,
        decreases usize::MAX - tree.nodes().len(),
    {
        let ghost nodes = line_view(tree);
        let ghost q = queue@.map_values(|x: Entry| entry_view(x));
        let ghost qe = queue@;
        if tree.len() >= usize::MAX - 1 {
            break;
        }
        match queue.pop_front() {
            None => {
                break;
            },
            Some(entry) => {
                assert(entry == qe[0]);
                assert(q[0] == entry_view(entry));
                let kinds = entry.token.child_parsers();
                let ghost tok = entry.token;
                let ghost before = tree.nodes();
                let pos = tree.add_node_by_index(TreeIndex::Arena(entry.parent), entry.token);
                let pos = pos.unwrap();
                proof {
                    lemma_line_grown(before, tree.nodes(), entry.parent as int, tok);
                    assert(before[entry.parent as int].level <= entry.parent);
                }
                let kids = parse_children(&kinds, t, entry.inner_start, entry.inner_end, pos.depth + 1);
                let ghost sc = scan(kinds@, t@, entry.inner_start as int, entry.inner_end as int, pos.depth + 1);
                proof {
                    lemma_scan_in(kinds@, t@, entry.inner_start as int, entry.inner_end as int, pos.depth + 1);
                }
                let ghost mid = queue@;
                push_entries(&mut queue, pos.raw_idx, kids);
                proof {
                    assert(q.drop_first() =~= mid.map_values(|x: Entry| entry_view(x)));
                    assert forall|m: int| 0 <= m < queue@.len() implies {
                        let x = #[trigger] queue@[m];
                        &&& x.parent < tree.nodes().len()
                        &&& x.inner_start <= x.inner_end <= t@.len()
                    } by {
                        assert(queue@.map_values(|x: Entry| entry_view(x))[m] == entry_view(queue@[m]));
                        if m < mid.len() {
                            assert(mid.map_values(|x: Entry| entry_view(x))[m] == entry_view(mid[m]));
                            assert(mid[m] == qe[m + 1]);
                        } else {
                            assert(queue@.map_values(|x: Entry| entry_view(x)).len() == queue@.len());
                            assert(entries_of(pos.raw_idx as int, sc).len() == sc.len());
                            assert(m - mid.len() < sc.len());
                            assert(entries_of(pos.raw_idx as int, sc)[m - mid.len()] == (
                                pos.raw_idx as int,
                                sc[m - mid.len()].0,
                                sc[m - mid.len()].1,
                                sc[m - mid.len()].2,
                            ));
                        }
                    }
                }
            },
        }
    }
    Some((next, tree))
}

/// The characters of a string, in order.
fn chars_of(s: &str) -> (r: Vec<char>)
    ensures
        r@ == s@,
{
    let mut v: Vec<char> = Vec::new();
    for c in it: s.chars()
        invariant
            v@ == it.seq().take(it.index() as int),
    {
        v.push(c);
    }
    v
}

/// Parses a whole document into one tree per block, in source order.
pub fn parse_md_str(input: &str) -> (r: MdSyntaxTree)
    ensures
        r@.map_values(|l: MdLine| line_view(l)) == md_spec(input@),
        forall|k: int| 0 <= k < r@.len() ==> (#[trigger] r@[k]).wf(),
{
    let t = chars_of(input);
    let mut out: MdSyntaxTree = Vec::new();
    let mut i: usize = 0;
    while i < t.len()
        invariant
            i <= t@.len(),
            t@ == input@,
            out@.map_values(|l: MdLine| line_view(l)) + doc_spec(t@, i as int) == doc_spec(t@, 0),
            forall|k: int| 0 <= k < out@.len() ==> (#[trigger] out@[k]).wf(),
        decreases t.len() - i,
    {
        let ghost before = out@.map_values(|l: MdLine| line_view(l));
        let (next, line) = consume_lines(&t, i).unwrap();
        out.push(line);
        assert(out@.map_values(|l: MdLine| line_view(l)) =~= before.push(
            out@[out@.len() - 1].nodes().map_values(|n: Node<Token>| node_view(n)),
        ));
        i = next;
        assert(out@.map_values(|l: MdLine| line_view(l)) + doc_spec(t@, i as int) =~= doc_spec(t@, 0));
    }
    assert(out@.map_values(|l: MdLine| line_view(l)) =~= out@.map_values(|l: MdLine| line_view(l)) + doc_spec(t@, i as int));
    out
}

} // verus!
