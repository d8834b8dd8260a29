use vstd::prelude::*;

verus! {

// Character-level scanning over a window `[from, end)` of a text.

/// The first index in `[from, end)` holding `c`, or `end` when there is none.
pub open spec fn find_char(t: Seq<char>, from: int, end: int, c: char) -> int
    decreases end - from,
{
    if from >= end {
        end
    } else if t[from] == c {
        from
    } else {
        find_char(t, from + 1, end, c)
    }
}

/// The first index in `[from, end)` that is neither a space nor a tab, or `end`.
pub open spec fn skip_blanks(t: Seq<char>, from: int, end: int) -> int
    decreases end - from,
{
    if from >= end {
        end
    } else if t[from] == ' ' || t[from] == '\t' {
        skip_blanks(t, from + 1, end)
    } else {
        from
    }
}

/// The first index in `[from, end)` that is not `c`, or `end`.
pub open spec fn skip_char(t: Seq<char>, from: int, end: int, c: char) -> int
    decreases end - from,
{
    if from >= end {
        end
    } else if t[from] == c {
        skip_char(t, from + 1, end, c)
    } else {
        from
    }
}

/// Where the line that starts at `from` ends (at its newline, or at `end`).
pub open spec fn line_end(t: Seq<char>, from: int, end: int) -> int {
    find_char(t, from, end, '\n')
}

/// Where the line after the one that starts at `from` begins.
pub open spec fn next_line(t: Seq<char>, from: int, end: int) -> int {
    let le = line_end(t, from, end);
    if le < end {
        le + 1
    } else {
        end
    }
}

pub proof fn lemma_find_char(t: Seq<char>, from: int, end: int, c: char)
    requires
        from <= end,
    ensures
        from <= find_char(t, from, end, c) <= end,
        find_char(t, from, end, c) < end ==> t[find_char(t, from, end, c)] == c,
        forall|k: int| from <= k < find_char(t, from, end, c) ==> t[k] != c,
    decreases end - from,
{
    if from < end && t[from] != c {
        lemma_find_char(t, from + 1, end, c);
    }
}

pub proof fn lemma_skip_blanks(t: Seq<char>, from: int, end: int)
    requires
        from <= end,
    ensures
        from <= skip_blanks(t, from, end) <= end,
        skip_blanks(t, from, end) < end ==> t[skip_blanks(t, from, end)] != ' ' && t[skip_blanks(
            t,
            from,
            end,
        )] != '\t',
    decreases end - from,
{
    if from < end && (t[from] == ' ' || t[from] == '\t') {
        lemma_skip_blanks(t, from + 1, end);
    }
}

pub proof fn lemma_skip_char(t: Seq<char>, from: int, end: int, c: char)
    requires
        from <= end,
    ensures
        from <= skip_char(t, from, end, c) <= end,
    decreases end - from,
{
    if from < end && t[from] == c {
        lemma_skip_char(t, from + 1, end, c);
    }
}

/// The first index in `[from, end)` holding `c`, or `end`.
pub fn find_char_exec(t: &Vec<char>, from: usize, end: usize, c: char) -> (r: usize)
    requires
        from <= end <= t@.len(),
    ensures
        r == find_char(t@, from as int, end as int, c),
        from <= r <= end,
{
    proof {
        lemma_find_char(t@, from as int, end as int, c);
    }
    let mut i = from;
    while i < end && t[i] != c
        invariant
            from <= i <= end <= t@.len(),
            find_char(t@, i as int, end as int, c) == find_char(t@, from as int, end as int, c),
        decreases end - i,
    {
        i = i + 1;
    }
    i
}

/// The first index in `[from, end)` that is neither a space nor a tab, or `end`.
pub fn skip_blanks_exec(t: &Vec<char>, from: usize, end: usize) -> (r: usize)
    requires
        from <= end <= t@.len(),
    ensures
        r == skip_blanks(t@, from as int, end as int),
        from <= r <= end,
{
    proof {
        lemma_skip_blanks(t@, from as int, end as int);
    }
    let mut i = from;
    while i < end && (t[i] == ' ' || t[i] == '\t')
        invariant
            from <= i <= end <= t@.len(),
            skip_blanks(t@, i as int, end as int) == skip_blanks(t@, from as int, end as int),
        decreases end - i,
    {
        i = i + 1;
    }
    i
}

/// The first index in `[from, end)` that is not `c`, or `end`.
pub fn skip_char_exec(t: &Vec<char>, from: usize, end: usize, c: char) -> (r: usize)
    requires
        from <= end <= t@.len(),
    ensures
        r == skip_char(t@, from as int, end as int, c),
        from <= r <= end,
{
    proof {
        lemma_skip_char(t@, from as int, end as int, c);
    }
    let mut i = from;
    while i < end && t[i] == c
        invariant
            from <= i <= end <= t@.len(),
            skip_char(t@, i as int, end as int, c) == skip_char(t@, from as int, end as int, c),
        decreases end - i,
    {
        i = i + 1;
    }
    i
}

/// Where the line after the one that starts at `from` begins.
pub fn next_line_exec(t: &Vec<char>, from: usize, end: usize) -> (r: (usize, usize))
    requires
        from <= end <= t@.len(),
    ensures
        r.0 == line_end(t@, from as int, end as int),
        r.1 == next_line(t@, from as int, end as int),
        from <= r.0 <= r.1 <= end,
        from < end ==> from < r.1,
{
    let le = find_char_exec(t, from, end, '\n');
    if le < end {
        (le, le + 1)
    } else {
        (le, end)
    }
}

/// The characters of `t` in `[from, to)` as a string.
pub fn collect_string(t: &Vec<char>, from: usize, to: usize) -> (r: String)
    requires
        from <= to <= t@.len(),
    ensures
        r@ == t@.subrange(from as int, to as int),
{
    let mut s = String::new();
    let mut i = from;
    while i < to
        invariant
            from <= i <= to <= t@.len(),
            s@ == t@.subrange(from as int, i as int),
        decreases to - i,
    {
        push_char(&mut s, t[i]);
        i = i + 1;
        assert(s@ =~= t@.subrange(from as int, i as int));
    }
    s
}

/// Relies on String::push: appends one character at the end.
#[verifier::external_body]
pub(crate) fn push_char(s: &mut String, c: char)
    ensures
        final(s)@ == old(s)@.push(c),
{
    s.push(c)
}

} // verus!
