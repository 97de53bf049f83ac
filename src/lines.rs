//! Lines of a text as `str::lines` yields them, joined back with `'\n'`, and
//! the re-indentation of a multi-line substitute.
use vstd::prelude::*;
use crate::text::{is_whitespace, is_ws, push_all};

verus! {

/// The pieces of `s` between its line feeds; there is always one more piece
/// than line feeds.
pub open spec fn split_nl(s: Seq<char>) -> Seq<Seq<char>>
    decreases s.len(),
{
    if s.len() == 0 {
        seq![Seq::<char>::empty()]
    } else {
        let p = split_nl(s.drop_last());
        if s.last() == '\n' {
            p.push(Seq::<char>::empty())
        } else {
            p.update(p.len() - 1, p.last().push(s.last()))
        }
    }
}

/// A line that ended in `"\r\n"` loses its carriage return.
pub open spec fn strip_cr(l: Seq<char>) -> Seq<char> {
    if l.len() > 0 && l.last() == '\r' {
        l.drop_last()
    } else {
        l
    }
}

/// The lines of `s`: a final line feed ends the last line rather than
/// starting an empty one, and an empty text has no lines.
pub open spec fn lines_of(s: Seq<char>) -> Seq<Seq<char>> {
    let p = split_nl(s);
    let ended = p.drop_last().map_values(|l: Seq<char>| strip_cr(l));
    if s.len() == 0 || s.last() == '\n' {
        ended
    } else {
        ended.push(p.last())
    }
}

/// Lines joined with a line feed between each two.
pub open spec fn join_nl(ls: Seq<Seq<char>>) -> Seq<char>
    decreases ls.len(),
{
    if ls.len() == 0 {
        Seq::<char>::empty()
    } else if ls.len() == 1 {
        ls[0]
    } else {
        join_nl(ls.drop_last()) + seq!['\n'] + ls.last()
    }
}

pub proof fn lemma_split_nl_len(s: Seq<char>)
    ensures
        split_nl(s).len() >= 1,
    decreases s.len(),
{
    if s.len() > 0 {
        lemma_split_nl_len(s.drop_last());
    }
}

pub open spec fn views(v: Seq<Vec<char>>) -> Seq<Seq<char>> {
    v.map_values(|l: Vec<char>| l@)
}

fn strip_cr_exec(l: Vec<char>) -> (r: Vec<char>)
    ensures
        r@ == strip_cr(l@),
{
    let mut l = l;
    if l.len() > 0 && l[l.len() - 1] == '\r' {
        l.pop();
    }
    l
}

pub fn lines(s: &Vec<char>) -> (r: Vec<Vec<char>>)
    ensures
        views(r@) =~= lines_of(s@),
{
    let mut done: Vec<Vec<char>> = Vec::new();
    let mut cur: Vec<char> = Vec::new();
    let mut i: usize = 0;
    while i < s.len()
        invariant
            i <= s.len(),
            ({
                let p = split_nl(s@.subrange(0, i as int));
                &&& p.len() >= 1
                &&& views(done@) =~= p.drop_last().map_values(|l: Seq<char>| strip_cr(l))
                &&& cur@ == p.last()
            }),
        decreases s.len() - i,
    {
        let ghost pre = s@.subrange(0, i as int);
        let ghost post = s@.subrange(0, i + 1);
        assert(post.drop_last() =~= pre);
        proof {
            lemma_split_nl_len(pre);
        }
        let ghost old_done = views(done@);
        if s[i] == '\n' {
            let piece = strip_cr_exec(cur);
            done.push(piece);
            cur = Vec::new();
            assert(split_nl(post).drop_last() =~= split_nl(pre));
            assert(views(done@) =~= old_done.push(piece@));
            assert(split_nl(pre).map_values(|l: Seq<char>| strip_cr(l)) =~= split_nl(
                pre,
            ).drop_last().map_values(|l: Seq<char>| strip_cr(l)).push(strip_cr(split_nl(pre).last())));
        } else {
            cur.push(s[i]);
            assert(split_nl(post).drop_last() =~= split_nl(pre).drop_last());
            assert(views(done@) =~= old_done);
        }
        i = i + 1;
    }
    assert(s@.subrange(0, s@.len() as int) =~= s@);
    if s.len() > 0 && s[s.len() - 1] == '\n' {
    } else if s.len() == 0 {
    } else {
        done.push(cur);
    }
    done
}

pub fn join_lines(ls: &Vec<Vec<char>>) -> (r: Vec<char>)
    ensures
        r@ == join_nl(views(ls@)),
{
    let mut out: Vec<char> = Vec::new();
    let mut i: usize = 0;
    while i < ls.len()
        invariant
            i <= ls.len(),
            out@ == join_nl(views(ls@).subrange(0, i as int)),
        decreases ls.len() - i,
    {
        let ghost sub = views(ls@).subrange(0, i + 1);
        assert(sub.drop_last() =~= views(ls@).subrange(0, i as int));
        if i > 0 {
            out.push('\n');
        }
        push_all(&mut out, &ls[i]);
        i = i + 1;
        proof {
            if i == 1 {
                assert(out@ =~= sub[0]);
            } else {
                assert(out@ =~= join_nl(sub.drop_last()) + seq!['\n'] + sub.last());
            }
        }
    }
    assert(views(ls@).subrange(0, ls@.len() as int) =~= views(ls@));
    out
}

/// A line that begins with `pre` loses it; any other line stays as it is.
pub open spec fn strip_prefix(l: Seq<char>, pre: Seq<char>) -> Seq<char> {
    if pre.is_prefix_of(l) {
        l.subrange(pre.len() as int, l.len() as int)
    } else {
        l
    }
}

/// The substitute with the indentation of its capture site taken off every
/// line that begins with it.
pub open spec fn normalize_indentation(text: Seq<char>, pre: Seq<char>) -> Seq<char> {
    join_nl(lines_of(text).map_values(|l: Seq<char>| strip_prefix(l, pre)))
}

/// The first line stays as it is; every later one is prefixed with `indent`.
pub open spec fn indent_line(i: int, l: Seq<char>, indent: Seq<char>) -> Seq<char> {
    if i == 0 {
        l
    } else {
        indent + l
    }
}

pub open spec fn apply_indentation(text: Seq<char>, indent: Seq<char>) -> Seq<char> {
    join_nl(lines_of(text).map(|i: int, l: Seq<char>| indent_line(i, l, indent)))
}

fn starts_with(l: &Vec<char>, pre: &Vec<char>) -> (r: bool)
    ensures
        r == pre@.is_prefix_of(l@),
{
    if pre.len() > l.len() {
        return false;
    }
    let mut k: usize = 0;
    while k < pre.len()
        invariant
            pre.len() <= l.len(),
            k <= pre.len(),
            forall|j: int| 0 <= j < k ==> l@[j] == pre@[j],
        decreases pre.len() - k,
    {
        if l[k] != pre[k] {
            assert(l@.subrange(0, pre@.len() as int)[k as int] != pre@[k as int]);
            return false;
        }
        k = k + 1;
    }
    assert(pre@ =~= l@.subrange(0, pre@.len() as int));
    true
}

fn drop_front(l: &Vec<char>, n: usize) -> (r: Vec<char>)
    requires
        n <= l.len(),
    ensures
        r@ == l@.subrange(n as int, l@.len() as int),
{
    let mut r: Vec<char> = Vec::new();
    let mut k: usize = n;
    while k < l.len()
        invariant
            n <= k <= l.len(),
            r@ == l@.subrange(n as int, k as int),
        decreases l.len() - k,
    {
        r.push(l[k]);
        k = k + 1;
        assert(r@ =~= l@.subrange(n as int, k as int));
    }
    r
}

pub fn normalize(text: &Vec<char>, pre: &Vec<char>) -> (r: Vec<char>)
    ensures
        r@ == normalize_indentation(text@, pre@),
{
    let ls = lines(text);
    let mut out: Vec<Vec<char>> = Vec::new();
    let mut i: usize = 0;
    while i < ls.len()
        invariant
            i <= ls.len(),
            out.len() == i,
            forall|j: int| 0 <= j < i ==> #[trigger] out@[j]@ == strip_prefix(ls@[j]@, pre@),
        decreases ls.len() - i,
    {
        let l = if starts_with(&ls[i], pre) {
            drop_front(&ls[i], pre.len())
        } else {
            drop_front(&ls[i], 0)
        };
        assert(ls@[i as int]@.subrange(0, ls@[i as int]@.len() as int) =~= ls@[i as int]@);
        out.push(l);
        i = i + 1;
    }
    assert(views(out@) =~= lines_of(text@).map_values(|l: Seq<char>| strip_prefix(l, pre@)));
    join_lines(&out)
}

pub fn indent(text: &Vec<char>, ind: &Vec<char>) -> (r: Vec<char>)
    ensures
        r@ == apply_indentation(text@, ind@),
{
    let ls = lines(text);
    let mut out: Vec<Vec<char>> = Vec::new();
    let mut i: usize = 0;
    while i < ls.len()
        invariant
            i <= ls.len(),
            out.len() == i,
            forall|j: int| 0 <= j < i ==> #[trigger] out@[j]@ == indent_line(j, ls@[j]@, ind@),
        decreases ls.len() - i,
    {
        let mut l: Vec<char> = Vec::new();
        if i > 0 {
            push_all(&mut l, ind);
        }
        push_all(&mut l, &ls[i]);
        assert(l@ =~= indent_line(i as int, ls@[i as int]@, ind@));
        out.push(l);
        i = i + 1;
    }
    assert(views(out@) =~= lines_of(text@).map(|j: int, l: Seq<char>| indent_line(j, l, ind@)));
    join_lines(&out)
}

/// Where the last line of `s` starts: just after its last line feed, or at 0.
pub open spec fn line_start(s: Seq<char>) -> int
    decreases s.len(),
{
    if s.len() == 0 {
        0
    } else if s.last() == '\n' {
        s.len() as int
    } else {
        line_start(s.drop_last())
    }
}

/// How many whitespace characters `s` begins with.
pub open spec fn ws_run(s: Seq<char>) -> nat
    decreases s.len(),
{
    if s.len() > 0 && is_ws(s[0]) {
        1 + ws_run(s.drop_first())
    } else {
        0
    }
}

/// The whitespace that the last line of `s` begins with: the column at the end of `s`.
pub open spec fn line_indent(s: Seq<char>) -> Seq<char> {
    let l = s.subrange(line_start(s), s.len() as int);
    l.subrange(0, ws_run(l) as int)
}

proof fn lemma_line_start(s: Seq<char>, p: int)
    requires
        0 <= p <= s.len(),
        forall|j: int| p <= j < s.len() ==> s[j] != '\n',
        p == 0 || s[p - 1] == '\n',
    ensures
        line_start(s) == p,
    decreases s.len(),
{
    if s.len() > 0 && p < s.len() {
        lemma_line_start(s.drop_last(), p);
    }
}

proof fn lemma_ws_run(s: Seq<char>, k: int)
    requires
        0 <= k <= s.len(),
        forall|j: int| 0 <= j < k ==> is_ws(#[trigger] s[j]),
        k == s.len() || !is_ws(s[k]),
    ensures
        ws_run(s) == k,
    decreases k,
{
    if k > 0 {
        assert(is_ws(s[0]));
        lemma_ws_run(s.drop_first(), k - 1);
    }
}

pub fn current_indent(s: &Vec<char>) -> (r: Vec<char>)
    ensures
        r@ == line_indent(s@),
{
    let mut p: usize = s.len();
    while p > 0 && s[p - 1] != '\n'
        invariant
            p <= s.len(),
            forall|j: int| p <= j < s.len() ==> s@[j] != '\n',
        decreases p,
    {
        p = p - 1;
    }
    proof {
        lemma_line_start(s@, p as int);
    }
    let mut r: Vec<char> = Vec::new();
    let mut k: usize = p;
    while k < s.len() && is_whitespace(s[k])
        invariant
            p <= k <= s.len(),
            r@ == s@.subrange(p as int, k as int),
            forall|j: int| p <= j < k ==> is_ws(#[trigger] s@[j]),
        decreases s.len() - k,
    {
        r.push(s[k]);
        k = k + 1;
        assert(r@ =~= s@.subrange(p as int, k as int));
    }
    let ghost l = s@.subrange(p as int, s@.len() as int);
    proof {
        assert forall|j: int| 0 <= j < k - p implies is_ws(#[trigger] l[j]) by {
            assert(is_ws(s@[p + j]));
        }
        lemma_ws_run(l, k - p);
    }
    assert(r@ =~= l.subrange(0, (k - p) as int));
    r
}

} // verus!
