//! Instantiation of a replacement template: every tag marker, `@tag` or
//! `:[tag]`, gives way to the text captured for that tag.
use vstd::prelude::*;
use crate::lines::{apply_indentation, indent, line_indent, normalize, normalize_indentation, current_indent};
use crate::text::{chars_of, contains, matches_at, occurs_at, push_all, string_of};

verus! {

pub open spec fn at_marker(tag: Seq<char>) -> Seq<char> {
    seq!['@'] + tag
}

pub open spec fn colon_marker(tag: Seq<char>) -> Seq<char> {
    seq![':', '['] + tag + seq![']']
}

/// Left-to-right literal replacement of every occurrence of `p` in `rest`,
/// appended to `done`; occurrences do not overlap.
pub open spec fn replace_scan(done: Seq<char>, rest: Seq<char>, p: Seq<char>, r: Seq<char>) -> Seq<char>
    decreases rest.len(),
{
    if p.len() == 0 || rest.len() < p.len() {
        done + rest
    } else if rest.subrange(0, p.len() as int) == p {
        replace_scan(done + r, rest.subrange(p.len() as int, rest.len() as int), p, r)
    } else {
        replace_scan(done.push(rest[0]), rest.drop_first(), p, r)
    }
}

pub open spec fn replace_all(s: Seq<char>, p: Seq<char>, r: Seq<char>) -> Seq<char> {
    replace_scan(Seq::<char>::empty(), s, p, r)
}

/// Left-to-right replacement of every occurrence of `p` in `rest`, appended
/// to `done`: each occurrence takes the re-indented `sub`, whose later lines
/// start at the column of the line on which the occurrence stands.
///
/// The search resumes after each inserted substitute rather than from the
/// start of the text, so it always ends. A search from the start would run
/// forever on a substitute that holds its own marker, and would also replace
/// a marker that an insertion forms with the text beside it (tag `x`, empty
/// substitute, `"@@xx"`: such a search ends with `""`, this scan with `"@x"`).
pub open spec fn indent_scan(done: Seq<char>, rest: Seq<char>, p: Seq<char>, sub: Seq<char>) -> Seq<char>
    decreases rest.len(),
{
    if p.len() == 0 || rest.len() < p.len() {
        done + rest
    } else if rest.subrange(0, p.len() as int) == p {
        indent_scan(
            done + apply_indentation(sub, line_indent(done)),
            rest.subrange(p.len() as int, rest.len() as int),
            p,
            sub,
        )
    } else {
        indent_scan(done.push(rest[0]), rest.drop_first(), p, sub)
    }
}

pub open spec fn replace_indented(s: Seq<char>, p: Seq<char>, sub: Seq<char>) -> Seq<char> {
    indent_scan(Seq::<char>::empty(), s, p, sub)
}

fn replace_literal(s: &Vec<char>, p: &Vec<char>, r: &Vec<char>) -> (out: Vec<char>)
    ensures
        out@ == replace_all(s@, p@, r@),
{
    let mut out: Vec<char> = Vec::new();
    let mut i: usize = 0;
    assert(s@.subrange(0, s@.len() as int) =~= s@);
    assert(out@ =~= Seq::<char>::empty());
    while i < s.len()
        invariant
            i <= s.len(),
            replace_scan(out@, s@.subrange(i as int, s@.len() as int), p@, r@) == replace_all(s@, p@, r@),
        decreases s.len() - i,
    {
        let ghost rest = s@.subrange(i as int, s@.len() as int);
        if p.len() > 0 && matches_at(s, i, p) {
            assert(rest.subrange(0, p@.len() as int) =~= s@.subrange(i as int, i + p@.len()));
            assert(rest.subrange(p@.len() as int, rest.len() as int) =~= s@.subrange(i + p@.len(), s@.len() as int));
            push_all(&mut out, r);
            i = i + p.len();
        } else {
            proof {
                if p@.len() > 0 && rest.len() >= p@.len() {
                    assert(rest.subrange(0, p@.len() as int) =~= s@.subrange(i as int, i + p@.len()));
                }
                assert(rest.drop_first() =~= s@.subrange(i + 1, s@.len() as int));
                assert(out@.push(rest[0]) + rest.drop_first() =~= out@ + rest);
            }
            out.push(s[i]);
            i = i + 1;
        }
    }
    assert(out@ + s@.subrange(i as int, s@.len() as int) =~= out@);
    out
}

fn replace_with_indent(s: &Vec<char>, p: &Vec<char>, sub: &Vec<char>) -> (out: Vec<char>)
    ensures
        out@ == replace_indented(s@, p@, sub@),
{
    let mut out: Vec<char> = Vec::new();
    let mut i: usize = 0;
    assert(s@.subrange(0, s@.len() as int) =~= s@);
    assert(out@ =~= Seq::<char>::empty());
    while i < s.len()
        invariant
            i <= s.len(),
            indent_scan(out@, s@.subrange(i as int, s@.len() as int), p@, sub@) == replace_indented(s@, p@, sub@),
        decreases s.len() - i,
    {
        let ghost rest = s@.subrange(i as int, s@.len() as int);
        if p.len() > 0 && matches_at(s, i, p) {
            assert(rest.subrange(0, p@.len() as int) =~= s@.subrange(i as int, i + p@.len()));
            assert(rest.subrange(p@.len() as int, rest.len() as int) =~= s@.subrange(i + p@.len(), s@.len() as int));
            let ind = current_indent(&out);
            let piece = indent(sub, &ind);
            push_all(&mut out, &piece);
            i = i + p.len();
        } else {
            proof {
                if p@.len() > 0 && rest.len() >= p@.len() {
                    assert(rest.subrange(0, p@.len() as int) =~= s@.subrange(i as int, i + p@.len()));
                }
                assert(rest.drop_first() =~= s@.subrange(i + 1, s@.len() as int));
                assert(out@.push(rest[0]) + rest.drop_first() =~= out@ + rest);
            }
            out.push(s[i]);
            i = i + 1;
        }
    }
    assert(out@ + s@.subrange(i as int, s@.len() as int) =~= out@);
    out
}

/// A map given as a list of key/value pairs, seen through the views of its strings.
pub open spec fn pairs(v: Seq<(String, String)>) -> Seq<(Seq<char>, Seq<char>)> {
    v.map_values(|kv: (String, String)| (kv.0@, kv.1@))
}

/// Each key is listed once: the list is a map.
pub open spec fn keys_unique(m: Seq<(Seq<char>, Seq<char>)>) -> bool {
    forall|i: int, j: int| 0 <= i < j < m.len() ==> #[trigger] m[i].0 != #[trigger] m[j].0
}

/// Every key of `inner` is a key of `outer`.
pub open spec fn keys_within(inner: Seq<(Seq<char>, Seq<char>)>, outer: Seq<(Seq<char>, Seq<char>)>) -> bool {
    forall|i: int| 0 <= i < inner.len() ==> exists|j: int| 0 <= j < outer.len() && outer[j].0 == (#[trigger] inner[i]).0
}

/// The value of the first pair from position `i` on whose key is `k`.
pub open spec fn lookup_from(m: Seq<(Seq<char>, Seq<char>)>, k: Seq<char>, i: int) -> Option<Seq<char>>
    decreases m.len() - i,
{
    if i < 0 || i >= m.len() {
        None
    } else if m[i].0 == k {
        Some(m[i].1)
    } else {
        lookup_from(m, k, i + 1)
    }
}

pub open spec fn lookup(m: Seq<(Seq<char>, Seq<char>)>, k: Seq<char>) -> Option<Seq<char>> {
    lookup_from(m, k, 0)
}

/// One tag's substitution: with an indentation entry, both markers take the
/// normalized, re-indented substitute one occurrence at a time; without one,
/// both markers are replaced by the raw substitute.
pub open spec fn substitute_tag(
    out: Seq<char>,
    tag: Seq<char>,
    sub: Seq<char>,
    indentations: Seq<(Seq<char>, Seq<char>)>,
) -> Seq<char> {
    match lookup(indentations, tag) {
        Some(pre) => {
            let n = normalize_indentation(sub, pre);
            replace_indented(replace_indented(out, at_marker(tag), n), colon_marker(tag), n)
        },
        None => replace_all(replace_all(out, at_marker(tag), sub), colon_marker(tag), sub),
    }
}

/// The template with the substitutions applied in the order they are listed.
pub open spec fn instantiated(
    template: Seq<char>,
    substitutions: Seq<(Seq<char>, Seq<char>)>,
    indentations: Seq<(Seq<char>, Seq<char>)>,
) -> Seq<char>
    decreases substitutions.len(),
{
    if substitutions.len() == 0 {
        template
    } else {
        let last = substitutions.last();
        substitute_tag(
            instantiated(template, substitutions.drop_last(), indentations),
            last.0,
            last.1,
            indentations,
        )
    }
}

fn find_key(m: &Vec<(String, String)>, k: &String) -> (r: Option<usize>)
    ensures
        match r {
            Some(i) => i < m.len() && lookup(pairs(m@), k@) == Some(m@[i as int].1@),
            None => lookup(pairs(m@), k@) is None,
        },
{
    let mut i: usize = 0;
    while i < m.len()
        invariant
            i <= m.len(),
            lookup_from(pairs(m@), k@, i as int) == lookup(pairs(m@), k@),
        decreases m.len() - i,
    {
        if m[i].0 == *k {
            return Some(i);
        }
        i = i + 1;
    }
    None
}

fn marker_at(tag: &Vec<char>) -> (r: Vec<char>)
    ensures
        r@ == at_marker(tag@),
{
    let mut r: Vec<char> = Vec::new();
    r.push('@');
    push_all(&mut r, tag);
    assert(r@ =~= at_marker(tag@));
    r
}

fn marker_colon(tag: &Vec<char>) -> (r: Vec<char>)
    ensures
        r@ == colon_marker(tag@),
{
    let mut r: Vec<char> = Vec::new();
    r.push(':');
    r.push('[');
    push_all(&mut r, tag);
    r.push(']');
    assert(r@ =~= colon_marker(tag@));
    r
}

/// Applies every substitution to `template`, tag after tag.
pub fn instantiate_text(
    template: &Vec<char>,
    substitutions: &Vec<(String, String)>,
    indentations: &Vec<(String, String)>,
) -> (r: Vec<char>)
    ensures
        r@ == instantiated(template@, pairs(substitutions@), pairs(indentations@)),
{
    let mut out: Vec<char> = Vec::new();
    push_all(&mut out, template);
    let mut i: usize = 0;
    assert(pairs(substitutions@).subrange(0, 0) =~= Seq::<(Seq<char>, Seq<char>)>::empty());
    while i < substitutions.len()
        invariant
            i <= substitutions.len(),
            out@ == instantiated(template@, pairs(substitutions@).subrange(0, i as int), pairs(indentations@)),
        decreases substitutions.len() - i,
    {
        let ghost upto = pairs(substitutions@).subrange(0, i + 1);
        assert(upto.drop_last() =~= pairs(substitutions@).subrange(0, i as int));
        let tag = chars_of(substitutions[i].0.as_str());
        let sub = chars_of(substitutions[i].1.as_str());
        let at = marker_at(&tag);
        let colon = marker_colon(&tag);
        match find_key(indentations, &substitutions[i].0) {
            Some(j) => {
                let pre = chars_of(indentations[j].1.as_str());
                let n = normalize(&sub, &pre);
                let first = replace_with_indent(&out, &at, &n);
                out = replace_with_indent(&first, &colon, &n);
            },
            None => {
                let first = replace_literal(&out, &at, &sub);
                out = replace_literal(&first, &colon, &sub);
            },
        }
        i = i + 1;
    }
    assert(pairs(substitutions@).subrange(0, i as int) =~= pairs(substitutions@));
    out
}

proof fn lemma_absent_after_first(rest: Seq<char>, p: Seq<char>)
    requires
        rest.len() > 0,
        !contains(rest, p),
    ensures
        !contains(rest.drop_first(), p),
{
    assert forall|j: int| !occurs_at(rest.drop_first(), j, p) by {
        if occurs_at(rest.drop_first(), j, p) {
            assert(rest.drop_first().subrange(j, j + p.len()) =~= rest.subrange(j + 1, j + 1 + p.len()));
            assert(occurs_at(rest, j + 1, p));
        }
    }
}

proof fn lemma_replace_scan_absent(done: Seq<char>, rest: Seq<char>, p: Seq<char>, r: Seq<char>)
    requires
        !contains(rest, p),
    ensures
        replace_scan(done, rest, p, r) == done + rest,
    decreases rest.len(),
{
    if p.len() > 0 && rest.len() >= p.len() {
        assert(!occurs_at(rest, 0, p));
        lemma_absent_after_first(rest, p);
        lemma_replace_scan_absent(done.push(rest[0]), rest.drop_first(), p, r);
        assert(done.push(rest[0]) + rest.drop_first() =~= done + rest);
    }
}

proof fn lemma_indent_scan_absent(done: Seq<char>, rest: Seq<char>, p: Seq<char>, sub: Seq<char>)
    requires
        !contains(rest, p),
    ensures
        indent_scan(done, rest, p, sub) == done + rest,
    decreases rest.len(),
{
    if p.len() > 0 && rest.len() >= p.len() {
        assert(!occurs_at(rest, 0, p));
        lemma_absent_after_first(rest, p);
        lemma_indent_scan_absent(done.push(rest[0]), rest.drop_first(), p, sub);
        assert(done.push(rest[0]) + rest.drop_first() =~= done + rest);
    }
}

/// A template in which no marker of any substituted tag occurs comes out of
/// instantiation unchanged.
pub proof fn lemma_instantiate_without_markers(
    template: Seq<char>,
    substitutions: Seq<(Seq<char>, Seq<char>)>,
    indentations: Seq<(Seq<char>, Seq<char>)>,
)
    requires
        forall|i: int|
            0 <= i < substitutions.len() ==> !contains(template, at_marker(#[trigger] substitutions[i].0))
                && !contains(template, colon_marker(substitutions[i].0)),
    ensures
        instantiated(template, substitutions, indentations) == template,
    decreases substitutions.len(),
{
    if substitutions.len() > 0 {
        let rest = substitutions.drop_last();
        assert forall|i: int| 0 <= i < rest.len() implies !contains(template, at_marker(#[trigger] rest[i].0))
            && !contains(template, colon_marker(rest[i].0)) by {
            assert(rest[i] == substitutions[i]);
        }
        lemma_instantiate_without_markers(template, rest, indentations);
        let last = substitutions.last();
        assert(!contains(template, at_marker(substitutions[substitutions.len() - 1].0)));
        let e = Seq::<char>::empty();
        match lookup(indentations, last.0) {
            Some(pre) => {
                let n = normalize_indentation(last.1, pre);
                lemma_indent_scan_absent(e, template, at_marker(last.0), n);
                assert(e + template =~= template);
                lemma_indent_scan_absent(e, template, colon_marker(last.0), n);
            },
            None => {
                lemma_replace_scan_absent(e, template, at_marker(last.0), last.1);
                assert(e + template =~= template);
                lemma_replace_scan_absent(e, template, colon_marker(last.0), last.1);
            },
        }
    }
}

/// A tag without an indentation entry is a global literal replacement of
/// `@tag`, then of `:[tag]`, by the raw substitute.
pub proof fn lemma_plain_tag_is_global_replace(
    template: Seq<char>,
    tag: Seq<char>,
    sub: Seq<char>,
    indentations: Seq<(Seq<char>, Seq<char>)>,
)
    requires
        lookup(indentations, tag) is None,
    ensures
        instantiated(template, seq![(tag, sub)], indentations) == replace_all(
            replace_all(template, at_marker(tag), sub),
            colon_marker(tag),
            sub,
        ),
{
    let s = seq![(tag, sub)];
    assert(s.drop_last() =~= Seq::<(Seq<char>, Seq<char>)>::empty());
    assert(instantiated(template, s.drop_last(), indentations) == template);
    assert(s.last() == (tag, sub));
}

/// In a map whose keys are unique, a key finds the one value listed with it.
pub proof fn lemma_lookup_unique(m: Seq<(Seq<char>, Seq<char>)>, i: int)
    requires
        keys_unique(m),
        0 <= i < m.len(),
    ensures
        lookup(m, m[i].0) == Some(m[i].1),
{
    lemma_lookup_from_unique(m, i, 0);
}

proof fn lemma_lookup_from_unique(m: Seq<(Seq<char>, Seq<char>)>, i: int, k: int)
    requires
        keys_unique(m),
        0 <= k <= i < m.len(),
    ensures
        lookup_from(m, m[i].0, k) == Some(m[i].1),
    decreases i - k,
{
    if k < i {
        assert(m[k].0 != m[i].0);
        lemma_lookup_from_unique(m, i, k + 1);
    }
}

proof fn lemma_indent_scan_skip(done: Seq<char>, rest: Seq<char>, p: Seq<char>, sub: Seq<char>, k: int)
    requires
        p.len() > 0,
        0 <= k <= rest.len(),
        forall|j: int| 0 <= j < k ==> !occurs_at(rest, j, p),
    ensures
        indent_scan(done, rest, p, sub) == indent_scan(
            done + rest.subrange(0, k),
            rest.subrange(k, rest.len() as int),
            p,
            sub,
        ),
    decreases k,
{
    if k == 0 {
        assert(done + rest.subrange(0, k) =~= done);
        assert(rest.subrange(k, rest.len() as int) =~= rest);
    } else {
        if rest.len() < p.len() {
            let r2 = rest.subrange(k, rest.len() as int);
            assert(r2.len() < p.len());
            assert(indent_scan(done + rest.subrange(0, k), r2, p, sub) == done + rest.subrange(0, k) + r2);
            assert(done + rest.subrange(0, k) + r2 =~= done + rest);
        } else {
            assert(!occurs_at(rest, 0, p));
            let t = rest.drop_first();
            assert forall|j: int| 0 <= j < k - 1 implies !occurs_at(t, j, p) by {
                if occurs_at(t, j, p) {
                    assert(t.subrange(j, j + p.len()) =~= rest.subrange(j + 1, j + 1 + p.len()));
                    assert(occurs_at(rest, j + 1, p));
                }
            }
            lemma_indent_scan_skip(done.push(rest[0]), t, p, sub, k - 1);
            assert(done.push(rest[0]) + t.subrange(0, k - 1) =~= done + rest.subrange(0, k));
            assert(t.subrange(k - 1, t.len() as int) =~= rest.subrange(k, rest.len() as int));
        }
    }
}

/// A tag with an indentation entry, whose `@` marker stands once in the
/// template (and whose bracketed marker stands nowhere, before or after):
/// the marker gives way to the substitute with `pre` taken off each line that
/// begins with it, the first line continuing the line of the marker and each
/// later line starting at that line's leading whitespace.
pub proof fn lemma_indented_single_marker(
    before: Seq<char>,
    after: Seq<char>,
    tag: Seq<char>,
    sub: Seq<char>,
    pre: Seq<char>,
)
    requires
        forall|k: int|
            #[trigger] occurs_at(before + at_marker(tag) + after, k, at_marker(tag)) ==> k
                == before.len(),
        !contains(
            before + apply_indentation(normalize_indentation(sub, pre), line_indent(before)) + after,
            colon_marker(tag),
        ),
    ensures
        instantiated(before + at_marker(tag) + after, seq![(tag, sub)], seq![(tag, pre)]) == before
            + apply_indentation(normalize_indentation(sub, pre), line_indent(before)) + after,
{
    let m = at_marker(tag);
    let t = before + m + after;
    let n = normalize_indentation(sub, pre);
    let piece = apply_indentation(n, line_indent(before));
    let e = Seq::<char>::empty();
    let subs = seq![(tag, sub)];
    let inds = seq![(tag, pre)];
    assert(subs.drop_last() =~= Seq::<(Seq<char>, Seq<char>)>::empty());
    assert(instantiated(t, subs.drop_last(), inds) == t);
    assert(subs.last() == (tag, sub));
    assert(lookup_from(inds, tag, 1) is None);
    assert(lookup(inds, tag) == Some(pre));
    let k = before.len() as int;
    assert(t.subrange(k, k + m.len()) =~= m);
    assert(occurs_at(t, k, m));
    assert forall|j: int| 0 <= j < k implies !occurs_at(t, j, m) by {
        if occurs_at(t, j, m) {
            assert(j == k);
        }
    }
    lemma_indent_scan_skip(e, t, m, n, k);
    let rest = t.subrange(k, t.len() as int);
    assert(e + t.subrange(0, k) =~= before);
    assert(rest.subrange(0, m.len() as int) =~= m);
    assert(rest.subrange(m.len() as int, rest.len() as int) =~= after);
    assert(!contains(after, m)) by {
        if contains(after, m) {
            let j = choose|j: int| occurs_at(after, j, m);
            let big = k + m.len() + j;
            assert(t.subrange(big, big + m.len()) =~= after.subrange(j, j + m.len()));
            assert(occurs_at(t, big, m));
        }
    }
    lemma_indent_scan_absent(before + piece, after, m, n);
    assert(replace_indented(t, m, n) == before + piece + after);
    lemma_indent_scan_absent(e, before + piece + after, colon_marker(tag), n);
    assert(e + (before + piece + after) =~= before + piece + after);
}

} // verus!
