//! Matches of a rule's query, the choice of one match in a scope, and the
//! growth of a match's range over the elements tied to it.
use vstd::prelude::*;
use vstd::string::*;
use vstd::utf8::encode_utf8;
use crate::template::{keys_unique, keys_within, pairs};

verus! {

/// A half-open byte interval `[start_byte, end_byte)` of one text snapshot.
#[derive(Clone, Copy, Debug, PartialEq, Eq, Structural)]
pub struct Range {
    pub start_byte: usize,
    pub end_byte: usize,
}

/// One match of a rule's query in the source text.
#[derive(Clone, Debug)]
pub struct Match {
    /// The source text that the match spans.
    pub matched_string: String,
    pub range: Range,
    /// Capture tag to the captured text; each tag listed once (see `wf`).
    pub matches: Vec<(String, String)>,
    /// Capture tag to the indentation observed at its capture site.
    pub indentations: Vec<(String, String)>,
    /// Ranges of elements that go with the match (a trailing separator, say),
    /// which a deletion of the match takes along.
    pub associated_ranges: Vec<Range>,
}

/// The bytes of `code`.
pub open spec fn bytes_of(code: Seq<char>) -> Seq<u8> {
    encode_utf8(code)
}

/// Whether `code[start..end]` is a valid slice.
pub open spec fn valid_slice(code: Seq<u8>, start: int, end: int) -> bool {
    0 <= start <= end <= code.len() && vstd::utf8::is_char_boundary(code, start)
        && vstd::utf8::is_char_boundary(code, end)
}

/// Relies on `str::get`: `None` exactly where indexing `code[start..end]`
/// would panic, else the bytes from `start` up to `end`.
#[verifier::external_body]
pub(crate) fn slice_of(code: &str, start: usize, end: usize) -> (r: Option<String>)
    ensures
        r is Some <==> valid_slice(bytes_of(code@), start as int, end as int),
        r matches Some(s) ==> encode_utf8(s@) == bytes_of(code@).subrange(start as int, end as int),
{
    code.get(start..end).map(|s| s.to_string())
}

/// The largest end among `end` and the ends of `rs`.
pub open spec fn furthest_end(rs: Seq<Range>, end: int) -> int
    decreases rs.len(),
{
    if rs.len() == 0 {
        end
    } else {
        let e = furthest_end(rs.drop_last(), end);
        if rs.last().end_byte > e {
            rs.last().end_byte as int
        } else {
            e
        }
    }
}

pub proof fn lemma_furthest_end_grows(rs: Seq<Range>, end: int)
    ensures
        furthest_end(rs, end) >= end,
        furthest_end(rs, end) == end || exists|i: int|
            0 <= i < rs.len() && furthest_end(rs, end) == rs[i].end_byte,
    decreases rs.len(),
{
    if rs.len() > 0 {
        lemma_furthest_end_grows(rs.drop_last(), end);
        let e = furthest_end(rs.drop_last(), end);
        if e != end {
            let i = choose|i: int| 0 <= i < rs.drop_last().len() && e == rs.drop_last()[i].end_byte;
            assert(rs[i] == rs.drop_last()[i]);
        }
    }
}

impl Match {
    /// The captures form a map, and so do the indentations, whose tags are
    /// all captured tags.
    pub open spec fn wf(&self) -> bool {
        &&& keys_unique(pairs(self.matches@))
        &&& keys_unique(pairs(self.indentations@))
        &&& keys_within(pairs(self.indentations@), pairs(self.matches@))
    }

    /// Where the range ends once grown over the associated elements.
    pub open spec fn expanded_end(&self) -> int {
        furthest_end(self.associated_ranges@, self.range.end_byte as int)
    }

    /// Whether the grown range is a valid slice of `code`.
    pub open spec fn fits(&self, code: Seq<char>) -> bool {
        valid_slice(bytes_of(code), self.range.start_byte as int, self.expanded_end())
    }

    /// `self` is `m` with its range grown over its associated elements: same
    /// start, the furthest end, and the matched text read afresh from `code`.
    pub open spec fn is_expansion_of(&self, m: Match, code: Seq<char>) -> bool {
        &&& self.range.start_byte == m.range.start_byte
        &&& self.range.end_byte == m.expanded_end()
        &&& encode_utf8(self.matched_string@) == bytes_of(code).subrange(
            m.range.start_byte as int,
            m.expanded_end(),
        )
        &&& self.matches == m.matches
        &&& self.indentations == m.indentations
        &&& self.associated_ranges == m.associated_ranges
    }

    pub fn expand_to_associated_matches(&mut self, code: &str)
        requires
            old(self).fits(code@),
        ensures
            final(self).is_expansion_of(*old(self), code@),
    {
        let mut end = self.range.end_byte;
        let mut i: usize = 0;
        while i < self.associated_ranges.len()
            invariant
                i <= self.associated_ranges.len(),
                end == furthest_end(self.associated_ranges@.subrange(0, i as int), self.range.end_byte as int),
            decreases self.associated_ranges.len() - i,
        {
            let ghost upto = self.associated_ranges@.subrange(0, i + 1);
            assert(upto.drop_last() =~= self.associated_ranges@.subrange(0, i as int));
            if self.associated_ranges[i].end_byte > end {
                end = self.associated_ranges[i].end_byte;
            }
            i = i + 1;
        }
        assert(self.associated_ranges@.subrange(0, i as int) =~= self.associated_ranges@);
        match slice_of(code, self.range.start_byte, end) {
            Some(s) => {
                self.matched_string = s;
            },
            None => {},
        }
        self.range.end_byte = end;
    }
}

/// Whether the match at `i` may be chosen under the optional exclusive bound
/// on start bytes.
pub open spec fn below_bound(ms: Seq<Match>, i: int, bound: Option<usize>) -> bool {
    match bound {
        Some(b) => ms[i].range.start_byte < b,
        None => true,
    }
}

/// The match at `i` is the one chosen: among those under the bound it starts
/// furthest right, and comes first in list order among those starting there.
pub open spec fn is_selected(ms: Seq<Match>, i: int, bound: Option<usize>) -> bool {
    &&& 0 <= i < ms.len()
    &&& below_bound(ms, i, bound)
    &&& forall|j: int|
        0 <= j < ms.len() && below_bound(ms, j, bound) ==> ms[j].range.start_byte
            <= ms[i].range.start_byte
    &&& forall|j: int|
        0 <= j < i && below_bound(ms, j, bound) ==> ms[j].range.start_byte
            < ms[i].range.start_byte
}

pub open spec fn any_below(ms: Seq<Match>, bound: Option<usize>) -> bool {
    exists|i: int| 0 <= i < ms.len() && below_bound(ms, i, bound)
}

/// Chooses one match: the rightmost by start byte, among those that start
/// before `bound` when one is given.
pub fn select_match(ms: &Vec<Match>, bound: Option<usize>) -> (r: Option<usize>)
    ensures
        match r {
            Some(i) => is_selected(ms@, i as int, bound),
            None => !any_below(ms@, bound),
        },
{
    let mut best: Option<usize> = None;
    let mut i: usize = 0;
    while i < ms.len()
        invariant
            i <= ms.len(),
            match best {
                Some(b) => b < i && is_selected(ms@.subrange(0, i as int), b as int, bound),
                None => !any_below(ms@.subrange(0, i as int), bound),
            },
        decreases ms.len() - i,
    {
        let ghost pre = ms@.subrange(0, i as int);
        let ghost post = ms@.subrange(0, i + 1);
        let ghost old_best = best;
        let eligible = match bound {
            Some(b) => ms[i].range.start_byte < b,
            None => true,
        };
        if eligible {
            match best {
                Some(b) => {
                    if ms[i].range.start_byte > ms[b].range.start_byte {
                        best = Some(i);
                    }
                },
                None => {
                    best = Some(i);
                },
            }
        }
        proof {
            assert forall|j: int| 0 <= j < i implies #[trigger] post[j] == pre[j] by {}
            assert(post[i as int] == ms@[i as int]);
            assert forall|j: int| 0 <= j < i implies below_bound(post, j, bound) == below_bound(pre, j, bound) by {
                assert(post[j] == pre[j]);
            }
            assert(below_bound(post, i as int, bound) == eligible);
            match best {
                Some(b) => {
                    assert forall|j: int| 0 <= j < post.len() && below_bound(post, j, bound) implies post[j].range.start_byte
                        <= post[b as int].range.start_byte by {
                        if j < i {
                            assert(post[j] == pre[j]);
                            assert(below_bound(pre, j, bound));
                        }
                    }
                    assert forall|j: int| 0 <= j < b && below_bound(post, j, bound) implies post[j].range.start_byte
                        < post[b as int].range.start_byte by {
                        assert(post[j] == pre[j]);
                        assert(below_bound(pre, j, bound));
                        if old_best is Some && b < i {
                            assert(old_best == Some(b));
                        }
                    }
                },
                None => {
                    assert(!any_below(post, bound)) by {
                        if any_below(post, bound) {
                            let j = choose|j: int| 0 <= j < post.len() && below_bound(post, j, bound);
                            assert(below_bound(pre, j, bound));
                        }
                    }
                },
            }
        }
        i = i + 1;
    }
    assert(ms@.subrange(0, i as int) =~= ms@);
    best
}

/// Growing a match over its associated elements keeps its start byte and
/// never pulls its end byte back.
pub proof fn lemma_expansion_only_grows(grown: Match, m: Match, code: Seq<char>)
    requires
        grown.is_expansion_of(m, code),
    ensures
        grown.range.start_byte == m.range.start_byte,
        grown.range.end_byte >= m.range.end_byte,
{
    lemma_furthest_end_grows(m.associated_ranges@, m.range.end_byte as int);
}

} // verus!
