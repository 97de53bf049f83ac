//! Edits for one source text: a rule's edit in one scope, and the cascade of
//! rules over the scopes that enclose a previous edit.
use vstd::prelude::*;
use crate::edit::{Edit, InstantiatedRule};
use crate::matches::{any_below, is_selected, select_match, Match};
use crate::template::{instantiate_text, instantiated, pairs};
use crate::text::{all_ws, chars_of, string_of};

verus! {

/// The source text that edits are computed against.
pub struct SourceCodeUnit {
    pub code: String,
}

/// `e` is the edit that `rule` proposes at `m`: the template instantiated with
/// the match's captures, and a deletion grown over the associated elements.
pub open spec fn is_edit_for(e: Edit, m: Match, rule: InstantiatedRule, code: Seq<char>) -> bool {
    let text = instantiated(rule.replace@, pairs(m.matches@), pairs(m.indentations@));
    &&& e.replacement_string@ == text
    &&& e.matched_rule == rule.name
    &&& if all_ws(text) {
        e.p_match.is_expansion_of(m, code)
    } else {
        e.p_match == m
    }
}

/// A rule of a bucket, with the matches of its query at each ancestor scope
/// of the anchor, innermost first.
pub struct Candidates {
    pub rule: InstantiatedRule,
    pub per_ancestor: Vec<Vec<Match>>,
}

/// The two buckets of rules that may apply to the scopes enclosing an edit:
/// `parent` in rule-priority order, `parent_iterative` in distance-priority order.
pub struct NextRules {
    pub parent: Vec<Candidates>,
    pub parent_iterative: Vec<Candidates>,
}

/// Rule `r` of bucket `b` has a match at ancestor `a`, one of the first `depth`.
pub open spec fn has_match(b: Seq<Candidates>, r: int, a: int, depth: int) -> bool {
    &&& 0 <= r < b.len()
    &&& 0 <= a < b[r].per_ancestor@.len()
    &&& a < depth
    &&& b[r].per_ancestor@[a]@.len() > 0
}

pub open spec fn any_match(b: Seq<Candidates>, depth: int) -> bool {
    exists|r: int, a: int| has_match(b, r, a, depth)
}

/// `(r, a)` is the first attempt that matches when rules form the outer loop.
pub open spec fn first_by_rule(b: Seq<Candidates>, depth: int, r: int, a: int) -> bool {
    &&& has_match(b, r, a, depth)
    &&& forall|r2: int, a2: int|
        #[trigger] has_match(b, r2, a2, depth) ==> r < r2 || (r == r2 && a <= a2)
}

/// `(r, a)` is the first attempt that matches when ancestors form the outer loop.
pub open spec fn first_by_distance(b: Seq<Candidates>, depth: int, r: int, a: int) -> bool {
    &&& has_match(b, r, a, depth)
    &&& forall|r2: int, a2: int|
        #[trigger] has_match(b, r2, a2, depth) ==> a < a2 || (a == a2 && r <= r2)
}

/// `e` is the edit of rule `r` of bucket `b` at ancestor `a`.
pub open spec fn is_edit_at(e: Edit, b: Seq<Candidates>, r: int, a: int, code: Seq<char>) -> bool {
    let ms = b[r].per_ancestor@[a]@;
    exists|i: int| is_selected(ms, i, None) && is_edit_for(e, #[trigger] ms[i], b[r].rule, code)
}

/// What the cascade yields: the first rule-priority attempt that matches; else
/// the first distance-priority one; else nothing.
pub open spec fn escalates_to(
    r: Option<Edit>,
    parent: Seq<Candidates>,
    iterative: Seq<Candidates>,
    depth: int,
    code: Seq<char>,
) -> bool {
    match r {
        None => !any_match(parent, depth) && !any_match(iterative, depth),
        Some(e) => if any_match(parent, depth) {
            exists|r: int, a: int| first_by_rule(parent, depth, r, a) && is_edit_at(e, parent, r, a, code)
        } else {
            exists|r: int, a: int|
                first_by_distance(iterative, depth, r, a) && is_edit_at(e, iterative, r, a, code)
        },
    }
}

/// Every match of every rule of `b` is well formed and can be grown within `code`.
pub open spec fn bucket_valid(b: Seq<Candidates>, code: Seq<char>) -> bool {
    forall|r: int, a: int|
        0 <= r < b.len() && 0 <= a < b[r].per_ancestor@.len() ==> all_valid(
            #[trigger] b[r].per_ancestor@[a]@,
            code,
        )
}

fn find_by_rule(b: &Vec<Candidates>, depth: usize) -> (res: Option<(usize, usize)>)
    ensures
        match res {
            Some((r, a)) => first_by_rule(b@, depth as int, r as int, a as int),
            None => !any_match(b@, depth as int),
        },
{
    let mut r: usize = 0;
    while r < b.len()
        invariant
            r <= b.len(),
            forall|r2: int, a2: int| 0 <= r2 < r ==> !has_match(b@, r2, a2, depth as int),
        decreases b.len() - r,
    {
        let mut a: usize = 0;
        while a < b[r].per_ancestor.len() && a < depth
            invariant
                r < b.len(),
                forall|r2: int, a2: int| 0 <= r2 < r ==> !has_match(b@, r2, a2, depth as int),
                forall|a2: int| 0 <= a2 < a ==> !has_match(b@, r as int, a2, depth as int),
            decreases b[r as int].per_ancestor@.len() - a,
        {
            if b[r].per_ancestor[a].len() > 0 {
                return Some((r, a));
            }
            a = a + 1;
        }
        r = r + 1;
    }
    None
}

fn find_by_distance(b: &Vec<Candidates>, depth: usize) -> (res: Option<(usize, usize)>)
    ensures
        match res {
            Some((r, a)) => first_by_distance(b@, depth as int, r as int, a as int),
            None => !any_match(b@, depth as int),
        },
{
    let mut widest: usize = 0;
    let mut k: usize = 0;
    while k < b.len()
        invariant
            k <= b.len(),
            forall|r2: int| 0 <= r2 < k ==> b@[r2].per_ancestor@.len() <= widest,
        decreases b.len() - k,
    {
        if b[k].per_ancestor.len() > widest {
            widest = b[k].per_ancestor.len();
        }
        k = k + 1;
    }
    let mut a: usize = 0;
    while a < widest && a < depth
        invariant
            forall|r2: int| 0 <= r2 < b.len() ==> b@[r2].per_ancestor@.len() <= widest,
            forall|r2: int, a2: int| 0 <= a2 < a ==> !has_match(b@, r2, a2, depth as int),
        decreases widest - a,
    {
        let mut r: usize = 0;
        while r < b.len()
            invariant
                a < widest,
                a < depth,
                forall|r2: int, a2: int| 0 <= a2 < a ==> !has_match(b@, r2, a2, depth as int),
                forall|r2: int| 0 <= r2 < r ==> !has_match(b@, r2, a as int, depth as int),
            decreases b.len() - r,
        {
            if a < b[r].per_ancestor.len() && b[r].per_ancestor[a].len() > 0 {
                return Some((r, a));
            }
            r = r + 1;
        }
        a = a + 1;
    }
    None
}

fn take_cell(b: Vec<Candidates>, r: usize, a: usize) -> (res: (InstantiatedRule, Vec<Match>))
    requires
        r < b.len(),
        a < b[r as int].per_ancestor@.len(),
    ensures
        res.0 == b[r as int].rule,
        res.1 == b[r as int].per_ancestor@[a as int],
{
    let mut b = b;
    let mut cand = b.remove(r);
    let ms = cand.per_ancestor.remove(a);
    (cand.rule, ms)
}

/// Every match is well formed and can be grown within `code`.
pub open spec fn all_valid(ms: Seq<Match>, code: Seq<char>) -> bool {
    forall|i: int| 0 <= i < ms.len() ==> (#[trigger] ms[i]).wf() && ms[i].fits(code)
}

impl SourceCodeUnit {
    pub fn new(code: String) -> (r: Self)
        ensures
            r.code == code,
    {
        SourceCodeUnit { code }
    }

    /// The template with each captured substitute put in place of its tag's
    /// markers, re-indented where the tag has an indentation entry.
    /// Markers are replaced in one left-to-right scan per marker spelling (see
    /// `indent_scan`): text that a substitute brings in is not searched again.
    pub fn instantiate(
        &self,
        string: String,
        substitutions: &Vec<(String, String)>,
        indentations: &Vec<(String, String)>,
    ) -> (r: String)
        ensures
            r@ == instantiated(string@, pairs(substitutions@), pairs(indentations@)),
    {
        let t = chars_of(string.as_str());
        let out = instantiate_text(&t, substitutions, indentations);
        string_of(&out)
    }

    /// The edit of `rule` in one scope, given the matches of its query there:
    /// the rightmost match, among those that start before `start_byte` when it
    /// is given.
    pub fn get_edit(&self, rule: &InstantiatedRule, matches: Vec<Match>, start_byte: Option<usize>) -> (r:
        Option<Edit>)
        requires
            all_valid(matches@, self.code@),
        ensures
            match r {
                None => !any_below(matches@, start_byte),
                Some(e) => exists|i: int|
                    is_selected(matches@, i, start_byte) && is_edit_for(e, #[trigger] matches@[i], *rule, self.code@),
            },
    {
        match select_match(&matches, start_byte) {
            None => None,
            Some(i) => {
                let ghost ms = matches@;
                let mut matches = matches;
                let p_match = matches.remove(i);
                assert(ms[i as int].fits(self.code@));
                let replacement_string = self.instantiate(
                    rule.replace.clone(),
                    &p_match.matches,
                    &p_match.indentations,
                );
                let edit = Edit::new(p_match, replacement_string, rule.name.clone(), self.code.as_str());
                assert(is_edit_for(edit, ms[i as int], *rule, self.code@));
                Some(edit)
            },
        }
    }

    /// The next cascading edit among the ancestor scopes of the previous edit.
    /// `next_rules` holds, for each rule, the matches of its query at each
    /// ancestor, innermost first; only the first `depth` ancestors count.
    /// First each rule of `parent` in turn is tried at every ancestor, so rule
    /// order dominates; failing that, every rule of `parent_iterative` is tried
    /// at each ancestor in turn, so proximity dominates.
    pub fn get_edit_for_ancestors(&self, depth: usize, next_rules: NextRules) -> (r: Option<Edit>)
        requires
            bucket_valid(next_rules.parent@, self.code@),
            bucket_valid(next_rules.parent_iterative@, self.code@),
        ensures
            escalates_to(r, next_rules.parent@, next_rules.parent_iterative@, depth as int, self.code@),
    {
        let ghost p = next_rules.parent@;
        let ghost it = next_rules.parent_iterative@;
        let NextRules { parent, parent_iterative } = next_rules;
        let (bucket, found) = match find_by_rule(&parent, depth) {
            Some(ra) => (parent, Some(ra)),
            None => {
                let f = find_by_distance(&parent_iterative, depth);
                (parent_iterative, f)
            },
        };
        let ghost bv = bucket@;
        match found {
            None => None,
            Some((r, a)) => {
                assert(has_match(bv, r as int, a as int, depth as int));
                let (rule, ms) = take_cell(bucket, r, a);
                assert(all_valid(bv[r as int].per_ancestor@[a as int]@, self.code@));
                let e = self.get_edit(&rule, ms, None);
                assert(any_below(ms@, None)) by {
                    assert(0 < ms@.len());
                    assert(crate::matches::below_bound(ms@, 0, None));
                }
                proof {
                    if !any_match(p, depth as int) {
                        assert(bv == it);
                    } else {
                        assert(bv == p);
                    }
                }
                e
            },
        }
    }
}

/// Rule order beats distance in the rule-priority bucket: with ancestors A
/// (inner) and B (outer) and rules R1 then R2, where R1 matches only at B and
/// R2 only at A, the cascade yields R1's edit at B.
pub proof fn lemma_rule_priority(
    r: Option<Edit>,
    parent: Seq<Candidates>,
    iterative: Seq<Candidates>,
    code: Seq<char>,
)
    requires
        parent.len() == 2,
        forall|a: int| #[trigger] has_match(parent, 0, a, 2) <==> a == 1,
        forall|a: int| #[trigger] has_match(parent, 1, a, 2) <==> a == 0,
        escalates_to(r, parent, iterative, 2, code),
    ensures
        r matches Some(e) && is_edit_at(e, parent, 0, 1, code),
{
    assert(has_match(parent, 0, 1, 2));
    assert(any_match(parent, 2));
    let e = r->0;
    let (r1, a1) = choose|r1: int, a1: int|
        first_by_rule(parent, 2, r1, a1) && is_edit_at(e, parent, r1, a1, code);
    assert(has_match(parent, 1, 0, 2));
    assert(r1 == 0 || r1 == 1);
    if r1 == 1 {
        assert(has_match(parent, 0, 1, 2));
    }
    assert(has_match(parent, 0, a1, 2));
}

/// Distance beats rule order in the distance-priority bucket: with the same
/// ancestors and rules as above and no rule-priority match, the cascade
/// yields R2's edit at A.
pub proof fn lemma_distance_priority(
    r: Option<Edit>,
    parent: Seq<Candidates>,
    iterative: Seq<Candidates>,
    code: Seq<char>,
)
    requires
        !any_match(parent, 2),
        iterative.len() == 2,
        forall|a: int| #[trigger] has_match(iterative, 0, a, 2) <==> a == 1,
        forall|a: int| #[trigger] has_match(iterative, 1, a, 2) <==> a == 0,
        escalates_to(r, parent, iterative, 2, code),
    ensures
        r matches Some(e) && is_edit_at(e, iterative, 1, 0, code),
{
    assert(has_match(iterative, 1, 0, 2));
    assert(any_match(iterative, 2));
    let e = r->0;
    let (r1, a1) = choose|r1: int, a1: int|
        first_by_distance(iterative, 2, r1, a1) && is_edit_at(e, iterative, r1, a1, code);
    assert(has_match(iterative, 0, 1, 2));
    assert(r1 == 0 || r1 == 1);
    if r1 == 0 {
        assert(a1 == 1);
        assert(has_match(iterative, 1, 0, 2));
    }
    assert(has_match(iterative, 1, a1, 2));
}

/// Where no rule of either bucket matches at any of the first `depth`
/// ancestors, the cascade yields nothing.
pub proof fn lemma_no_match_no_edit(
    r: Option<Edit>,
    parent: Seq<Candidates>,
    iterative: Seq<Candidates>,
    depth: int,
    code: Seq<char>,
)
    requires
        forall|i: int, a: int|
            0 <= i < parent.len() && 0 <= a < parent[i].per_ancestor@.len() && a < depth
                ==> (#[trigger] parent[i].per_ancestor@[a]@).len() == 0,
        forall|i: int, a: int|
            0 <= i < iterative.len() && 0 <= a < iterative[i].per_ancestor@.len() && a < depth
                ==> (#[trigger] iterative[i].per_ancestor@[a]@).len() == 0,
        escalates_to(r, parent, iterative, depth, code),
    ensures
        r is None,
{
    if r is Some {
        if any_match(parent, depth) {
            let (i, a) = choose|i: int, a: int| has_match(parent, i, a, depth);
            assert(parent[i].per_ancestor@[a]@.len() == 0);
        } else {
            let e = r->0;
            let (i, a) = choose|i: int, a: int|
                first_by_distance(iterative, depth, i, a) && is_edit_at(e, iterative, i, a, code);
            assert(iterative[i].per_ancestor@[a]@.len() == 0);
        }
    }
}

} // verus!
