//! The edit that one match of one rule proposes.
use vstd::prelude::*;
use crate::matches::{bytes_of, valid_slice, Match, Range};
use crate::template::pairs;
use crate::text::{all_ws, chars_of, is_blank};
use vstd::utf8::encode_utf8;

verus! {

/// The text that the derived `Debug` of an edit renders, as a function of its
/// field values: matched text, range bounds, captures, indentations,
/// associated ranges, replacement, rule name.
pub uninterp spec fn edit_debug(
    matched: Seq<char>,
    start: usize,
    end: usize,
    matches: Seq<(Seq<char>, Seq<char>)>,
    indentations: Seq<(Seq<char>, Seq<char>)>,
    associated: Seq<(usize, usize)>,
    replacement: Seq<char>,
    rule: Seq<char>,
) -> Seq<char>;

/// A proposed replacement of the text under a match.
#[derive(Clone, Debug)]
pub struct Edit {
    /// The target site of the edit.
    pub p_match: Match,
    /// What replaces the text that the match spans.
    pub replacement_string: String,
    /// The name of the rule that proposed the edit.
    pub matched_rule: String,
}

/// The name and the replacement template of a rule.
#[derive(Clone, Debug)]
pub struct InstantiatedRule {
    pub name: String,
    pub replace: String,
}

impl Edit {
    /// Whether the edit deletes: its replacement is empty once trimmed.
    pub open spec fn deletes(&self) -> bool {
        all_ws(self.replacement_string@)
    }

    /// A deletion takes the elements associated with the match along.
    pub fn new(p_match: Match, replacement_string: String, matched_rule: String, code: &str) -> (r: Self)
        requires
            all_ws(replacement_string@) ==> p_match.fits(code@),
        ensures
            r.replacement_string == replacement_string,
            r.matched_rule == matched_rule,
            if all_ws(replacement_string@) {
                r.p_match.is_expansion_of(p_match, code@)
            } else {
                r.p_match == p_match
            },
    {
        let mut edit = Edit { p_match, replacement_string, matched_rule };
        if edit.is_delete() {
            edit.p_match.expand_to_associated_matches(code);
        }
        edit
    }

    /// An edit that deletes `code[range]`, under the rule name "Delete Range".
    pub fn delete_range(code: &str, range: Range) -> (r: Self)
        requires
            valid_slice(bytes_of(code@), range.start_byte as int, range.end_byte as int),
        ensures
            r.p_match.range == range,
            encode_utf8(r.p_match.matched_string@) == bytes_of(code@).subrange(
                range.start_byte as int,
                range.end_byte as int,
            ),
            r.p_match.matches@.len() == 0,
            r.p_match.indentations@.len() == 0,
            r.p_match.associated_ranges@.len() == 0,
            r.replacement_string@.len() == 0,
            r.matched_rule@ == "Delete Range"@,
    {
        let matched_string = match crate::matches::slice_of(code, range.start_byte, range.end_byte) {
            Some(s) => s,
            None => String::new(),
        };
        let matched_rule = String::from_str("Delete Range");
        proof {
            reveal_strlit("Delete Range");
        }
        Edit {
            p_match: Match {
                matched_string,
                range,
                matches: Vec::new(),
                indentations: Vec::new(),
                associated_ranges: Vec::new(),
            },
            replacement_string: String::new(),
            matched_rule,
        }
    }

    pub fn is_delete(&self) -> (r: bool)
        ensures
            r == self.deletes(),
    {
        let cs = chars_of(self.replacement_string.as_str());
        is_blank(&cs)
    }

    /// Relies on the `Debug` rendering that `derive` gives `Edit`, through
    /// `format!`: the text depends on the field values alone.
    #[verifier::external_body]
    pub fn __repr__(&self) -> (r: String)
        ensures
            r@ == edit_debug(
                self.p_match.matched_string@,
                self.p_match.range.start_byte,
                self.p_match.range.end_byte,
                pairs(self.p_match.matches@),
                pairs(self.p_match.indentations@),
                self.p_match.associated_ranges@.map_values(|g: Range| (g.start_byte, g.end_byte)),
                self.replacement_string@,
                self.matched_rule@,
            ),
    {
        format!("{:?}", self)
    }

    /// The same text as `__repr__`.
    pub fn __str__(&self) -> (r: String)
        ensures
            r@ == edit_debug(
                self.p_match.matched_string@,
                self.p_match.range.start_byte,
                self.p_match.range.end_byte,
                pairs(self.p_match.matches@),
                pairs(self.p_match.indentations@),
                self.p_match.associated_ranges@.map_values(|g: Range| (g.start_byte, g.end_byte)),
                self.replacement_string@,
                self.matched_rule@,
            ),
    {
        self.__repr__()
    }

    /// Whether the edit puts text in place of the match (an empty replacement
    /// is reported as a deletion).
    pub fn is_update(&self) -> (r: bool)
        ensures
            r == (self.replacement_string@.len() > 0),
    {
        !self.replacement_string.as_str().is_empty()
    }

    /// The label of the edit in verbose output.
    pub fn kind_label(&self) -> (r: String)
        ensures
            r@ == (if self.replacement_string@.len() > 0 {
                "Update code"@
            } else {
                "Delete code"@
            }),
    {
        proof {
            reveal_strlit("Update code");
            reveal_strlit("Delete code");
        }
        if self.is_update() {
            String::from_str("Update code")
        } else {
            String::from_str("Delete code")
        }
    }

    pub fn p_match(&self) -> (r: &Match)
        ensures
            *r == self.p_match,
    {
        &self.p_match
    }

    pub fn replacement_string(&self) -> (r: &String)
        ensures
            *r == self.replacement_string,
    {
        &self.replacement_string
    }

    pub fn matched_rule(&self) -> (r: &String)
        ensures
            *r == self.matched_rule,
    {
        &self.matched_rule
    }
}

} // verus!
