//! The core of cascading structural rewrites: instantiating a rule's
//! replacement template from a match's captures, choosing one match in a
//! scope, turning it into an edit, and cascading rules over the scopes that
//! enclose a previous edit.
use vstd::prelude::*;

pub mod text;
pub mod lines;
pub mod template;
pub mod matches;
pub mod edit;
pub mod source_code_unit;

verus! {

} // verus!
