//! A named view onto tasks.

use vstd::prelude::*;

use crate::view::text_of;
use crate::view::FormulaPair;

verus! {

/// A named view onto tasks, selecting them by a formula over their tags.
#[derive(Debug)]
pub struct View {
    pub name: String,
    pub formula: FormulaPair,
}

impl Clone for View {
    fn clone(&self) -> (res: View)
        ensures
            text_of(&res.name) == text_of(&self.name),
            text_of(&res.formula.string) == text_of(&self.formula.string),
            res.formula.formula == self.formula.formula,
    {
        View { name: self.name.clone(), formula: self.formula.clone() }
    }
}

impl PartialEq for View {
    fn eq(&self, other: &View) -> (res: bool) {
        self.name == other.name && self.formula == other.formula
    }
}

impl vstd::std_specs::cmp::PartialEqSpecImpl for View {
    open spec fn obeys_eq_spec() -> bool {
        true
    }

    open spec fn eq_spec(&self, other: &View) -> bool {
        text_of(&self.name) == text_of(&other.name) && text_of(&self.formula.string) == text_of(&other.formula.string)
    }
}

impl Eq for View {
}
} // verus!
