//! Input symbols.

use vstd::prelude::*;
use vstd::std_specs::cmp::PartialEqSpecImpl;
use crate::lexical::Text;
use crate::ordered::Textual;
use crate::lexical::{compare_text, Rank};

verus! {

/// The reserved symbol of a transition that is taken without reading any input.
pub const EPSILON: &'static str = "\u{25b}";

/// The characters of [`EPSILON`].
pub open spec fn epsilon() -> Text {
    EPSILON@
}

/// Whether `input_str` is the reserved symbol [`EPSILON`].
pub fn is_epsilon(input_str: &str) -> (r: bool)
    ensures
        r == (input_str@ == epsilon()),
{
    compare_text(input_str, EPSILON) == Rank::Same
}

/// The label of a transition. Two symbols are the same symbol when they hold the same
/// characters. One symbol, [`EPSILON`], labels the transitions that read no input.
#[derive(Debug)]
pub struct Input {
    pub input_str: String,
}

impl View for Input {
    type V = Text;

    open spec fn view(&self) -> Text {
        self.input_str@
    }
}

impl Input {
    /// The symbol written `input_str`.
    pub fn new(input_str: &str) -> (s: Input)
        ensures
            s@ == input_str@,
    {
        Input { input_str: input_str.to_owned() }
    }

    /// The characters of the symbol.
    pub fn get_str(&self) -> (s: &str)
        ensures
            s@ == self@,
    {
        self.input_str.as_str()
    }
}

impl Textual for Input {
    open spec fn text(&self) -> Text {
        self.input_str@
    }

    fn as_text(&self) -> (s: &str) {
        self.input_str.as_str()
    }

    fn from_text(s: &str) -> (r: Self) {
        Input::new(s)
    }
}

impl Clone for Input {
    fn clone(&self) -> (r: Self)
        ensures
            r@ == self@,
    {
        Input { input_str: self.input_str.clone() }
    }
}

impl PartialEq for Input {
    fn eq(&self, other: &Self) -> (r: bool) {
        self.input_str == other.input_str
    }
}

impl PartialEqSpecImpl for Input {
    open spec fn obeys_eq_spec() -> bool {
        true
    }

    open spec fn eq_spec(&self, other: &Self) -> bool {
        self.input_str@ == other.input_str@
    }
}

impl Eq for Input {

}

} // verus!
