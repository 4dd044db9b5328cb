//! State identifiers.

use vstd::prelude::*;
use vstd::std_specs::cmp::PartialEqSpecImpl;
use crate::lexical::Text;
use crate::ordered::Textual;

verus! {

/// The name of a state of an automaton. Two states are the same state when their
/// identifiers hold the same characters.
#[derive(Debug)]
pub struct State {
    pub state_id: String,
}

impl View for State {
    type V = Text;

    open spec fn view(&self) -> Text {
        self.state_id@
    }
}

impl State {
    /// The state named `state_id`.
    pub fn new(state_id: &str) -> (s: State)
        ensures
            s@ == state_id@,
    {
        State { state_id: state_id.to_owned() }
    }
}

impl Textual for State {
    open spec fn text(&self) -> Text {
        self.state_id@
    }

    fn as_text(&self) -> (s: &str) {
        self.state_id.as_str()
    }

    fn from_text(s: &str) -> (r: Self) {
        State::new(s)
    }
}

impl Clone for State {
    fn clone(&self) -> (r: Self)
        ensures
            r@ == self@,
    {
        State { state_id: self.state_id.clone() }
    }
}

impl PartialEq for State {
    fn eq(&self, other: &Self) -> (r: bool) {
        self.state_id == other.state_id
    }
}

impl PartialEqSpecImpl for State {
    open spec fn obeys_eq_spec() -> bool {
        true
    }

    open spec fn eq_spec(&self, other: &Self) -> bool {
        self.state_id@ == other.state_id@
    }
}

impl Eq for State {

}

} // verus!
