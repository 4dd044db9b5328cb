//! The symbols that label the arc between two states.

use vstd::prelude::*;
use crate::input::Input;
use crate::lexical::Text;
use crate::ordered::{OrdSet, Textual};

verus! {

/// The set of the symbols on which an automaton moves from one state to another.
#[derive(Debug)]
pub struct Edge {
    pub input_set: OrdSet<Input>,
}

impl View for Edge {
    type V = Set<Text>;

    open spec fn view(&self) -> Set<Text> {
        self.input_set@
    }
}

impl Edge {
    /// The symbols are held in dictionary order.
    pub open spec fn wf(&self) -> bool {
        self.input_set.wf()
    }

    /// The edge labelled by the symbols of `inputs`.
    pub fn with_inputs(inputs: Vec<Input>) -> (e: Edge)
        ensures
            e.wf(),
            e@ == inputs@.map_values(|x: Input| x@).to_set(),
    {
        let e = Edge { input_set: OrdSet::from_items(inputs) };
        assert(inputs@.map_values(|x: Input| x@) =~= inputs@.map_values(|x: Input| x.text()));
        e
    }

    /// Whether `input_str` is one of the symbols of the edge.
    pub fn contains_input(&self, input_str: &str) -> (r: bool)
        requires
            self.wf(),
        ensures
            r == self@.contains(input_str@),
    {
        self.input_set.contains(input_str)
    }

    /// Adds the symbol `input_str` to the edge.
    pub fn add_input(&mut self, input_str: &str)
        requires
            old(self).wf(),
        ensures
            final(self).wf(),
            final(self)@ == old(self)@.insert(input_str@),
    {
        self.input_set.insert(Input::new(input_str));
    }
}

} // verus!
