//! Deterministic finite automata.

use vstd::prelude::*;
use crate::automaton::{
    add_rule, add_states_to, alphabet_exact, copies_from, copies_of, lemma_names_one,
    lemma_same_arcs_same_symbols, refs_of, refs_outside, FiniteAutomaton,
};
use crate::graph::{add_node, arc, graph_wf, Graph};
use crate::input::Input;
use crate::lexical::Text;
use crate::ordered::OrdSet;
use crate::result::{Error, IResult};
use crate::state::State;
use crate::state_map::StateMap;

verus! {

/// A deterministic finite automaton. It has at most one initial state, which is set once.
#[derive(Debug)]
pub struct DFA {
    /// The initial state, once it is set.
    pub initial_state: Option<State>,
    /// The accepting states.
    pub finite_states: OrdSet<State>,
    /// The symbols other than epsilon that label some transition.
    pub feasible_inputs: OrdSet<Input>,
    /// The transitions: from each state, the arcs that leave it.
    pub adjacency_matrix: Graph,
}

impl FiniteAutomaton for DFA {
    open spec fn wf(&self) -> bool {
        &&& self.finite_states.wf()
        &&& self.feasible_inputs.wf()
        &&& graph_wf(&self.adjacency_matrix)
        &&& self.initial().subset_of(self.adjacency_matrix.dom())
        &&& self.finite_states@.subset_of(self.adjacency_matrix.dom())
        &&& alphabet_exact(self.feasible_inputs@, &self.adjacency_matrix)
    }

    open spec fn states(&self) -> Set<Text> {
        self.adjacency_matrix.dom()
    }

    open spec fn initial(&self) -> Set<Text> {
        match self.initial_state {
            Some(s) => set![s@],
            None => Set::empty(),
        }
    }

    open spec fn accepting(&self) -> Set<Text> {
        self.finite_states@
    }

    open spec fn alphabet(&self) -> Set<Text> {
        self.feasible_inputs@
    }

    open spec fn has_transition(&self, from: Text, symbol: Text, to: Text) -> bool {
        arc(&self.adjacency_matrix, from, symbol, to)
    }

    fn new() -> (a: Self)
        ensures
            a.initial_state is None,
    {
        DFA {
            initial_state: None,
            finite_states: OrdSet::new(),
            feasible_inputs: OrdSet::new(),
            adjacency_matrix: StateMap::new(),
        }
    }

    /// Sets the initial state. Succeeds when no initial state is set yet and
    /// `initial_states` names exactly one state. Where an initial state is set already
    /// the operation is unsupported; otherwise, where `initial_states` does not hold
    /// exactly one name, the argument is illegal.
    fn add_initial_states(&mut self, initial_states: &[&str]) -> (r: IResult<()>)
        ensures
            r is Ok <==> old(self).initial_state is None && initial_states@.len() == 1,
            old(self).initial_state is Some ==> r matches Err(Error::UnsupportedOperation(_)),
            old(self).initial_state is None && initial_states@.len() != 1 ==> r matches Err(
                Error::IllegalArgument(_),
            ),
            r is Ok ==> final(self).initial() == set![initial_states@[0]@],
            r is Err ==> *final(self) == *old(self),
    {
        if self.initial_state.is_some() {
            return Err(
                Error::UnsupportedOperation(
                    "Initial state is already specified. A DFA has at most one initial state.",
                ),
            );
        }
        if initial_states.len() == 1 {
            let id = initial_states[0];
            self.initial_state = Some(State::new(id));
            add_node(&mut self.adjacency_matrix, id);
            proof {
                assert(initial_states@ =~= seq![id]);
                lemma_names_one(id);
                lemma_same_arcs_same_symbols(&self.adjacency_matrix, &old(self).adjacency_matrix);
                assert(self.initial() =~= old(self).initial().union(set![id@]));
                assert(self.states() =~= old(self).states().union(set![id@]));
            }
            Ok(())
        } else {
            Err(
                Error::IllegalArgument(
                    "Unexpected number of initial states. A DFA has at most one state.",
                ),
            )
        }
    }

    fn add_finite_states(&mut self, finite_states: &[&str]) -> (r: IResult<()>) {
        add_states_to(&mut self.finite_states, &mut self.adjacency_matrix, finite_states);
        proof {
            lemma_same_arcs_same_symbols(&self.adjacency_matrix, &old(self).adjacency_matrix);
        }
        Ok(())
    }

    fn add_transfer_rule(&mut self, from_state_id: &str, input_str: &str, to_state_id: &str) -> (r:
        IResult<()>) {
        add_rule(
            &mut self.feasible_inputs,
            &mut self.adjacency_matrix,
            from_state_id,
            input_str,
            to_state_id,
        );
        Ok(())
    }

    fn get_all_states_iter(&self) -> (v: Vec<&State>) {
        refs_of(&self.adjacency_matrix.keys)
    }

    fn get_all_states_into_iter(&self) -> (v: Vec<State>) {
        copies_of(&self.adjacency_matrix.keys)
    }

    fn get_all_finite_states_iter(&self) -> (v: Vec<&State>) {
        refs_of(&self.finite_states)
    }

    fn get_all_finite_states_into_iter(&self) -> (v: Vec<State>) {
        copies_of(&self.finite_states)
    }

    fn get_all_infinite_states_iter(&self) -> (v: Vec<&State>) {
        refs_outside(&self.adjacency_matrix.keys, &self.finite_states)
    }

    fn get_all_infinite_states_into_iter(&self) -> (v: Vec<State>) {
        let refs = self.get_all_infinite_states_iter();
        copies_from(&refs)
    }

    fn get_states_num(&self) -> (n: usize) {
        self.adjacency_matrix.len()
    }
}

} // verus!
