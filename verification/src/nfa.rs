use vstd::prelude::*;

verus! {

/// One node of the automaton graph: the ordered list of its outgoing
/// transitions. Order matters only for determinism of traversal; the
/// matcher treats active sets of states as unordered.
#[derive(Debug, Clone)]
pub struct State {
    pub transitions: Vec<Transition>,
}

/// One edge of the automaton graph. Targets are indices into the state
/// table of the owning [`NFA`].
#[derive(Debug, Clone, Copy)]
pub enum Transition {
    /// Consume one character equal to the given one, move to the target.
    Char(char, usize),
    /// Consume one arbitrary character, move to the target.
    Any(usize),
    /// Consume nothing, move to the target.
    Epsilon(usize),
}

/// A nondeterministic finite automaton: a flat, append-only state table
/// (indices are the state identifiers), one start state and one accept
/// state. The accept state may carry outgoing transitions; matching
/// treats reaching it as success regardless.
#[derive(Debug, Clone)]
pub struct NFA {
    pub states: Vec<State>,
    pub start: usize,
    pub accept: usize,
}

/// A `(start, accept)` index pair naming a sub-automaton while an
/// automaton is under construction.
pub struct NfaFragment {
    pub start: usize,
    pub accept: usize,
}

/// The index a transition leads to.
pub open spec fn target_of(t: Transition) -> int {
    match t {
        Transition::Char(_, x) => x as int,
        Transition::Any(x) => x as int,
        Transition::Epsilon(x) => x as int,
    }
}

/// The mathematical model of a state table: for each state, the sequence
/// of its outgoing transitions.
pub open spec fn states_model(s: Seq<State>) -> Seq<Seq<Transition>> {
    s.map_values(|st: State| st.transitions@)
}

/// Every transition of the table leads to a valid index of the table.
pub open spec fn targets_ok(t: Seq<Seq<Transition>>) -> bool {
    forall|p: int, k: int|
        0 <= p < t.len() && 0 <= k < t[p].len() ==> target_of(#[trigger] t[p][k]) < t.len()
}

impl NFA {
    /// The model of this automaton's state table.
    pub open spec fn trans(self) -> Seq<Seq<Transition>> {
        states_model(self.states@)
    }

    /// Well-formedness: the start and accept indices and every transition
    /// target point into the state table.
    pub open spec fn wf(self) -> bool {
        &&& self.start < self.states@.len()
        &&& self.accept < self.states@.len()
        &&& targets_ok(self.trans())
    }
}

} // verus!
