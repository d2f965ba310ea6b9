use vstd::prelude::*;

verus! {

/// The state every walk starts from.
pub const START_STATE: u64 = 1;

/// One entry of the transition relation: from `cur_state`, reading
/// `character`, the automaton moves to `next_state`. `order_index` only
/// records where the compiler placed the entry and carries no meaning.
#[derive(Clone, Copy, Debug, PartialEq, Eq)]
pub struct Transition {
    pub character: u8,
    pub cur_state: u64,
    pub order_index: usize,
    pub next_state: u64,
}

/// The (current_state, next_state) pairs that belong to one named substring.
#[derive(Clone, Debug)]
pub struct SubstrDef {
    pub valid_state_transitions: Vec<(u64, u64)>,
}

/// A deterministic automaton, already resolved to its transition relation.
#[derive(Clone, Debug)]
pub struct Automaton {
    pub transitions: Vec<Transition>,
    pub accepted_states: Vec<u64>,
    pub substr_defs: Vec<SubstrDef>,
}

/// Reasons for which an automaton description is refused.
#[derive(Clone, Copy, Debug, PartialEq, Eq)]
pub enum AutomatonError {
    /// Two entries share the same (character, current_state) key.
    DuplicateTransition,
}

/// Some entry of `t` leaves `s` on `c`.
pub open spec fn has_key(t: Seq<Transition>, c: u8, s: u64) -> bool {
    exists|i: int| 0 <= i < t.len() && t[i].character == c && t[i].cur_state == s
}

/// Some entry of `t` leaves `s` on `c` for `n`.
pub open spec fn has_transition(t: Seq<Transition>, c: u8, s: u64, n: u64) -> bool {
    exists|i: int|
        0 <= i < t.len() && t[i].character == c && t[i].cur_state == s && t[i].next_state == n
}

/// No two entries share a (character, current_state) key.
pub open spec fn keys_unique(t: Seq<Transition>) -> bool {
    forall|i: int, j: int|
        0 <= i < t.len() && 0 <= j < t.len() && i != j ==> !(t[i].character == t[j].character
            && t[i].cur_state == t[j].cur_state)
}

/// The state that follows `s` on `c`: the successor where the relation has
/// one, otherwise the start state.
pub open spec fn step(t: Seq<Transition>, c: u8, s: u64, n: u64) -> bool {
    if has_key(t, c, s) {
        has_transition(t, c, s, n)
    } else {
        n == START_STATE
    }
}

/// The pairs of each substring definition, in order.
pub open spec fn substr_pairs(d: Seq<SubstrDef>) -> Seq<Seq<(u64, u64)>> {
    Seq::new(d.len(), |j: int| d[j].valid_state_transitions@)
}

impl Automaton {
    pub open spec fn wf(&self) -> bool {
        keys_unique(self.transitions@)
    }

    /// Builds an automaton description, refusing one in which a
    /// (character, current_state) key has more than one successor.
    pub fn new(
        transitions: Vec<Transition>,
        accepted_states: Vec<u64>,
        substr_defs: Vec<SubstrDef>,
    ) -> (r: Result<Automaton, AutomatonError>)
        ensures
            keys_unique(transitions@) <==> r.is_ok(),
            r is Ok ==> r->Ok_0.transitions@ == transitions@ && r->Ok_0.accepted_states@
                == accepted_states@ && r->Ok_0.substr_defs@ == substr_defs@ && r->Ok_0.wf(),
            r is Err ==> r->Err_0 == AutomatonError::DuplicateTransition,
    {
        let n = transitions.len();
        let mut i: usize = 0;
        while i < n
            invariant
                n == transitions@.len(),
                i <= n,
                forall|a: int, b: int|
                    0 <= a < i && 0 <= b < n && a != b ==> !(transitions@[a].character
                        == transitions@[b].character && transitions@[a].cur_state
                        == transitions@[b].cur_state),
            decreases n - i,
        {
            let mut j: usize = 0;
            while j < n
                invariant
                    n == transitions@.len(),
                    i < n,
                    j <= n,
                    forall|b: int|
                        0 <= b < j && b != i ==> !(transitions@[i as int].character
                            == transitions@[b].character && transitions@[i as int].cur_state
                            == transitions@[b].cur_state),
                decreases n - j,
            {
                if j != i && transitions[i].character == transitions[j].character
                    && transitions[i].cur_state == transitions[j].cur_state {
                    return Err(AutomatonError::DuplicateTransition);
                }
                j = j + 1;
            }
            i = i + 1;
        }
        Ok(Automaton { transitions, accepted_states, substr_defs })
    }

    /// The successor of `state` on `character`, if the relation has one.
    pub fn lookup(&self, character: u8, state: u64) -> (r: Option<u64>)
        requires
            self.wf(),
        ensures
            r is None <==> !has_key(self.transitions@, character, state),
            r is Some ==> has_transition(self.transitions@, character, state, r->0),
    {
        let n = self.transitions.len();
        let mut i: usize = 0;
        while i < n
            invariant
                n == self.transitions@.len(),
                i <= n,
                forall|b: int|
                    0 <= b < i ==> !(self.transitions@[b].character == character
                        && self.transitions@[b].cur_state == state),
            decreases n - i,
        {
            let e = self.transitions[i];
            if e.character == character && e.cur_state == state {
                return Some(e.next_state);
            }
            i = i + 1;
        }
        None
    }
}

} // verus!
