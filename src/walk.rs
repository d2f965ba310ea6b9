use vstd::prelude::*;
use crate::automaton::{Automaton, START_STATE, Transition, has_key, has_transition, keys_unique, step};

verus! {

/// `w` is the walk of the relation `t` over `chars`: it starts at the start
/// state and each next state follows from the previous state and character.
pub open spec fn is_walk(t: Seq<Transition>, chars: Seq<u8>, w: Seq<u64>) -> bool {
    &&& w.len() == chars.len()
    &&& chars.len() > 0 ==> w[0] == START_STATE
    &&& forall|i: int| 0 <= i < chars.len() - 1 ==> step(t, chars[i], #[trigger] w[i], w[i + 1])
}

/// `w` follows only transitions of `t` over `chars`, from the start state.
pub open spec fn strict_run(t: Seq<Transition>, chars: Seq<u8>, w: Seq<u64>) -> bool {
    &&& w.len() == chars.len()
    &&& chars.len() > 0 ==> w[0] == START_STATE
    &&& forall|i: int|
        0 <= i < chars.len() - 1 ==> has_transition(t, chars[i], #[trigger] w[i], w[i + 1])
}

proof fn lemma_run_prefix(t: Seq<Transition>, chars: Seq<u8>, s: Seq<u64>, w: Seq<u64>, i: int)
    requires
        keys_unique(t),
        strict_run(t, chars, w),
        0 <= i < chars.len(),
        i < s.len(),
        s[0] == START_STATE,
        forall|k: int| 0 <= k < i ==> has_transition(t, chars[k], #[trigger] s[k], s[k + 1]),
    ensures
        forall|k: int| 0 <= k <= i ==> s[k] == w[k],
    decreases i,
{
    if i > 0 {
        lemma_run_prefix(t, chars, s, w, i - 1);
        let k = i - 1;
        assert(has_transition(t, chars[k], s[k], s[k + 1]));
        assert(has_transition(t, chars[k], w[k], w[k + 1]));
        let a = choose|a: int|
            0 <= a < t.len() && t[a].character == chars[k] && t[a].cur_state == s[k]
                && t[a].next_state == s[k + 1];
        let b = choose|b: int|
            0 <= b < t.len() && t[b].character == chars[k] && t[b].cur_state == w[k]
                && t[b].next_state == w[k + 1];
        assert(a == b);
    }
}

impl Automaton {
    /// The states entered while reading `chars`: `r[0]` is the start state and
    /// `r[i + 1]` the state after reading `chars[i]` from `r[i]`, falling back
    /// to the start state where the relation has no entry.
    pub fn walk(&self, chars: &Vec<u8>) -> (r: Vec<u64>)
        requires
            self.wf(),
        ensures
            is_walk(self.transitions@, chars@, r@),
    {
        let n = chars.len();
        let mut states: Vec<u64> = Vec::new();
        if n == 0 {
            return states;
        }
        states.push(START_STATE);
        let mut i: usize = 1;
        while i < n
            invariant
                self.wf(),
                n == chars@.len(),
                1 <= i <= n,
                states@.len() == i,
                states@[0] == START_STATE,
                forall|k: int| 0 <= k < i - 1 ==> step(self.transitions@, chars@[k], #[trigger] states@[k], states@[k + 1]),
            decreases n - i,
        {
            let prev = states[i - 1];
            let next = match self.lookup(chars[i - 1], prev) {
                Some(s) => s,
                None => START_STATE,
            };
            states.push(next);
            i = i + 1;
        }
        states
    }
}

impl Automaton {
    /// The run over `chars` that follows only transitions of the relation, or
    /// `None` where some position before the last has no transition to take.
    pub fn walk_strict(&self, chars: &Vec<u8>) -> (r: Option<Vec<u64>>)
        requires
            self.wf(),
        ensures
            r is Some ==> strict_run(self.transitions@, chars@, r->0@),
            r is None ==> forall|w: Seq<u64>| !#[trigger] strict_run(self.transitions@, chars@, w),
    {
        let n = chars.len();
        let mut states: Vec<u64> = Vec::new();
        if n == 0 {
            return Some(states);
        }
        states.push(START_STATE);
        let mut i: usize = 1;
        while i < n
            invariant
                self.wf(),
                n == chars@.len(),
                1 <= i <= n,
                states@.len() == i,
                states@[0] == START_STATE,
                forall|k: int|
                    0 <= k < i - 1 ==> has_transition(self.transitions@, chars@[k], #[trigger] states@[k], states@[k + 1]),
            decreases n - i,
        {
            let prev = states[i - 1];
            match self.lookup(chars[i - 1], prev) {
                Some(next) => {
                    states.push(next);
                },
                None => {
                    proof {
                        assert forall|w: Seq<u64>| !#[trigger] strict_run(self.transitions@, chars@, w) by {
                            if strict_run(self.transitions@, chars@, w) {
                                lemma_run_prefix(self.transitions@, chars@, states@, w, i - 1);
                                assert(has_transition(self.transitions@, chars@[i - 1], w[i - 1], w[i as int]));
                                assert(has_key(self.transitions@, chars@[i - 1], prev));
                            }
                        }
                    }
                    return None;
                },
            }
            i = i + 1;
        }
        Some(states)
    }
}

/// The walk is a function of the relation and the characters.
pub proof fn lemma_walk_unique(t: Seq<Transition>, chars: Seq<u8>, w1: Seq<u64>, w2: Seq<u64>)
    requires
        keys_unique(t),
        is_walk(t, chars, w1),
        is_walk(t, chars, w2),
    ensures
        w1 == w2,
{
    if chars.len() > 0 {
        lemma_walk_prefix(t, chars, w1, w2, chars.len() - 1);
    }
    assert(w1 =~= w2);
}

proof fn lemma_walk_prefix(t: Seq<Transition>, chars: Seq<u8>, w1: Seq<u64>, w2: Seq<u64>, i: int)
    requires
        keys_unique(t),
        is_walk(t, chars, w1),
        is_walk(t, chars, w2),
        0 <= i < chars.len(),
    ensures
        forall|k: int| 0 <= k <= i ==> w1[k] == w2[k],
    decreases i,
{
    if i > 0 {
        lemma_walk_prefix(t, chars, w1, w2, i - 1);
        let k = i - 1;
        assert(step(t, chars[k], w1[k], w1[k + 1]));
        assert(step(t, chars[k], w2[k], w2[k + 1]));
        if has_key(t, chars[k], w1[k]) {
            let a = choose|a: int|
                0 <= a < t.len() && t[a].character == chars[k] && t[a].cur_state == w1[k]
                    && t[a].next_state == w1[k + 1];
            let b = choose|b: int|
                0 <= b < t.len() && t[b].character == chars[k] && t[b].cur_state == w2[k]
                    && t[b].next_state == w2[k + 1];
            assert(a == b);
        }
    }
}

} // verus!
