use vstd::prelude::*;
use crate::automaton::Automaton;
use crate::walk::{is_walk, lemma_walk_unique};
use crate::table::{RegexTables, TableRow};

verus! {

/// `r` agrees with the queried (current state, next state, character).
pub open spec fn row_matches(r: TableRow, cur: u64, next: u64, c: u8) -> bool {
    r.cur_state == cur && r.next_state == next && r.character == c
}

/// The selector at position `i`: on everywhere but at the last position.
pub open spec fn selector_on(len: int, i: int) -> bool {
    i < len - 1
}

/// The lookup at position `i` finds a row: the queried triple is
/// (states[i], states[i + 1], chars[i]) where the selector is on, and all zero
/// where it is off.
pub open spec fn position_ok(rows: Seq<TableRow>, chars: Seq<u8>, states: Seq<u64>, i: int) -> bool {
    if selector_on(chars.len() as int, i) {
        exists|a: int|
            0 <= a < rows.len() && #[trigger] row_matches(rows[a], states[i], states[i + 1], chars[i])
    } else {
        exists|a: int| 0 <= a < rows.len() && #[trigger] row_matches(rows[a], 0, 0, 0)
    }
}

/// Every position's lookup finds a row.
pub open spec fn lookups_hold(rows: Seq<TableRow>, chars: Seq<u8>, states: Seq<u64>) -> bool {
    forall|i: int| 0 <= i < chars.len() ==> #[trigger] position_ok(rows, chars, states, i)
}

/// The last state lies in the accepted-state table.
pub open spec fn final_accepted(col: Seq<u64>, states: Seq<u64>) -> bool {
    states.len() > 0 && col.contains(states.last())
}

fn find_row(rows: &Vec<TableRow>, cur: u64, next: u64, c: u8) -> (r: Option<usize>)
    ensures
        r is None <==> !(exists|a: int| 0 <= a < rows@.len() && #[trigger] row_matches(rows@[a], cur, next, c)),
        r is Some ==> r->0 < rows@.len() && row_matches(rows@[r->0 as int], cur, next, c),
{
    let mut a: usize = 0;
    while a < rows.len()
        invariant
            a <= rows@.len(),
            forall|b: int| 0 <= b < a ==> !#[trigger] row_matches(rows@[b], cur, next, c),
        decreases rows@.len() - a,
    {
        let r = rows[a];
        if r.cur_state == cur && r.next_state == next && r.character == c {
            assert(row_matches(rows@[a as int], cur, next, c));
            return Some(a);
        }
        a = a + 1;
    }
    None
}

/// Whether the transition lookup succeeds at every position of the witness
/// (`chars`, `states`).
pub fn check_lookups(rows: &Vec<TableRow>, chars: &Vec<u8>, states: &Vec<u64>) -> (r: bool)
    requires
        chars@.len() == states@.len(),
    ensures
        r == lookups_hold(rows@, chars@, states@),
{
    let n = chars.len();
    let mut i: usize = 0;
    while i < n
        invariant
            n == chars@.len(),
            n == states@.len(),
            i <= n,
            forall|k: int| 0 <= k < i ==> #[trigger] position_ok(rows@, chars@, states@, k),
        decreases n - i,
    {
        let found = if i + 1 < n {
            find_row(rows, states[i], states[i + 1], chars[i])
        } else {
            find_row(rows, 0, 0, 0)
        };
        if found.is_none() {
            assert(!position_ok(rows@, chars@, states@, i as int));
            return false;
        }
        i = i + 1;
    }
    true
}

/// Whether the last state of the witness lies in the accepted-state table.
pub fn check_acceptance(col: &Vec<u64>, states: &Vec<u64>) -> (r: bool)
    ensures
        r == final_accepted(col@, states@),
{
    if states.len() == 0 {
        return false;
    }
    let last = states[states.len() - 1];
    let mut a: usize = 0;
    while a < col.len()
        invariant
            a <= col@.len(),
            states@.len() > 0,
            last == states@.last(),
            forall|b: int| 0 <= b < a ==> col@[b] != last,
        decreases col@.len() - a,
    {
        if col[a] == last {
            assert(col@.contains(states@.last()));
            return true;
        }
        a = a + 1;
    }
    false
}

impl RegexTables {
    /// Whether the witness (`chars`, `states`) satisfies the gadget: every
    /// transition lookup and the acceptance lookup.
    pub fn is_satisfied(&self, chars: &Vec<u8>, states: &Vec<u64>) -> (r: bool)
        requires
            chars@.len() == states@.len(),
        ensures
            r == (lookups_hold(self.transitions@, chars@, states@) && final_accepted(
                self.accepted_states@,
                states@,
            )),
    {
        check_lookups(&self.transitions, chars, states) && check_acceptance(&self.accepted_states, states)
    }
}

impl RegexTables {
    /// The substring tag bound at each position: the tag of the row that the
    /// position's lookup finds (the all-zero row's 0 where the selector is off),
    /// or `None` where some lookup finds no row.
    pub fn substr_tags(&self, chars: &Vec<u8>, states: &Vec<u64>) -> (r: Option<Vec<usize>>)
        requires
            chars@.len() == states@.len(),
        ensures
            r is None <==> !lookups_hold(self.transitions@, chars@, states@),
            r is Some ==> r->0@.len() == chars@.len() && forall|i: int|
                0 <= i < chars@.len() ==> tag_at(self.transitions@, chars@, states@, i, #[trigger] r->0@[i]),
    {
        let n = chars.len();
        let mut tags: Vec<usize> = Vec::new();
        let mut i: usize = 0;
        while i < n
            invariant
                n == chars@.len(),
                n == states@.len(),
                i <= n,
                tags@.len() == i,
                forall|k: int| 0 <= k < i ==> #[trigger] position_ok(self.transitions@, chars@, states@, k),
                forall|k: int|
                    0 <= k < i ==> tag_at(self.transitions@, chars@, states@, k, #[trigger] tags@[k]),
            decreases n - i,
        {
            let found = if i + 1 < n {
                find_row(&self.transitions, states[i], states[i + 1], chars[i])
            } else {
                find_row(&self.transitions, 0, 0, 0)
            };
            match found {
                None => {
                    assert(!position_ok(self.transitions@, chars@, states@, i as int));
                    return None;
                },
                Some(a) => {
                    let ghost old_tags = tags@;
                    tags.push(self.transitions[a].substr_id);
                    assert forall|k: int|
                        0 <= k < i + 1 implies tag_at(self.transitions@, chars@, states@, k, #[trigger] tags@[k]) by {
                        if k < i {
                            assert(tags@[k] == old_tags[k]);
                        } else {
                            assert(self.transitions@[a as int].substr_id == tags@[k]);
                            assert(tag_row_at(self.transitions@[a as int], chars@, states@, k));
                        }
                    }
                },
            }
            i = i + 1;
        }
        Some(tags)
    }
}

/// Some row of `rows` that the lookup at position `i` matches carries `tag`.
pub open spec fn tag_at(rows: Seq<TableRow>, chars: Seq<u8>, states: Seq<u64>, i: int, tag: usize) -> bool {
    exists|a: int| 0 <= a < rows.len() && rows[a].substr_id == tag && #[trigger] tag_row_at(rows[a], chars, states, i)
}

/// `r` is the row that the lookup at position `i` is matched against.
pub open spec fn tag_row_at(r: TableRow, chars: Seq<u8>, states: Seq<u64>, i: int) -> bool {
    if selector_on(chars.len() as int, i) {
        row_matches(r, states[i], states[i + 1], chars[i])
    } else {
        row_matches(r, 0, 0, 0)
    }
}

impl Automaton {
    /// Runs the walk over `chars` and reports whether the resulting witness
    /// satisfies the gadget built from `tables`.
    pub fn check_input(&self, tables: &RegexTables, chars: &Vec<u8>) -> (r: bool)
        requires
            self.wf(),
        ensures
            forall|w: Seq<u64>|
                is_walk(self.transitions@, chars@, w) ==> (r == (lookups_hold(
                    tables.transitions@,
                    chars@,
                    w,
                ) && final_accepted(tables.accepted_states@, w))),
    {
        let states = self.walk(chars);
        proof {
            assert forall|w: Seq<u64>| is_walk(self.transitions@, chars@, w) implies w == states@ by {
                lemma_walk_unique(self.transitions@, chars@, w, states@);
            }
        }
        tables.is_satisfied(chars, &states)
    }
}

} // verus!
