use vstd::prelude::*;
use crate::automaton::{Automaton, SubstrDef, Transition, keys_unique, substr_pairs};

verus! {

/// One row of the transition table.
#[derive(Clone, Copy, Debug, PartialEq, Eq)]
pub struct TableRow {
    pub character: u8,
    pub cur_state: u64,
    pub next_state: u64,
    pub substr_id: usize,
}

/// The two fixed tables of the gadget.
#[derive(Clone, Debug)]
pub struct RegexTables {
    /// The all-zero row, then one row per transition in key order.
    pub transitions: Vec<TableRow>,
    /// The accepted states, then a zero sentinel.
    pub accepted_states: Vec<u64>,
}

/// Reasons for which the tables cannot be built.
#[derive(Clone, Copy, Debug, PartialEq, Eq)]
pub enum TableError {
    /// A table would need more rows than the capacity allows.
    TableOverflow,
}

/// The all-zero row that a lookup with its selector off meets.
pub open spec fn dummy_row() -> TableRow {
    TableRow { character: 0, cur_state: 0, next_state: 0, substr_id: 0 }
}

/// `tag` is the 1-based index of the first definition holding `pair`, or 0
/// where none does.
pub open spec fn tag_ok(defs: Seq<Seq<(u64, u64)>>, pair: (u64, u64), tag: int) -> bool {
    if tag == 0 {
        forall|j: int| 0 <= j < defs.len() ==> !defs[j].contains(pair)
    } else {
        &&& 1 <= tag <= defs.len()
        &&& defs[tag - 1].contains(pair)
        &&& forall|j: int| 0 <= j < tag - 1 ==> !defs[j].contains(pair)
    }
}

/// Rows ordered by (character, current_state).
pub open spec fn key_lt(a: TableRow, b: TableRow) -> bool {
    a.character < b.character || (a.character == b.character && a.cur_state < b.cur_state)
}

/// `r` is the row that the transition `e` emits.
pub open spec fn row_of(r: TableRow, e: Transition, defs: Seq<Seq<(u64, u64)>>) -> bool {
    &&& r.character == e.character
    &&& r.cur_state == e.cur_state
    &&& r.next_state == e.next_state
    &&& tag_ok(defs, (e.cur_state, e.next_state), r.substr_id as int)
}

/// `r` is emitted by one of the first `n` transitions of `t`.
pub open spec fn row_from_some(r: TableRow, t: Seq<Transition>, n: int, defs: Seq<Seq<(u64, u64)>>) -> bool {
    exists|j: int| 0 <= j < n && #[trigger] row_of(r, t[j], defs)
}

/// Some row of `rows` after the first is the row of `e`.
pub open spec fn emitted(rows: Seq<TableRow>, e: Transition, defs: Seq<Seq<(u64, u64)>>) -> bool {
    exists|a: int| 1 <= a < rows.len() && #[trigger] row_of(rows[a], e, defs)
}

/// `rows` from index `lo` on are strictly ordered by key.
pub open spec fn sorted_from(rows: Seq<TableRow>, lo: int) -> bool {
    forall|a: int, b: int| lo <= a < b < rows.len() ==> key_lt(rows[a], rows[b])
}

/// `rows` is the transition table of the relation `t` with substring
/// definitions `defs`: the dummy row, then each transition's row exactly
/// once, in key order.
pub open spec fn is_transition_table(
    rows: Seq<TableRow>,
    t: Seq<Transition>,
    defs: Seq<Seq<(u64, u64)>>,
) -> bool {
    &&& rows.len() == t.len() + 1
    &&& rows[0] == dummy_row()
    &&& forall|a: int| 1 <= a < rows.len() ==> row_from_some(#[trigger] rows[a], t, t.len() as int, defs)
    &&& forall|j: int| 0 <= j < t.len() ==> emitted(rows, #[trigger] t[j], defs)
    &&& sorted_from(rows, 1)
}

/// `col` is the accepted-state table: the accepted states, then a zero.
pub open spec fn is_accepted_table(col: Seq<u64>, accepted: Seq<u64>) -> bool {
    col == accepted.push(0u64)
}

fn pairs_contain(pairs: &Vec<(u64, u64)>, pair: (u64, u64)) -> (r: bool)
    ensures
        r == pairs@.contains(pair),
{
    let mut i: usize = 0;
    while i < pairs.len()
        invariant
            i <= pairs@.len(),
            forall|k: int| 0 <= k < i ==> pairs@[k] != pair,
        decreases pairs@.len() - i,
    {
        if pairs[i].0 == pair.0 && pairs[i].1 == pair.1 {
            return true;
        }
        i = i + 1;
    }
    false
}

/// The substring tag of the transition from `cur_state` to `next_state`:
/// the 1-based index of the first definition that holds the pair, or 0.
pub fn substr_id(defs: &Vec<SubstrDef>, cur_state: u64, next_state: u64) -> (r: usize)
    requires
        defs@.len() < usize::MAX,
    ensures
        tag_ok(substr_pairs(defs@), (cur_state, next_state), r as int),
{
    let ghost d = substr_pairs(defs@);
    let mut j: usize = 0;
    while j < defs.len()
        invariant
            j <= defs@.len(),
            d == substr_pairs(defs@),
            forall|k: int| 0 <= k < j ==> !d[k].contains((cur_state, next_state)),
        decreases defs@.len() - j,
    {
        if pairs_contain(&defs[j].valid_state_transitions, (cur_state, next_state)) {
            return j + 1;
        }
        j = j + 1;
    }
    0
}

fn row_lt(a: &TableRow, b: &TableRow) -> (r: bool)
    ensures
        r == key_lt(*a, *b),
{
    a.character < b.character || (a.character == b.character && a.cur_state < b.cur_state)
}

/// Inserts `row` after the first row, before the first later row whose key
/// exceeds its own, and returns where it went.
fn insert_sorted(out: &mut Vec<TableRow>, row: TableRow) -> (p: usize)
    requires
        old(out)@.len() >= 1,
        sorted_from(old(out)@, 1),
        forall|a: int|
            1 <= a < old(out)@.len() ==> !(#[trigger] old(out)@[a].character == row.character
                && old(out)@[a].cur_state == row.cur_state),
    ensures
        1 <= p <= old(out)@.len(),
        final(out)@ == old(out)@.insert(p as int, row),
        sorted_from(final(out)@, 1),
{
    let mut p: usize = 1;
    while p < out.len() && row_lt(&out[p], &row)
        invariant
            1 <= p <= out@.len(),
            out@ == old(out)@,
            forall|a: int| 1 <= a < p ==> key_lt(#[trigger] out@[a], row),
        decreases out@.len() - p,
    {
        p = p + 1;
    }
    let ghost old_out = out@;
    out.insert(p, row);
    proof {
        old_out.insert_ensures(p as int, row);
        if p < old_out.len() {
            assert(key_lt(row, old_out[p as int]));
        }
        assert forall|a: int, b: int| 1 <= a < b < out@.len() implies key_lt(out@[a], out@[b]) by {
            if p < old_out.len() && b - 1 > p {
                assert(key_lt(old_out[p as int], old_out[b - 1]));
            }
            if b < p {
                assert(out@[a] == old_out[a] && out@[b] == old_out[b]);
            } else if b == p {
                assert(out@[a] == old_out[a]);
            } else if a < p {
                assert(out@[a] == old_out[a] && out@[b] == old_out[b - 1]);
            } else if a == p {
                assert(out@[b] == old_out[b - 1]);
            } else {
                assert(out@[a] == old_out[a - 1] && out@[b] == old_out[b - 1]);
            }
        }
    }
    p
}

proof fn lemma_insert_keeps_rows(
    old_out: Seq<TableRow>,
    p: int,
    row: TableRow,
    t: Seq<Transition>,
    d: Seq<Seq<(u64, u64)>>,
    i: int,
)
    requires
        1 <= p <= old_out.len(),
        0 <= i < t.len(),
        row_of(row, t[i], d),
        forall|a: int| 1 <= a < old_out.len() ==> row_from_some(#[trigger] old_out[a], t, i, d),
        forall|j: int| 0 <= j < i ==> emitted(old_out, #[trigger] t[j], d),
    ensures
        forall|a: int| 1 <= a < old_out.insert(p, row).len() ==> row_from_some(#[trigger] old_out.insert(p, row)[a], t, i + 1, d),
        forall|j: int| 0 <= j < i + 1 ==> emitted(old_out.insert(p, row), #[trigger] t[j], d),
{
    let out = old_out.insert(p, row);
    old_out.insert_ensures(p, row);
    assert forall|a: int| 1 <= a < out.len() implies row_from_some(#[trigger] out[a], t, i + 1, d) by {
        if a < p {
            assert(out[a] == old_out[a]);
        } else if a > p {
            assert(out[a] == old_out[a - 1]);
        } else {
            assert(row_of(out[a], t[i], d));
        }
        if a < p {
            let j0 = choose|j: int| 0 <= j < i && #[trigger] row_of(old_out[a], t[j], d);
            assert(row_of(out[a], t[j0], d));
        } else if a > p {
            let j0 = choose|j: int| 0 <= j < i && #[trigger] row_of(old_out[a - 1], t[j], d);
            assert(row_of(out[a], t[j0], d));
        }
    }
    assert forall|j: int| 0 <= j < i + 1 implies emitted(out, #[trigger] t[j], d) by {
        if j < i {
            let a0 = choose|a: int| 1 <= a < old_out.len() && #[trigger] row_of(old_out[a], t[j], d);
            if a0 < p {
                assert(out[a0] == old_out[a0]);
                assert(row_of(out[a0], t[j], d));
            } else {
                assert(out[a0 + 1] == old_out[a0]);
                assert(row_of(out[a0 + 1], t[j], d));
            }
        } else {
            assert(out[p] == row);
            assert(row_of(out[p], t[j], d));
        }
    }
}

impl Automaton {
    /// The transition table: the all-zero row, then one row per transition,
    /// sorted by (character, current_state) so that the result does not
    /// depend on the order in which the transitions are stored.
    pub fn transition_rows(&self) -> (r: Vec<TableRow>)
        requires
            self.wf(),
            self.substr_defs@.len() < usize::MAX,
        ensures
            is_transition_table(r@, self.transitions@, substr_pairs(self.substr_defs@)),
    {
        let ghost t = self.transitions@;
        let ghost d = substr_pairs(self.substr_defs@);
        let mut out: Vec<TableRow> = Vec::new();
        out.push(TableRow { character: 0, cur_state: 0, next_state: 0, substr_id: 0 });
        let n = self.transitions.len();
        let mut i: usize = 0;
        while i < n
            invariant
                t == self.transitions@,
                d == substr_pairs(self.substr_defs@),
                self.substr_defs@.len() < usize::MAX,
                keys_unique(t),
                n == t.len(),
                i <= n,
                out@.len() == i + 1,
                out@[0] == dummy_row(),
                forall|a: int| 1 <= a < out@.len() ==> row_from_some(#[trigger] out@[a], t, i as int, d),
                forall|j: int| 0 <= j < i ==> emitted(out@, #[trigger] t[j], d),
                sorted_from(out@, 1),
            decreases n - i,
        {
            let e = self.transitions[i];
            let row = TableRow {
                character: e.character,
                cur_state: e.cur_state,
                next_state: e.next_state,
                substr_id: substr_id(&self.substr_defs, e.cur_state, e.next_state),
            };
            proof {
                // No row already emitted shares the new row's key.
                assert forall|a: int| 1 <= a < out@.len() implies !(out@[a].character
                    == row.character && out@[a].cur_state == row.cur_state) by {
                    let j = choose|j: int| 0 <= j < i && #[trigger] row_of(out@[a], t[j], d);
                    assert(row_of(out@[a], t[j], d));
                    assert(j != i);
                }
            }
            let ghost old_out = out@;
            let p = insert_sorted(&mut out, row);
            proof {
                lemma_insert_keeps_rows(old_out, p as int, row, t, d, i as int);
            }
            i = i + 1;
        }
        out
    }

    /// The accepted-state table: the accepted states, then a zero sentinel.
    pub fn accepted_rows(&self) -> (r: Vec<u64>)
        ensures
            is_accepted_table(r@, self.accepted_states@),
    {
        let mut col = self.accepted_states.clone();
        col.push(0);
        col
    }

    /// Builds both tables, each of which must fit within `capacity` rows.
    pub fn build(&self, capacity: usize) -> (r: Result<RegexTables, TableError>)
        requires
            self.wf(),
            self.substr_defs@.len() < usize::MAX,
        ensures
            r is Ok <==> (self.transitions@.len() + 1 <= capacity
                && self.accepted_states@.len() + 1 <= capacity),
            r is Ok ==> is_transition_table(
                r->Ok_0.transitions@,
                self.transitions@,
                substr_pairs(self.substr_defs@),
            ) && is_accepted_table(r->Ok_0.accepted_states@, self.accepted_states@),
            r is Err ==> r->Err_0 == TableError::TableOverflow,
    {
        if self.transitions.len() >= capacity || self.accepted_states.len() >= capacity {
            return Err(TableError::TableOverflow);
        }
        Ok(RegexTables { transitions: self.transition_rows(), accepted_states: self.accepted_rows() })
    }
}

} // verus!
