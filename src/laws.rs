use vstd::prelude::*;
use crate::automaton::{START_STATE, Transition, has_key, has_transition, keys_unique, step};
use crate::gadget::{final_accepted, selector_on, lookups_hold, position_ok, row_matches};
use crate::table::{
    TableRow, emitted, is_accepted_table, is_transition_table, key_lt, row_from_some, row_of,
    sorted_from, tag_ok,
};
use crate::walk::{is_walk, strict_run};

verus! {

/// The automaton accepts `chars`: a run along its transitions ends in an
/// accepted state.
pub open spec fn accepts(t: Seq<Transition>, accepted: Seq<u64>, chars: Seq<u8>) -> bool {
    exists|w: Seq<u64>|
        #[trigger] strict_run(t, chars, w) && chars.len() > 0 && accepted.contains(w.last())
}

/// The lookup at the last position passes whatever its character and state
/// are, because the selector binds it to the all-zero row.
pub proof fn lemma_last_position_disabled(
    rows: Seq<TableRow>,
    t: Seq<Transition>,
    defs: Seq<Seq<(u64, u64)>>,
    chars: Seq<u8>,
    states: Seq<u64>,
)
    requires
        is_transition_table(rows, t, defs),
        chars.len() == states.len(),
        chars.len() > 0,
    ensures
        !selector_on(chars.len() as int, chars.len() - 1),
        position_ok(rows, chars, states, chars.len() - 1),
{
    assert(row_matches(rows[0], 0, 0, 0));
}

proof fn lemma_state_nonzero(
    rows: Seq<TableRow>,
    t: Seq<Transition>,
    defs: Seq<Seq<(u64, u64)>>,
    chars: Seq<u8>,
    states: Seq<u64>,
    i: int,
)
    requires
        is_transition_table(rows, t, defs),
        forall|j: int| 0 <= j < t.len() ==> (#[trigger] t[j]).next_state != 0,
        chars.len() == states.len(),
        chars.len() > 0 ==> states[0] == START_STATE,
        lookups_hold(rows, chars, states),
        0 <= i < chars.len(),
    ensures
        states[i] != 0,
        i < chars.len() - 1 ==> has_transition(t, chars[i], states[i], states[i + 1]),
    decreases i,
{
    if i > 0 {
        lemma_state_nonzero(rows, t, defs, chars, states, i - 1);
    }
    if i < chars.len() - 1 {
        assert(position_ok(rows, chars, states, i));
        let a = choose|a: int|
            0 <= a < rows.len() && #[trigger] row_matches(rows[a], states[i], states[i + 1], chars[i]);
        assert(a != 0);
        assert(row_from_some(rows[a], t, t.len() as int, defs));
        let j = choose|j: int| 0 <= j < t.len() && #[trigger] row_of(rows[a], t[j], defs);
        assert(t[j].character == chars[i] && t[j].cur_state == states[i] && t[j].next_state
            == states[i + 1]);
    }
}

/// A witness that starts at the start state and passes every transition
/// lookup follows, at every position before the last, a transition that the
/// automaton has; so a string whose run needs a missing transition has no
/// passing witness. It holds where no transition enters state 0, the state
/// of the all-zero row.
pub proof fn lemma_lookup_soundness(
    rows: Seq<TableRow>,
    t: Seq<Transition>,
    defs: Seq<Seq<(u64, u64)>>,
    chars: Seq<u8>,
    states: Seq<u64>,
)
    requires
        is_transition_table(rows, t, defs),
        forall|j: int| 0 <= j < t.len() ==> (#[trigger] t[j]).next_state != 0,
        chars.len() == states.len(),
        chars.len() > 0 ==> states[0] == START_STATE,
        lookups_hold(rows, chars, states),
    ensures
        strict_run(t, chars, states),
{
    assert forall|i: int| 0 <= i < chars.len() - 1 implies has_transition(
        t,
        chars[i],
        #[trigger] states[i],
        states[i + 1],
    ) by {
        lemma_state_nonzero(rows, t, defs, chars, states, i);
    }
}

/// Where the run over `chars` would need, at some position before the last,
/// a transition that the relation lacks (so no strict run exists), every
/// witness that starts at the start state fails the transition lookups. It
/// holds where no transition enters state 0, the state of the all-zero row.
pub proof fn lemma_missing_transition_fails(
    rows: Seq<TableRow>,
    t: Seq<Transition>,
    defs: Seq<Seq<(u64, u64)>>,
    chars: Seq<u8>,
    states: Seq<u64>,
)
    requires
        is_transition_table(rows, t, defs),
        forall|j: int| 0 <= j < t.len() ==> (#[trigger] t[j]).next_state != 0,
        forall|w: Seq<u64>| !#[trigger] strict_run(t, chars, w),
        chars.len() == states.len(),
        chars.len() > 0 ==> states[0] == START_STATE,
    ensures
        !lookups_hold(rows, chars, states),
{
    if lookups_hold(rows, chars, states) {
        lemma_lookup_soundness(rows, t, defs, chars, states);
        assert(strict_run(t, chars, states));
    }
}

/// Where the automaton accepts `chars`, its walk over `chars` passes every
/// transition lookup and the acceptance lookup.
pub proof fn lemma_walk_completeness(
    rows: Seq<TableRow>,
    col: Seq<u64>,
    t: Seq<Transition>,
    accepted: Seq<u64>,
    defs: Seq<Seq<(u64, u64)>>,
    chars: Seq<u8>,
    w: Seq<u64>,
)
    requires
        keys_unique(t),
        is_transition_table(rows, t, defs),
        is_accepted_table(col, accepted),
        is_walk(t, chars, w),
        accepts(t, accepted, chars),
    ensures
        lookups_hold(rows, chars, w),
        final_accepted(col, w),
{
    let v = choose|v: Seq<u64>|
        #[trigger] strict_run(t, chars, v) && chars.len() > 0 && accepted.contains(v.last());
    lemma_walk_is_run(t, chars, w, v, chars.len() - 1);
    assert(w =~= v);
    assert forall|i: int| 0 <= i < chars.len() implies #[trigger] position_ok(rows, chars, w, i) by {
        if i < chars.len() - 1 {
            assert(has_transition(t, chars[i], v[i], v[i + 1]));
            let j = choose|j: int|
                0 <= j < t.len() && t[j].character == chars[i] && t[j].cur_state == w[i]
                    && t[j].next_state == w[i + 1];
            assert(emitted(rows, t[j], defs));
            let a = choose|a: int| 1 <= a < rows.len() && #[trigger] row_of(rows[a], t[j], defs);
            assert(row_matches(rows[a], w[i], w[i + 1], chars[i]));
        } else {
            assert(row_matches(rows[0], 0, 0, 0));
        }
    }
    assert(col[col.len() - 1] == 0u64);
    let k = choose|k: int| 0 <= k < accepted.len() && accepted[k] == w.last();
    assert(col[k] == w.last());
}

proof fn lemma_walk_is_run(t: Seq<Transition>, chars: Seq<u8>, w: Seq<u64>, v: Seq<u64>, i: int)
    requires
        keys_unique(t),
        is_walk(t, chars, w),
        strict_run(t, chars, v),
        chars.len() > 0,
        0 <= i < chars.len(),
    ensures
        forall|k: int| 0 <= k <= i ==> w[k] == v[k],
    decreases i,
{
    if i > 0 {
        lemma_walk_is_run(t, chars, w, v, i - 1);
        let k = i - 1;
        assert(step(t, chars[k], w[k], w[k + 1]));
        assert(has_transition(t, chars[k], v[k], v[k + 1]));
        assert(has_key(t, chars[k], w[k]));
        let a = choose|a: int|
            0 <= a < t.len() && t[a].character == chars[k] && t[a].cur_state == w[k]
                && t[a].next_state == w[k + 1];
        let b = choose|b: int|
            0 <= b < t.len() && t[b].character == chars[k] && t[b].cur_state == v[k]
                && t[b].next_state == v[k + 1];
        assert(a == b);
    }
}

proof fn lemma_tag_unique(defs: Seq<Seq<(u64, u64)>>, pair: (u64, u64), x: int, y: int)
    requires
        tag_ok(defs, pair, x),
        tag_ok(defs, pair, y),
    ensures
        x == y,
{
    if x != 0 && y != 0 {
        if x < y {
            assert(!defs[x - 1].contains(pair));
        } else if y < x {
            assert(!defs[y - 1].contains(pair));
        }
    } else if x != 0 {
        assert(!defs[x - 1].contains(pair));
    } else if y != 0 {
        assert(!defs[y - 1].contains(pair));
    }
}

/// `x` stands in `s` after its first row.
spec fn in_rows(s: Seq<TableRow>, x: TableRow) -> bool {
    exists|b: int| 1 <= b < s.len() && s[b] == x
}

/// Each row of `rows1` after the first stands in `rows2` after the first.
proof fn lemma_rows_shared(
    rows1: Seq<TableRow>,
    t1: Seq<Transition>,
    rows2: Seq<TableRow>,
    t2: Seq<Transition>,
    defs: Seq<Seq<(u64, u64)>>,
)
    requires
        forall|e: Transition| t1.contains(e) ==> t2.contains(e),
        is_transition_table(rows1, t1, defs),
        is_transition_table(rows2, t2, defs),
    ensures
        forall|a: int| 1 <= a < rows1.len() ==> in_rows(rows2, #[trigger] rows1[a]),
{
    assert forall|a: int| 1 <= a < rows1.len() implies in_rows(rows2, #[trigger] rows1[a]) by {
        assert(row_from_some(rows1[a], t1, t1.len() as int, defs));
        let j = choose|j: int| 0 <= j < t1.len() && #[trigger] row_of(rows1[a], t1[j], defs);
        let e = t1[j];
        assert(t1.contains(e));
        let k = choose|k: int| 0 <= k < t2.len() && t2[k] == e;
        assert(emitted(rows2, t2[k], defs));
        let b = choose|b: int| 1 <= b < rows2.len() && #[trigger] row_of(rows2[b], t2[k], defs);
        lemma_tag_unique(
            defs,
            (e.cur_state, e.next_state),
            rows1[a].substr_id as int,
            rows2[b].substr_id as int,
        );
        assert(rows2[b] == rows1[a]);
        assert(in_rows(rows2, rows1[a]));
    }
}

proof fn lemma_sorted_prefix_equal(s1: Seq<TableRow>, s2: Seq<TableRow>, k: int)
    requires
        sorted_from(s1, 1),
        sorted_from(s2, 1),
        forall|a: int| 1 <= a < s1.len() ==> in_rows(s2, #[trigger] s1[a]),
        forall|a: int| 1 <= a < s2.len() ==> in_rows(s1, #[trigger] s2[a]),
        1 <= k < s1.len(),
        k < s2.len(),
    ensures
        forall|a: int| 1 <= a <= k ==> s1[a] == s2[a],
    decreases k,
{
    if k > 1 {
        lemma_sorted_prefix_equal(s1, s2, k - 1);
    }
    assert(in_rows(s2, s1[k]));
    assert(in_rows(s1, s2[k]));
    let b = choose|b: int| 1 <= b < s2.len() && s2[b] == s1[k];
    let c = choose|c: int| 1 <= c < s1.len() && s1[c] == s2[k];
    if b < k {
        assert(s2[b] == s1[b]);
        assert(key_lt(s1[b], s1[k]));
    }
    if c < k {
        assert(s1[c] == s2[c]);
        assert(key_lt(s2[c], s2[k]));
    }
    if b > k && c > k {
        assert(key_lt(s1[k], s1[c]));
        assert(key_lt(s2[k], s2[b]));
    }
}

proof fn lemma_sorted_equal(s1: Seq<TableRow>, s2: Seq<TableRow>)
    requires
        s1.len() >= 1,
        s2.len() >= 1,
        s1[0] == s2[0],
        sorted_from(s1, 1),
        sorted_from(s2, 1),
        forall|a: int| 1 <= a < s1.len() ==> in_rows(s2, #[trigger] s1[a]),
        forall|a: int| 1 <= a < s2.len() ==> in_rows(s1, #[trigger] s2[a]),
    ensures
        s1 == s2,
{
    let m = if s1.len() < s2.len() { s1.len() } else { s2.len() };
    if m > 1 {
        lemma_sorted_prefix_equal(s1, s2, m - 1);
    }
    if s1.len() > s2.len() {
        let x = s2.len() as int;
        assert(in_rows(s2, s1[x]));
        let b = choose|b: int| 1 <= b < s2.len() && s2[b] == s1[x];
        assert(s1[b] == s2[b]);
        assert(key_lt(s1[b], s1[x]));
    } else if s2.len() > s1.len() {
        let x = s1.len() as int;
        assert(in_rows(s1, s2[x]));
        let b = choose|b: int| 1 <= b < s1.len() && s1[b] == s2[x];
        assert(s1[b] == s2[b]);
        assert(key_lt(s2[b], s2[x]));
    }
    assert(s1 =~= s2);
}

/// The transition table depends only on which transitions the relation
/// holds and on the substring definitions, not on the order in which the
/// transitions are stored: two builds from the same relation give the same
/// rows in the same order.
pub proof fn lemma_table_deterministic(
    rows1: Seq<TableRow>,
    t1: Seq<Transition>,
    rows2: Seq<TableRow>,
    t2: Seq<Transition>,
    defs: Seq<Seq<(u64, u64)>>,
)
    requires
        forall|e: Transition| t1.contains(e) <==> t2.contains(e),
        is_transition_table(rows1, t1, defs),
        is_transition_table(rows2, t2, defs),
    ensures
        rows1 == rows2,
{
    lemma_rows_shared(rows1, t1, rows2, t2, defs);
    lemma_rows_shared(rows2, t2, rows1, t1, defs);
    lemma_sorted_equal(rows1, rows2);
}

} // verus!
