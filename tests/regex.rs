use halo2_regex::automaton::{Automaton, AutomatonError, SubstrDef, Transition, START_STATE};
use halo2_regex::gadget::check_lookups;
use halo2_regex::table::{substr_id, TableError, TableRow};

const STRING_LEN: usize = 22;
const CAPACITY: usize = 128;

fn tr(character: u8, cur_state: u64, order_index: usize, next_state: u64) -> Transition {
    Transition { character, cur_state, order_index, next_state }
}

/// Accepts strings that start with "email was meant for @" and end in a
/// lowercase letter: state k reads the k-th character of the prefix, and the
/// state after the prefix takes any letter to a final state.
fn email_automaton() -> Automaton {
    let prefix = b"email was meant for @";
    let mut ts = Vec::new();
    for (k, c) in prefix.iter().enumerate() {
        ts.push(tr(*c, k as u64 + 1, ts.len(), k as u64 + 2));
    }
    let marker_state = prefix.len() as u64 + 1;
    for c in b'a'..=b'z' {
        ts.push(tr(c, marker_state, ts.len(), marker_state + 1));
    }
    let substr = SubstrDef { valid_state_transitions: vec![(marker_state, marker_state + 1)] };
    Automaton::new(ts, vec![marker_state], vec![substr]).unwrap()
}

fn single_automaton() -> Automaton {
    Automaton::new(vec![tr(b'y', 1, 0, 2)], vec![2], vec![]).unwrap()
}

#[test]
fn test_regex_pass() {
    let characters: Vec<u8> = "email was meant for @y".chars().map(|c| c as u8).collect();
    assert_eq!(characters.len(), STRING_LEN);
    let a = email_automaton();
    let tables = a.build(CAPACITY).unwrap();
    assert!(a.check_input(&tables, &characters));
}

#[test]
fn test_regex_fail() {
    let characters: Vec<u8> = "email isnt meant for u".chars().map(|c| c as u8).collect();
    assert_eq!(characters.len(), STRING_LEN);
    let a = email_automaton();
    let tables = a.build(CAPACITY).unwrap();
    assert!(!a.check_input(&tables, &characters));
    let states = a.walk(&characters);
    assert!(!check_lookups(&tables.transitions, &characters, &states));
}

#[test]
fn single_transition_accepts_y() {
    let a = single_automaton();
    let tables = a.build(CAPACITY).unwrap();
    let chars = b"yy".to_vec();
    let states = a.walk(&chars);
    assert_eq!(states, vec![1, 2]);
    assert!(tables.is_satisfied(&chars, &states));
    assert!(a.check_input(&tables, &chars));
}

#[test]
fn single_transition_rejects_z() {
    let a = single_automaton();
    let tables = a.build(CAPACITY).unwrap();
    let chars = b"zz".to_vec();
    assert_eq!(a.lookup(b'z', START_STATE), None);
    let states = a.walk(&chars);
    assert_eq!(states, vec![1, 1]);
    assert!(!check_lookups(&tables.transitions, &chars, &states));
    assert!(!a.check_input(&tables, &chars));
    // The witness the relation would need at position 0 does not exist.
    assert!(!check_lookups(&tables.transitions, &chars, &vec![1, 2]));
}

#[test]
fn walk_falls_back_to_start() {
    let a = Automaton::new(vec![tr(b'a', 1, 0, 2), tr(b'b', 2, 1, 3)], vec![3], vec![]).unwrap();
    assert_eq!(a.walk(&b"abxa".to_vec()), vec![1, 2, 3, 1]);
    assert_eq!(a.walk(&b"xab".to_vec()), vec![1, 1, 2]);
    assert_eq!(a.walk(&Vec::new()), Vec::<u64>::new());
    assert_eq!(a.lookup(b'b', 2), Some(3));
}

#[test]
fn table_rows_are_sorted_with_dummy_first() {
    let a = Automaton::new(
        vec![tr(b'c', 1, 0, 2), tr(b'a', 2, 1, 3), tr(b'a', 1, 2, 4)],
        vec![3, 4],
        vec![],
    )
    .unwrap();
    let tables = a.build(CAPACITY).unwrap();
    let expected = vec![
        TableRow { character: 0, cur_state: 0, next_state: 0, substr_id: 0 },
        TableRow { character: b'a', cur_state: 1, next_state: 4, substr_id: 0 },
        TableRow { character: b'a', cur_state: 2, next_state: 3, substr_id: 0 },
        TableRow { character: b'c', cur_state: 1, next_state: 2, substr_id: 0 },
    ];
    assert_eq!(tables.transitions, expected);
    assert_eq!(tables.accepted_states, vec![3, 4, 0]);
}

#[test]
fn table_build_is_deterministic() {
    let ts = vec![tr(b'x', 3, 0, 1), tr(b'b', 1, 1, 3), tr(b'b', 2, 2, 5), tr(b'a', 9, 3, 2)];
    let mut rev = ts.clone();
    rev.reverse();
    let defs = vec![SubstrDef { valid_state_transitions: vec![(2, 5)] }];
    let a1 = Automaton::new(ts, vec![5], defs.clone()).unwrap();
    let a2 = Automaton::new(rev, vec![5], defs).unwrap();
    let t1 = a1.build(CAPACITY).unwrap();
    let t1_again = a1.build(CAPACITY).unwrap();
    let t2 = a2.build(CAPACITY).unwrap();
    assert_eq!(t1.transitions, t1_again.transitions);
    assert_eq!(t1.transitions, t2.transitions);
}

#[test]
fn substring_tag_takes_first_definition() {
    let defs = vec![
        SubstrDef { valid_state_transitions: vec![(1, 2)] },
        SubstrDef { valid_state_transitions: vec![(2, 3), (1, 2)] },
        SubstrDef { valid_state_transitions: vec![(2, 3), (4, 4)] },
    ];
    assert_eq!(substr_id(&defs, 1, 2), 1);
    assert_eq!(substr_id(&defs, 2, 3), 2);
    assert_eq!(substr_id(&defs, 4, 4), 3);
    assert_eq!(substr_id(&defs, 5, 6), 0);
    assert_eq!(substr_id(&Vec::new(), 1, 2), 0);

    let a = Automaton::new(vec![tr(b'q', 2, 0, 3), tr(b'p', 1, 1, 2)], vec![3], defs).unwrap();
    let tables = a.build(CAPACITY).unwrap();
    assert_eq!(tables.transitions[1], TableRow { character: b'p', cur_state: 1, next_state: 2, substr_id: 1 });
    assert_eq!(tables.transitions[2], TableRow { character: b'q', cur_state: 2, next_state: 3, substr_id: 2 });
}

#[test]
fn tags_follow_each_position() {
    let a = email_automaton();
    let tables = a.build(CAPACITY).unwrap();
    let chars: Vec<u8> = b"email was meant for @yz".to_vec();
    let states = a.walk(&chars);
    assert_eq!(states[22], 23);
    let tags = tables.substr_tags(&chars, &states).unwrap();
    let mut expected = vec![0usize; 23];
    expected[21] = 1;
    assert_eq!(tags, expected);
    let bad: Vec<u8> = b"email isnt meant for u".to_vec();
    let bad_states = a.walk(&bad);
    assert_eq!(tables.substr_tags(&bad, &bad_states), None);
}

#[test]
fn last_position_is_disabled() {
    let a = single_automaton();
    let tables = a.build(CAPACITY).unwrap();
    // A single position has no successor: its lookup meets the all-zero row
    // whatever the character and state are.
    assert!(check_lookups(&tables.transitions, &b"q".to_vec(), &vec![77]));
    assert!(check_lookups(&tables.transitions, &b"yq".to_vec(), &vec![1, 2]));
    assert!(!check_lookups(&tables.transitions, &b"yq".to_vec(), &vec![1, 3]));
}

#[test]
fn acceptance_uses_the_table() {
    let a = single_automaton();
    let tables = a.build(CAPACITY).unwrap();
    assert!(tables.is_satisfied(&b"yy".to_vec(), &vec![1, 2]));
    assert!(!tables.is_satisfied(&b"y".to_vec(), &vec![1]));
    // The zero sentinel of the accepted-state table.
    assert!(tables.is_satisfied(&b"a".to_vec(), &vec![0]));
    assert!(!tables.is_satisfied(&Vec::new(), &Vec::new()));
}

#[test]
fn build_reports_overflow() {
    let a = single_automaton();
    assert!(a.build(2).is_ok());
    assert_eq!(a.build(1).unwrap_err(), TableError::TableOverflow);
    let b = Automaton::new(vec![tr(b'y', 1, 0, 2)], vec![2, 3, 4], vec![]).unwrap();
    assert_eq!(b.build(3).unwrap_err(), TableError::TableOverflow);
    assert!(b.build(4).is_ok());
}

#[test]
fn duplicate_keys_are_refused() {
    let r = Automaton::new(vec![tr(b'y', 1, 0, 2), tr(b'y', 1, 1, 3)], vec![2], vec![]);
    assert_eq!(r.unwrap_err(), AutomatonError::DuplicateTransition);
    assert!(Automaton::new(vec![tr(b'y', 1, 0, 2), tr(b'y', 2, 1, 3)], vec![2], vec![]).is_ok());
}

#[test]
fn strict_walk_stops_at_missing_transition() {
    let a = single_automaton();
    assert_eq!(a.walk_strict(&b"yy".to_vec()), Some(vec![1, 2]));
    assert_eq!(a.walk_strict(&b"zz".to_vec()), None);
    // The last character is never read.
    assert_eq!(a.walk_strict(&b"z".to_vec()), Some(vec![1]));
    assert_eq!(a.walk_strict(&Vec::new()), Some(Vec::new()));

    let e = email_automaton();
    let good: Vec<u8> = b"email was meant for @y".to_vec();
    let run = e.walk_strict(&good).unwrap();
    assert_eq!(run, e.walk(&good));
    assert_eq!(run[21], 22);
    assert_eq!(e.walk_strict(&b"email isnt meant for u".to_vec()), None);
}
