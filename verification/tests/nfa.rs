use hephaestus::{epsilons, ConstructionError, Run, StateSet, TransitionTable, NFA};

fn set_of(capacity: usize, members: &[usize]) -> StateSet {
    let mut set = StateSet::new(capacity);
    for m in members {
        set.insert(*m);
    }
    set
}

fn silent_table(states: usize, edges: &[(usize, usize)]) -> TransitionTable {
    let mut table = TransitionTable::new(states, &vec![]);
    for &(k, v) in edges.iter() {
        table.insert(k, '_', v).unwrap();
    }
    table
}

/// a b* a b* a
fn three_as() -> NFA {
    let a = vec!['a', 'b'];
    let t = vec![(0, 'a', 1), (1, 'a', 2), (1, 'b', 1), (2, 'a', 3), (2, 'b', 2)];
    NFA::new(4, &a, &t, 0, &vec![3]).unwrap()
}

#[test]
fn computes_all_epsilons() {
    let mut hash = TransitionTable::new(7, &vec![]);
    let mut curr = StateSet::new(7);
    let mut expected = StateSet::new(7);

    curr.insert(1);

    for i in 0..5 {
        expected.insert(i as usize);
    }

    let trns = vec![(1, 2), (1, 0), (0, 3), (2, 4), (5, 6)];
    for &(k, v) in trns.iter() {
        hash.insert(k, '_', v).unwrap();
    }

    epsilons(&mut curr, &hash);

    if !curr.equals(&expected) {
        panic!();
    }
}

#[test]
fn nfa_accepts_proper_strings() {
    let states = 3;
    let alphabet = vec!['0', '1'];
    let accept = vec![2];
    let start = 0;
    let t = vec![(0, '0', 1), (1, '0', 2)]; //Accepts the string '00'

    let nfa = NFA::new(states, &alphabet, &t, start, &accept).unwrap();

    let incorrect_strings = vec!["", "01", "10", "11", "0", "1", "001"];

    match nfa.run("00") {
        Some(b) => assert_eq!(b, true),
        None => panic!(),
    }

    for s in incorrect_strings.iter() {
        match nfa.run(*s) {
            Some(b) => assert_eq!(b, false),
            None => panic!(),
        }
    }
}

#[test]
fn nfa_catches_invalid_inputs() {
    let alphabet = vec!['0', '1'];
    let states = 1;
    let start = 0;
    let accept = vec![0];

    let t = vec![(0, '1', 0)];

    let nfa = NFA::new(states, &alphabet, &t, start, &accept).unwrap();

    assert_eq!(nfa.run("a").is_none(), true);
}

#[test]
fn nfa_epsilon_transitions() {
    let alphabet = vec!['0'];
    let states = 2;
    let start = 0;
    let accept = vec![1];

    let t = vec![(0, '_', 1), (1, '_', 0)];

    let nfa = NFA::new(states, &alphabet, &t, start, &accept).unwrap();

    match nfa.run("") {
        Some(b) => assert_eq!(b, true),
        None => panic!(),
    }

    match nfa.run("0") {
        Some(b) => assert_eq!(b, false),
        None => panic!(),
    }
}

#[test]
fn three_as_scenario() {
    let nfa = three_as();
    assert_eq!(nfa.run("aaa"), Some(true));
    assert_eq!(nfa.run("abbbaba"), Some(true));
    assert_eq!(nfa.run("baba"), Some(false));
    assert_eq!(nfa.run("aa"), Some(false));
    assert_eq!(nfa.run("aaaa"), Some(false));
}

#[test]
fn nfa_refuses_reserved_symbol() {
    let r = NFA::new(1, &vec!['a', '_'], &vec![], 0, &vec![0]);
    assert!(matches!(r, Err(ConstructionError::ReservedSymbol)));
    assert_eq!(r.err().unwrap().message(), "Alphabets cannot contain '_'");
}

#[test]
fn nfa_refuses_unknown_symbol() {
    let r = NFA::new(2, &vec!['a'], &vec![(0, 'a', 1), (0, 'b', 1)], 0, &vec![0]);
    assert!(matches!(r, Err(ConstructionError::UnknownSymbol { symbol: 'b' })));
}

#[test]
fn nfa_refuses_unknown_states() {
    let r = NFA::new(2, &vec!['a'], &vec![(2, 'a', 1)], 0, &vec![0]);
    assert!(matches!(r, Err(ConstructionError::UnknownState { from: 2, symbol: 'a', to: 1, state: 2 })));
    let r = NFA::new(2, &vec!['a'], &vec![(1, '_', 7)], 0, &vec![0]);
    assert!(matches!(r, Err(ConstructionError::UnknownState { from: 1, symbol: '_', to: 7, state: 7 })));
    assert_eq!(
        r.err().unwrap().message(),
        "In transition: (1, '_') -> 7: State `7` does not exist"
    );
}

#[test]
fn nfa_reports_the_first_fault() {
    let r = NFA::new(2, &vec!['a'], &vec![(0, 'a', 5), (0, 'x', 1)], 0, &vec![0]);
    assert!(matches!(r, Err(ConstructionError::UnknownState { state: 5, .. })));
    let r = NFA::new(2, &vec!['a', '_'], &vec![(0, 'a', 5)], 0, &vec![0]);
    assert!(matches!(r, Err(ConstructionError::ReservedSymbol)));
}

#[test]
fn nfa_takes_repeated_and_missing_transitions() {
    let t = vec![(0, 'a', 0), (0, 'a', 1), (0, 'a', 1)];
    let nfa = NFA::new(2, &vec!['a', 'b'], &t, 0, &vec![1]).unwrap();
    assert_eq!(nfa.run("a"), Some(true));
    assert_eq!(nfa.run("aaa"), Some(true));
    assert_eq!(nfa.run(""), Some(false));
    assert_eq!(nfa.run("ab"), Some(false));
    assert_eq!(nfa.table().successors(0, 'a').members(), vec![0, 1]);
    assert_eq!(nfa.table().successors(1, 'a').members(), Vec::<usize>::new());
}

#[test]
fn nfa_rejects_before_it_reads_an_invalid_symbol() {
    let nfa = NFA::new(2, &vec!['a', 'b'], &vec![(0, 'a', 1)], 0, &vec![1]).unwrap();
    // After "b" no state is left, so the rest is not looked at.
    assert_eq!(nfa.run("b?"), Some(false));
    assert_eq!(nfa.run("?b"), None);
    assert_eq!(nfa.run("a?"), None);
}

#[test]
fn nfa_finds_the_empty_word_symbol_invalid_in_input() {
    let nfa = NFA::new(2, &vec!['a'], &vec![(0, '_', 1)], 0, &vec![1]).unwrap();
    assert_eq!(nfa.run(""), Some(true));
    assert_eq!(nfa.run("_"), None);
}

#[test]
fn nfa_with_start_that_is_no_state() {
    let nfa = NFA::new(1, &vec!['a'], &vec![(0, 'a', 0)], 5, &vec![5]).unwrap();
    assert_eq!(nfa.run(""), Some(true));
    assert_eq!(nfa.run("a"), Some(false));
    assert_eq!(nfa.run("ab"), Some(false));
    assert_eq!(nfa.run("b"), None);
    let nfa = NFA::new(1, &vec!['a'], &vec![(0, 'a', 0)], 5, &vec![0]).unwrap();
    assert_eq!(nfa.run(""), Some(false));
}

#[test]
fn nfa_run_is_repeatable() {
    let nfa = three_as();
    for w in ["", "aaa", "abab", "abc", "bbb"] {
        assert_eq!(nfa.run(w), nfa.run(w));
    }
}

#[test]
fn nfa_accessors_give_back_description() {
    let nfa = three_as();
    assert_eq!(nfa.num_states(), 4);
    assert_eq!(nfa.alphabet(), &vec!['a', 'b']);
    assert_eq!(nfa.start(), 0);
    assert_eq!(nfa.accept(), &vec![3]);
    assert_eq!(nfa.table().num_states(), 4);
    assert_eq!(nfa.table().alphabet(), &vec!['a', 'b']);
    assert_eq!(nfa.table().successors(1, 'b').members(), vec![1]);
    assert_eq!(nfa.table().successors(9, 'b').members(), Vec::<usize>::new());
    assert_eq!(nfa.table().successors(1, '_').members(), Vec::<usize>::new());
}

#[test]
fn closure_is_idempotent() {
    let table = silent_table(7, &[(1, 2), (1, 0), (0, 3), (2, 4), (5, 6)]);
    for start in 0..7 {
        let mut once = set_of(7, &[start]);
        epsilons(&mut once, &table);
        let mut twice = once.duplicate();
        epsilons(&mut twice, &table);
        assert!(once.equals(&twice));
        assert!(once.contains(start));
    }
}

#[test]
fn closure_ends_on_cycles() {
    let table = silent_table(4, &[(0, 1), (1, 2), (2, 0), (3, 3)]);
    let mut set = set_of(4, &[1]);
    epsilons(&mut set, &table);
    assert_eq!(set.members(), vec![0, 1, 2]);
    let mut set = set_of(4, &[3]);
    epsilons(&mut set, &table);
    assert_eq!(set.members(), vec![3]);
    let mut set = set_of(4, &[]);
    epsilons(&mut set, &table);
    assert!(set.is_empty());
}

#[test]
fn table_refuses_faulty_transitions() {
    let mut table = TransitionTable::new(2, &vec!['a']);
    assert!(matches!(table.insert(0, 'b', 1), Err(ConstructionError::UnknownSymbol { symbol: 'b' })));
    assert!(matches!(table.insert(2, 'a', 1), Err(ConstructionError::UnknownState { state: 2, .. })));
    assert!(matches!(table.insert(1, 'a', 3), Err(ConstructionError::UnknownState { state: 3, .. })));
    assert!(table.insert(1, 'a', 0).is_ok());
    assert_eq!(table.successors(1, 'a').members(), vec![0]);
    assert_eq!(table.successors(0, 'a').members(), Vec::<usize>::new());
}

#[test]
fn state_set_operations() {
    let a = set_of(6, &[0, 2, 4]);
    let b = set_of(6, &[2, 3]);
    let mut u = a.duplicate();
    u.union_with(&b);
    assert_eq!(u.members(), vec![0, 2, 3, 4]);
    let mut i = a.duplicate();
    i.intersect_with(&b);
    assert_eq!(i.members(), vec![2]);
    let mut d = a.duplicate();
    d.difference_with(&b);
    assert_eq!(d.members(), vec![0, 4]);
    assert_eq!(a.len(), 3);
    assert_eq!(a.first(), Some(0));
    assert_eq!(b.first(), Some(2));
    assert_eq!(set_of(6, &[]).first(), None);
    assert_eq!(a.universe(), 6);
    assert!(u.is_superset(&a));
    assert!(!a.is_superset(&b));
    assert!(!a.contains(9));
    assert!(a.equals(&set_of(6, &[4, 2, 0])));
    assert!(!a.equals(&b));
    d.clear();
    assert!(d.is_empty());
    assert!(!a.is_empty());
}

#[test]
fn keys_come_in_ascending_order() {
    let t = vec![(2, 'b', 0), (0, 'b', 1), (0, '_', 2), (0, 'a', 1), (0, 'a', 0), (2, 'B', 2)];
    let nfa = NFA::new(3, &vec!['b', 'a', 'B'], &t, 0, &vec![1]).unwrap();
    let keys = nfa.table().keys();
    assert_eq!(keys, vec![(0, '_'), (0, 'a'), (0, 'b'), (2, 'B'), (2, 'b')]);
    let mut sorted = keys.clone();
    sorted.sort();
    assert_eq!(keys, sorted);
    assert_eq!(nfa.table().successors(0, 'a').members(), vec![0, 1]);
    assert_eq!(TransitionTable::new(3, &vec!['a']).keys(), vec![]);
}
