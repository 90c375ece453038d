use hephaestus::{ConstructionError, Run, DFA};

/// The text that describes an automaton: alphabet, start state, accepting
/// states, and the transitions in ascending order.
fn render(dfa: &DFA) -> String {
    let alphabet: Vec<String> = dfa.alphabet().iter().map(|c| c.to_string()).collect();
    let accept: Vec<String> =
        (0..dfa.num_states()).filter(|s| dfa.is_accepting(*s)).map(|s| s.to_string()).collect();
    let mut text = format!(
        "Alphabet: [{}]\nStart State: {}\nAccept States: {{{}}}\nTransitions:\n",
        alphabet.join(", "),
        dfa.start(),
        accept.join(", ")
    );
    for (curr, sym, next) in dfa.transitions() {
        text.push_str(&format!("  ({}, '{}') -> {}\n", curr, sym, next));
    }
    text
}

fn zeroes() -> DFA {
    let alphabet = vec!['0', '1'];
    let transitions = vec![(0, '0', 0), (0, '1', 1), (1, '0', 1), (1, '1', 1)];
    DFA::new(2, &alphabet, &transitions, 0, &vec![0]).unwrap()
}

fn ones() -> DFA {
    let alphabet = vec!['0', '1'];
    let transitions = vec![(0, '0', 1), (0, '1', 0), (1, '0', 1), (1, '1', 1)];
    DFA::new(2, &alphabet, &transitions, 0, &vec![0]).unwrap()
}

fn even_length() -> DFA {
    let alphabet = vec!['0', '1'];
    let transitions = vec![(0, '0', 1), (0, '1', 1), (1, '0', 0), (1, '1', 0)];
    DFA::new(2, &alphabet, &transitions, 0, &vec![0]).unwrap()
}

#[test]
fn dfa_product_catches_different_alphabets() {
    let a1 = vec!['0', '1'];
    let a2 = vec!['0', 'a'];
    let states = 1;
    let start = 0;
    let accept = vec![0];
    //Accepts strings of only zeros
    let t1 = vec![(0, '0', 0), (0, '1', 0)];
    let t2 = vec![(0, '0', 0), (0, 'a', 0)];

    let dfa1 = DFA::new(states, &a1, &t1, start, &accept).unwrap();
    let dfa2 = DFA::new(states, &a2, &t2, start, &accept).unwrap();
    let res = DFA::dfa_product(&dfa1, &dfa2, |_, _| false);

    assert_eq!(res.is_none(), true);
}

#[test]
fn dfa_validates_transitions() {
    let alphabet = vec!['0', '1'];
    let states = 1;
    let start = 0;
    let accept = vec![0];
    let t1 = vec![(0, '0', 0)]; //Too few
    let t2 = vec![(0, '0', 0), (0, '0', 0)]; //Duplicate
    let t3 = vec![(0, '1', 0), (0, '1', 5)]; //Invalid state

    match DFA::new(states, &alphabet, &t1, start, &accept) {
        Ok(_) => panic!(),
        Err(e) => assert_eq!(e.message(), format!("Incorrect number of transitions")),
    }

    match DFA::new(states, &alphabet, &t2, start, &accept) {
        Ok(_) => panic!(),
        Err(e) => assert_eq!(e.message(), format!("Duplicate transition: (0, '0') -> 0")),
    }

    match DFA::new(states, &alphabet, &t3, start, &accept) {
        Ok(_) => panic!(),
        Err(e) => {
            assert_eq!(e.message(), format!("In transition: (0, '1') -> 5: State `5` does not exist"))
        }
    }
}

#[test]
fn dfa_accepts_correct_inputs() {
    let alphabet = vec!['0', '1'];
    let states = 2;
    let start = 0;
    let accept = vec![0];
    //Accepts strings of only zeros
    let transitions = vec![(0, '0', 0), (0, '1', 1), (1, '0', 1), (1, '1', 1)];

    let dfa = DFA::new(states, &alphabet, &transitions, start, &accept).unwrap();

    let valid = vec!["", "0", "00", "0000000"];

    for s in valid.iter() {
        match dfa.run(*s) {
            Some(b) => assert_eq!(b, true),
            None => panic!(),
        }
    }
}

#[test]
fn dfa_rejects_incorrect_inputs() {
    let invalid = vec!["1", "001", "0100000"];

    let alphabet = vec!['0', '1'];
    let states = 2;
    let start = 0;
    let accept = vec![0];
    //Accepts strings of only zeros
    let transitions = vec![(0, '0', 0), (0, '1', 1), (1, '0', 1), (1, '1', 1)];

    let dfa = DFA::new(states, &alphabet, &transitions, start, &accept).unwrap();

    for s in invalid.iter() {
        match dfa.run(*s) {
            Some(b) => assert_eq!(b, false),
            None => panic!(),
        }
    }
}

#[test]
fn dfa_catches_invalid_inputs() {
    let invalid = vec!["a", "00a", "0b00000"];

    let alphabet = vec!['0', '1'];
    let states = 2;
    let start = 0;
    let accept = vec![0];
    //Accepts strings of only zeros
    let transitions = vec![(0, '0', 0), (0, '1', 1), (1, '0', 1), (1, '1', 1)];

    let dfa = DFA::new(states, &alphabet, &transitions, start, &accept).unwrap();

    for s in invalid.iter() {
        assert_eq!(dfa.run(*s).is_none(), true);
    }
}

#[test]
fn dfa_complement_works() {
    let accept_strings = vec!["", "00", "10", "1"];
    let reject_strings = vec!["000", "101010", "111110"];

    let alphabet = vec!['0', '1'];
    let states = 4;
    let start = 0;
    let accept = vec![0, 1, 2];
    //Set of strings of length <= 2
    let transitions = vec![
        (0, '0', 1),
        (0, '1', 1),
        (1, '0', 2),
        (1, '1', 2),
        (2, '0', 3),
        (2, '1', 3),
        (3, '0', 3),
        (3, '1', 3),
    ];

    let dfa = DFA::new(states, &alphabet, &transitions, start, &accept).unwrap();
    let cmp = dfa.complement();

    for s in accept_strings.iter() {
        assert_eq!(dfa.run(*s).unwrap(), true);
        assert_eq!(cmp.run(*s).unwrap(), false);
    }

    for s in reject_strings.iter() {
        assert_eq!(dfa.run(*s).unwrap(), false);
        assert_eq!(cmp.run(*s).unwrap(), true);
    }
}

#[test]
fn dfa_union_works() {
    let accept_strings = vec!["", "00", "0000", "111111", "1"];
    let reject_strings = vec!["010", "10", "111110"];

    let alphabet = vec!['0', '1'];
    let states = 2;
    let start = 0;
    let accept = vec![0];
    //Only zeroes
    let t1 = vec![(0, '0', 0), (0, '1', 1), (1, '0', 1), (1, '1', 1)];

    let t2 = vec![(0, '0', 1), (0, '1', 0), (1, '0', 1), (1, '1', 1)];

    let dfa1 = DFA::new(states, &alphabet, &t1, start, &accept).unwrap();
    let dfa2 = DFA::new(states, &alphabet, &t2, start, &accept).unwrap();
    let union = dfa1.union(&dfa2).unwrap();

    for s in accept_strings.iter() {
        assert_eq!(union.run(*s).unwrap(), true);
    }

    for s in reject_strings.iter() {
        assert_eq!(union.run(*s).unwrap(), false);
    }
}

#[test]
fn dfa_intersection_works() {
    let accept_strings = vec![""];
    let reject_strings = vec!["010", "00", "111", "0", "1"];

    let alphabet = vec!['0', '1'];
    let states = 2;
    let start = 0;
    let accept = vec![0];
    //Only zeroes
    let t1 = vec![(0, '0', 0), (0, '1', 1), (1, '0', 1), (1, '1', 1)];

    let t2 = vec![(0, '0', 1), (0, '1', 0), (1, '0', 1), (1, '1', 1)];

    let dfa1 = DFA::new(states, &alphabet, &t1, start, &accept).unwrap();
    let dfa2 = DFA::new(states, &alphabet, &t2, start, &accept).unwrap();
    let ints = dfa1.intersect(&dfa2).unwrap();

    for s in accept_strings.iter() {
        assert_eq!(ints.run(*s).unwrap(), true);
    }

    for s in reject_strings.iter() {
        assert_eq!(ints.run(*s).unwrap(), false);
    }
}

#[test]
fn dfa_minimization() {
    let n = 4;
    let start = 0;
    let a = vec!['a', 'b'];
    let accept = vec![0, 1, 3];
    let t = vec![
        (0, 'a', 1),
        (0, 'b', 1),
        (1, 'a', 0),
        (1, 'b', 0),
        (2, 'a', 2),
        (2, 'b', 0),
        (3, 'a', 2),
        (3, 'b', 1),
    ];

    let dfa = DFA::new(n, &a, &t, start, &accept).unwrap().minimize().unwrap();

    let expected = "Alphabet: [a, b]\nStart State: 0\nAccept States: {0}\nTransitions:\n  (0, 'a') -> 0\n  (0, 'b') -> 0\n";

    assert_eq!(render(&dfa).as_str(), expected);
}

#[test]
fn dfa_minimum_complement_intersection() {
    let n = 2;
    let a = vec!['a', 'b'];
    let accept = vec![0, 1];
    let start = 0;
    let t = vec![(0, 'a', 1), (0, 'b', 1), (1, 'a', 0), (1, 'b', 0)];

    let d1 = DFA::new(n, &a, &t, start, &accept).unwrap();
    let d2 = d1.complement().intersect(&d1).unwrap().minimize().unwrap();

    let expected = "Alphabet: [a, b]\nStart State: 0\nAccept States: {}\nTransitions:\n  (0, 'a') -> 0\n  (0, 'b') -> 0\n";
    assert_eq!(render(&d2).as_str(), expected);
}

#[test]
fn nfa_validates_transitions() {
    let alphabet = vec!['0', '1'];
    let states = 1;
    let start = 0;
    let accept = vec![0];
    let t = vec![(0, '1', 0), (0, '1', 5)]; //Invalid state

    match DFA::new(states, &alphabet, &t, start, &accept) {
        Ok(_) => panic!(),
        Err(e) => {
            assert_eq!(e.message(), format!("In transition: (0, '1') -> 5: State `5` does not exist"))
        }
    }
}

#[test]
fn new_refuses_wrong_number_of_transitions() {
    let alphabet = vec!['0', '1'];
    for count in [0usize, 1, 3, 5] {
        let transitions: Vec<(usize, char, usize)> =
            vec![(0, '0', 0), (0, '1', 1), (1, '0', 1), (1, '1', 1), (1, '1', 0)][..count].to_vec();
        let r = DFA::new(2, &alphabet, &transitions, 0, &vec![0]);
        assert!(matches!(r, Err(ConstructionError::ShapeError)));
    }
}

#[test]
fn new_refuses_repeated_pair() {
    let alphabet = vec!['0', '1'];
    let transitions = vec![(0, '0', 0), (0, '1', 1), (0, '0', 1), (1, '1', 1)];
    let r = DFA::new(2, &alphabet, &transitions, 0, &vec![0]);
    assert!(matches!(
        r,
        Err(ConstructionError::DuplicateOrMissingTransition { from: 0, symbol: '0', to: 1 })
    ));
}

#[test]
fn new_refuses_invalid_start() {
    let alphabet = vec!['0'];
    let r = DFA::new(1, &alphabet, &vec![(0, '0', 0)], 1, &vec![0]);
    assert!(matches!(r, Err(ConstructionError::InvalidStart)));
    assert_eq!(r.err().unwrap().message(), "Invalid start state");
}

#[test]
fn new_refuses_unknown_symbol() {
    let alphabet = vec!['0'];
    let r = DFA::new(1, &alphabet, &vec![(0, 'x', 0)], 0, &vec![0]);
    assert!(matches!(r, Err(ConstructionError::UnknownSymbol { symbol: 'x' })));
    assert_eq!(r.err().unwrap().message(), "Symbol `x` is not in the alphabet");
}

#[test]
fn new_refuses_unknown_source_state() {
    let alphabet = vec!['0'];
    let r = DFA::new(1, &alphabet, &vec![(12, '0', 0)], 0, &vec![0]);
    assert!(matches!(
        r,
        Err(ConstructionError::UnknownState { from: 12, symbol: '0', to: 0, state: 12 })
    ));
    assert_eq!(
        r.err().unwrap().message(),
        "In transition: (12, '0') -> 0: State `12` does not exist"
    );
}

#[test]
fn new_checks_in_the_order_given() {
    // The count comes first, then the start state, then the transitions.
    let alphabet = vec!['0'];
    let r = DFA::new(1, &alphabet, &vec![], 7, &vec![0]);
    assert!(matches!(r, Err(ConstructionError::ShapeError)));
    let r = DFA::new(2, &alphabet, &vec![(0, '0', 9), (0, 'x', 0)], 0, &vec![0]);
    assert!(matches!(r, Err(ConstructionError::UnknownState { state: 9, .. })));
}

#[test]
fn new_refuses_alphabet_with_repeated_symbol() {
    let alphabet = vec!['0', '0'];
    let r = DFA::new(1, &alphabet, &vec![(0, '0', 0), (0, '0', 0)], 0, &vec![0]);
    assert!(matches!(r, Err(ConstructionError::DuplicateOrMissingTransition { .. })));
}

#[test]
fn message_writes_large_numbers() {
    let e = ConstructionError::DuplicateOrMissingTransition { from: 1234567890, symbol: 'z', to: 10 };
    assert_eq!(e.message(), "Duplicate transition: (1234567890, 'z') -> 10");
    let e = ConstructionError::ReservedSymbol;
    assert_eq!(e.message(), "Alphabets cannot contain '_'");
}

#[test]
fn accessors_give_back_description() {
    let dfa = zeroes();
    assert_eq!(dfa.num_states(), 2);
    assert_eq!(dfa.alphabet(), &vec!['0', '1']);
    assert_eq!(dfa.start(), 0);
    assert!(dfa.is_accepting(0));
    assert!(!dfa.is_accepting(1));
    assert!(!dfa.is_accepting(2));
    assert_eq!(dfa.delta(0, '1'), Some(1));
    assert_eq!(dfa.delta(1, '0'), Some(1));
    assert_eq!(dfa.delta(2, '0'), None);
    assert_eq!(dfa.delta(0, 'x'), None);
    assert_eq!(dfa.target(0, 1), 1);
}

#[test]
fn accept_entries_that_are_no_states_are_ignored() {
    let alphabet = vec!['0'];
    let dfa = DFA::new(1, &alphabet, &vec![(0, '0', 0)], 0, &vec![5]).unwrap();
    assert_eq!(dfa.run(""), Some(false));
    assert_eq!(dfa.complement().run("0"), Some(true));
    assert_eq!(dfa.complement().complement().run("0"), Some(false));
}

#[test]
fn even_length_scenario() {
    let dfa = even_length();
    assert_eq!(dfa.run(""), Some(true));
    assert_eq!(dfa.run("a"), None);
    assert_eq!(dfa.run("ababba"), None);
    assert_eq!(dfa.run("0101"), Some(true));
    assert_eq!(dfa.run("0"), Some(false));
}

#[test]
fn run_is_repeatable() {
    let dfa = even_length();
    for w in ["", "0", "01", "0x", "1111"] {
        assert_eq!(dfa.run(w), dfa.run(w));
    }
}

#[test]
fn zeroes_intersect_ones_accepts_only_the_empty_word() {
    let both = zeroes().intersect(&ones()).unwrap();
    assert_eq!(both.run(""), Some(true));
    for w in ["0", "1", "00", "11", "01", "10", "000"] {
        assert_eq!(both.run(w), Some(false));
    }
    assert_eq!(both.run("2"), None);
}

#[test]
fn product_numbers_pairs_row_by_row() {
    let a = zeroes();
    let b = even_length();
    let p = a.union(&b).unwrap();
    assert_eq!(p.num_states(), 4);
    assert_eq!(p.start(), 0);
    // (i, j) has the number i * 2 + j.
    for i in 0..2 {
        for j in 0..2 {
            for c in ['0', '1'] {
                let next = a.delta(i, c).unwrap() * 2 + b.delta(j, c).unwrap();
                assert_eq!(p.delta(i * 2 + j, c), Some(next));
            }
            assert_eq!(p.is_accepting(i * 2 + j), a.is_accepting(i) || b.is_accepting(j));
        }
    }
}

#[test]
fn union_and_intersection_agree_with_operands() {
    let a = zeroes();
    let b = even_length();
    let u = a.union(&b).unwrap();
    let i = a.intersect(&b).unwrap();
    for w in ["", "0", "1", "00", "01", "10", "11", "000", "0000", "0101"] {
        let x = a.run(w).unwrap();
        let y = b.run(w).unwrap();
        assert_eq!(u.run(w), Some(x || y));
        assert_eq!(i.run(w), Some(x && y));
    }
    assert_eq!(u.run("0a"), None);
}

#[test]
fn product_with_reordered_alphabet() {
    let a = zeroes();
    let alphabet = vec!['1', '0'];
    let transitions = vec![(0, '1', 0), (0, '0', 1), (1, '0', 1), (1, '1', 1)];
    let b = DFA::new(2, &alphabet, &transitions, 0, &vec![0]).unwrap();
    let both = a.intersect(&b).unwrap();
    assert_eq!(both.alphabet(), &vec!['0', '1']);
    assert_eq!(both.run(""), Some(true));
    assert_eq!(both.run("0"), Some(false));
    assert_eq!(both.run("1"), Some(false));
}

#[test]
fn complement_twice_is_the_same_language() {
    let dfa = zeroes();
    let twice = dfa.complement().complement();
    for w in ["", "0", "1", "00", "010", "x"] {
        assert_eq!(twice.run(w), dfa.run(w));
    }
}

#[test]
fn reachable_states_leaves_out_unreached() {
    let a = vec!['a', 'b'];
    let t = vec![
        (0, 'a', 1),
        (0, 'b', 1),
        (1, 'a', 0),
        (1, 'b', 0),
        (2, 'a', 2),
        (2, 'b', 0),
        (3, 'a', 2),
        (3, 'b', 1),
    ];
    let dfa = DFA::new(4, &a, &t, 0, &vec![0, 1, 3]).unwrap();
    let reached = dfa.reachable_states();
    assert!(reached.contains(0));
    assert!(reached.contains(1));
    assert!(!reached.contains(2));
    assert!(!reached.contains(3));
    assert_eq!(reached.len(), 2);
}

#[test]
fn accepts_none_sees_only_reachable_accepting_states() {
    let a = vec!['a'];
    let dead = DFA::new(2, &a, &vec![(0, 'a', 0), (1, 'a', 1)], 0, &vec![1]).unwrap();
    assert!(dead.accepts_none());
    let live = DFA::new(2, &a, &vec![(0, 'a', 1), (1, 'a', 1)], 0, &vec![1]).unwrap();
    assert!(!live.accepts_none());
    let none = DFA::new(1, &a, &vec![(0, 'a', 0)], 0, &vec![]).unwrap();
    assert!(none.accepts_none());
}

#[test]
fn equals_is_reflexive() {
    for d in [zeroes(), ones(), even_length()] {
        assert!(d.equals(&d));
    }
}

#[test]
fn equals_tells_languages_apart() {
    assert!(!zeroes().equals(&ones()));
    assert!(!zeroes().equals(&zeroes().complement()));
    assert!(zeroes().equals(&zeroes().complement().complement()));
}

#[test]
fn equals_is_false_over_different_alphabets() {
    let a = DFA::new(1, &vec!['0', '1'], &vec![(0, '0', 0), (0, '1', 0)], 0, &vec![0]).unwrap();
    let b = DFA::new(1, &vec!['0', 'a'], &vec![(0, '0', 0), (0, 'a', 0)], 0, &vec![0]).unwrap();
    assert!(!a.equals(&b));
}

#[test]
fn minimized_automata_of_one_language_are_equal() {
    // Two automata for the words of even length, one with spare states.
    let a = vec!['0', '1'];
    let t = vec![
        (0, '0', 1),
        (0, '1', 3),
        (1, '0', 2),
        (1, '1', 0),
        (2, '0', 3),
        (2, '1', 1),
        (3, '0', 0),
        (3, '1', 2),
    ];
    let big = DFA::new(4, &a, &t, 0, &vec![0, 2]).unwrap();
    let small = even_length();
    let m1 = big.minimize().unwrap();
    let m2 = small.minimize().unwrap();
    assert_eq!(m1.num_states(), 2);
    assert_eq!(m2.num_states(), 2);
    assert!(m1.equals(&m2));
    assert!(big.equals(&small));
}

#[test]
fn minimize_collapses_redundant_and_unreachable_states() {
    // State 2 behaves as state 1 does, and state 3 is never reached.
    let a = vec!['a', 'b'];
    let t = vec![
        (0, 'a', 1),
        (0, 'b', 2),
        (1, 'a', 0),
        (1, 'b', 0),
        (2, 'a', 0),
        (2, 'b', 0),
        (3, 'a', 3),
        (3, 'b', 0),
    ];
    let dfa = DFA::new(4, &a, &t, 0, &vec![0, 3]).unwrap();
    let min = dfa.minimize().unwrap();
    let expected = "Alphabet: [a, b]\nStart State: 0\nAccept States: {0}\nTransitions:\n  (0, 'a') -> 1\n  (0, 'b') -> 1\n  (1, 'a') -> 0\n  (1, 'b') -> 0\n";
    assert_eq!(render(&min).as_str(), expected);
}

#[test]
fn minimize_preserves_the_language() {
    let a = vec!['a', 'b'];
    // Words with an even number of a's and at least one b, with spare states.
    let t = vec![
        (0, 'a', 1),
        (0, 'b', 2),
        (1, 'a', 0),
        (1, 'b', 3),
        (2, 'a', 3),
        (2, 'b', 4),
        (3, 'a', 2),
        (3, 'b', 5),
        (4, 'a', 5),
        (4, 'b', 2),
        (5, 'a', 4),
        (5, 'b', 3),
        (6, 'a', 0),
        (6, 'b', 6),
    ];
    let dfa = DFA::new(7, &a, &t, 0, &vec![2, 4]).unwrap();
    let min = dfa.minimize().unwrap();
    assert_eq!(min.num_states(), 4);
    let mut words = vec![String::new()];
    for _ in 0..6 {
        let mut longer = vec![];
        for w in words.iter() {
            longer.push(format!("{}a", w));
            longer.push(format!("{}b", w));
        }
        for w in longer.iter() {
            assert_eq!(dfa.run(w), min.run(w));
        }
        words = longer;
    }
    assert_eq!(min.run("abc"), None);
    assert!(dfa.equals(&min));
}

#[test]
fn minimize_splits_by_later_symbols() {
    // States 1 and 2 differ only on the second symbol.
    let a = vec!['a', 'b'];
    let t = vec![
        (0, 'a', 1),
        (0, 'b', 2),
        (1, 'a', 3),
        (1, 'b', 3),
        (2, 'a', 3),
        (2, 'b', 4),
        (3, 'a', 3),
        (3, 'b', 3),
        (4, 'a', 4),
        (4, 'b', 4),
    ];
    let dfa = DFA::new(5, &a, &t, 0, &vec![4]).unwrap();
    let min = dfa.minimize().unwrap();
    assert_eq!(min.num_states(), 4);
    for w in ["", "a", "b", "bb", "ba", "ab", "bba", "abb"] {
        assert_eq!(dfa.run(w), min.run(w));
    }
}

/// Every automaton with two states over `{a, b}`.
fn all_two_state_automata() -> Vec<DFA> {
    let alphabet = vec!['a', 'b'];
    let mut all = vec![];
    for code in 0..16usize {
        let t = vec![
            (0, 'a', code & 1),
            (0, 'b', (code >> 1) & 1),
            (1, 'a', (code >> 2) & 1),
            (1, 'b', (code >> 3) & 1),
        ];
        for accept in [vec![], vec![0], vec![1], vec![0, 1]] {
            for start in 0..2 {
                all.push(DFA::new(2, &alphabet, &t, start, &accept).unwrap());
            }
        }
    }
    all
}

fn words_up_to(length: usize) -> Vec<String> {
    let mut all = vec![String::new()];
    let mut last = vec![String::new()];
    for _ in 0..length {
        let mut longer = vec![];
        for w in last.iter() {
            longer.push(format!("{}a", w));
            longer.push(format!("{}b", w));
        }
        all.extend(longer.iter().cloned());
        last = longer;
    }
    all
}

#[test]
fn minimize_agrees_on_every_small_automaton() {
    let words = words_up_to(4);
    for d in all_two_state_automata() {
        let min = d.minimize().unwrap();
        assert!(min.num_states() <= d.num_states());
        for w in words.iter() {
            assert_eq!(min.run(w), d.run(w));
        }
        assert!(d.equals(&min));
        // Minimizing again changes nothing.
        let again = min.minimize().unwrap();
        assert_eq!(render(&again), render(&min));
    }
}

#[test]
fn equals_agrees_with_runs_on_small_automata() {
    let words = words_up_to(3);
    let all = all_two_state_automata();
    for a in all.iter().step_by(5) {
        for b in all.iter().step_by(3) {
            // Two automata with two states differ on a word of length below four, or on none.
            let same = words.iter().all(|w| a.run(w) == b.run(w));
            assert_eq!(a.equals(b), same);
            assert_eq!(a.equals(b), b.equals(a));
        }
    }
}

#[test]
fn transitions_come_in_ascending_order() {
    let alphabet = vec!['b', 'a'];
    let t = vec![(1, 'b', 1), (0, 'b', 1), (1, 'a', 0), (0, 'a', 0)];
    let dfa = DFA::new(2, &alphabet, &t, 0, &vec![0]).unwrap();
    assert_eq!(dfa.transitions(), vec![(0, 'a', 0), (0, 'b', 1), (1, 'a', 0), (1, 'b', 1)]);
    assert_eq!(dfa.alphabet(), &vec!['b', 'a']);
    let mut sorted = t.clone();
    sorted.sort();
    assert_eq!(dfa.transitions(), sorted);
}

#[test]
fn errors_compare_by_value() {
    let alphabet = vec!['0'];
    let r = DFA::new(1, &alphabet, &vec![(0, '0', 3)], 0, &vec![0]);
    assert_eq!(
        r.err(),
        Some(ConstructionError::UnknownState { from: 0, symbol: '0', to: 3, state: 3 })
    );
}
