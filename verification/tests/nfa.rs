use regex_executor::automaton::nfa::NFA;

#[test]
fn test_init() {
    let nfa = NFA::new(0, 4);
    assert_eq!(nfa.start, 0);
    assert_eq!(nfa.finish, 4);
}

#[test]
#[allow(unused_must_use)]
fn test_merge() {
    let testcases = vec![
        ((0, 10), (11, 20)),        // #1
        ((0, 4), (2, 10)),          // #2
    ];
    let expect_results = vec![true, false];
    for (testcase, result) in testcases.iter().zip(expect_results.iter()) {
        let nfa_a = NFA::new((testcase.0).0, (testcase.0).1);
        let nfa_b = NFA::new((testcase.1).0, (testcase.1).1);
        assert_eq!(*result, NFA::merge(nfa_a, nfa_b, 0, 0).is_ok());
    }
}

#[test]
#[allow(unused_must_use)]
fn test_get_closure() {
    let mut nfa = NFA::new(1, 4);
    nfa.set_chain(1, 2, 'a');
    nfa.set_chain(1, 3, 'a');
    nfa.set_chain(2, 4, 'b');
    nfa.set_chain(3, 4, 'a');
    nfa.set_chain(1, 4, '@');
    assert_eq!(nfa.get_closure(&1, &'b').iter().cloned().collect::<Vec<i32>>(), vec![]);
    assert_eq!(nfa.get_closure(&2, &'b').iter().cloned().collect::<Vec<i32>>(), vec![4]);
    assert_eq!(nfa.get_closure(&3, &'a').iter().cloned().collect::<Vec<i32>>(), vec![4]);
    assert_eq!(nfa.get_closure(&1, &'@').iter().cloned().collect::<Vec<i32>>(), vec![4]);
    let mut tmp: Vec<i32> = nfa.get_closure(&1, &'a').iter().cloned().collect();
    tmp.sort();
    assert_eq!(tmp, vec![2, 3]);
}

#[test]
#[allow(unused_must_use)]
fn test_get_epsilon_closure() {
    let mut states: Vec<i32> = Vec::new();
    states.push(3);
    states.push(5);
    states.push(6);
    let mut nfa = NFA::new(1, 6);
    nfa.set_chain(1, 2, '@');
    nfa.set_chain(2, 3, '@');
    nfa.set_chain(3, 4, '@');
    nfa.set_chain(3, 5, '@');
    nfa.set_chain(3, 6, '@');
    nfa.set_chain(5, 6, '@');
    assert_eq!(nfa.get_epsilon_closure(&states).len(), 3);
}

#[test]
#[allow(unused_must_use)]
fn test_epsilon_chain() {
    // several insertion orders of the same epsilon edge set, the reverse
    // order among them, must all produce the same closure tables
    let orders: Vec<Vec<(i32, i32)>> = vec![
        vec![(1, 2), (2, 3), (3, 4), (3, 5), (3, 6), (5, 6)],
        vec![(5, 6), (3, 6), (3, 5), (3, 4), (2, 3), (1, 2)],
        vec![(3, 5), (1, 2), (5, 6), (3, 4), (2, 3), (3, 6)],
        vec![(2, 3), (5, 6), (3, 4), (1, 2), (3, 6), (3, 5)],
    ];
    for chains in orders {
        let mut nfa = NFA::new(1, 6);
        for chain in chains {
            nfa.set_chain(chain.0, chain.1, '@');
        }
        let checklist = vec![(5, 0), (4, 1), (3, 1), (0, 1), (1, 1), (0, 2)];
        for state in 1..=6 {
            assert_eq!(nfa.epsilon_forward_of(&state).len(), checklist[(state - 1) as usize].0);
            assert_eq!(nfa.epsilon_backward_of(&state).len(), checklist[(state - 1) as usize].1);
        }
    }
}

#[test]
#[allow(unused_must_use)]
fn test_simulate() {
    let mut nfa = NFA::new(0, 10);      // accepts (a|b)* abb
    nfa.set_chain(0, 7, '@');
    nfa.set_chain(0, 1, '@');
    nfa.set_chain(1, 2, '@');
    nfa.set_chain(1, 4, '@');
    nfa.set_chain(2, 3, 'a');
    nfa.set_chain(3, 6, '@');
    nfa.set_chain(4, 5, 'b');
    nfa.set_chain(5, 6, '@');
    nfa.set_chain(6, 1, '@');
    nfa.set_chain(6, 7, '@');
    nfa.set_chain(7, 8, 'a');
    nfa.set_chain(8, 9, 'b');
    nfa.set_chain(9, 10, 'b');
    assert_eq!(nfa.simulate("a".to_string()), false);
    assert_eq!(nfa.simulate("b".to_string()), false);
    assert_eq!(nfa.simulate("aba".to_string()), false);
    assert_eq!(nfa.simulate("abbbabb".to_string()), true);
    assert_eq!(nfa.simulate("bbbbbbaaabb".to_string()), true);
    assert_eq!(nfa.simulate("aaaaaaaaaaaaaaaaaaab".to_string()), false);
    assert_eq!(nfa.simulate("abababababaaabbabababba".to_string()), false);
}
