use regex_executor::automaton::nfa::NFA;
use regex_executor::automaton::nfa::NFAError;

/// Non-trivial reachability over `edges` among states `0..n`, by repeated
/// relaxation: `reach[p][q]` holds when a path of one or more edges leads
/// from `p` to `q`.
fn brute_force_reach(edges: &[(i32, i32)], n: usize) -> Vec<Vec<bool>> {
    let mut reach = vec![vec![false; n]; n];
    for &(p, q) in edges {
        reach[p as usize][q as usize] = true;
    }
    loop {
        let mut changed = false;
        for p in 0..n {
            for m in 0..n {
                if reach[p][m] {
                    for q in 0..n {
                        if reach[m][q] && !reach[p][q] {
                            reach[p][q] = true;
                            changed = true;
                        }
                    }
                }
            }
        }
        if !changed {
            break;
        }
    }
    reach
}

fn sorted_forward(nfa: &NFA, state: i32) -> Vec<i32> {
    let mut v = nfa.epsilon_forward_of(&state);
    v.sort();
    v
}

#[test]
fn closure_matches_brute_force() {
    // a graph with a cycle, a diamond and a stray tail
    let edges: Vec<(i32, i32)> = vec![(1, 2), (2, 3), (3, 1), (3, 4), (0, 1), (0, 4), (4, 5)];
    let mut nfa = NFA::new(0, 5);
    for &(a, b) in &edges {
        nfa.set_chain(a, b, '@').unwrap();
    }
    let reach = brute_force_reach(&edges, 6);
    for p in 0..6 {
        let mut expected: Vec<i32> = Vec::new();
        for q in 0..6 {
            if reach[p][q] {
                expected.push(q as i32);
            }
        }
        assert_eq!(sorted_forward(&nfa, p as i32), expected);
    }
}

#[test]
fn closure_order_independent() {
    let orders: Vec<Vec<(i32, i32)>> = vec![
        vec![(1, 2), (2, 3), (3, 1), (3, 4), (0, 1)],
        vec![(0, 1), (3, 4), (3, 1), (2, 3), (1, 2)],
        vec![(3, 1), (0, 1), (1, 2), (3, 4), (2, 3)],
        vec![(2, 3), (3, 4), (0, 1), (3, 1), (1, 2)],
    ];
    let mut tables: Vec<Vec<Vec<i32>>> = Vec::new();
    for order in &orders {
        let mut nfa = NFA::new(0, 4);
        for &(a, b) in order {
            nfa.set_chain(a, b, '@').unwrap();
        }
        let mut table: Vec<Vec<i32>> = Vec::new();
        for s in 0..5 {
            table.push(sorted_forward(&nfa, s));
        }
        tables.push(table);
    }
    for table in &tables {
        assert_eq!(*table, tables[0]);
    }
}

#[test]
fn reservation_exclusivity() {
    // an overlapping range fails with AlreadyReservedState
    let nfa = NFA::new(0, 4);
    assert_eq!(NFA::reserve(nfa, 3, 6).err(), Some(NFAError::AlreadyReservedState));
    // a disjoint range succeeds
    let nfa = NFA::new(0, 4);
    let nfa = NFA::reserve(nfa, 5, 9).unwrap();
    let nfa = NFA::reserve(nfa, 100, 200).unwrap();
    // and the freshly reserved states accept transitions
    let mut nfa = nfa;
    assert!(nfa.set_chain(7, 150, 'x').is_ok());
    // merging overlapping automata fails the same way
    let nfa_a = NFA::new(0, 10);
    let nfa_b = NFA::new(10, 20);
    assert_eq!(NFA::merge(nfa_a, nfa_b, 0, 0).err(), Some(NFAError::AlreadyReservedState));
}

#[test]
fn transition_idempotence() {
    let mut nfa = NFA::new(1, 4);
    nfa.set_chain(1, 2, 'a').unwrap();
    nfa.set_chain(1, 2, 'a').unwrap();
    assert_eq!(nfa.get_closure(&1, &'a'), vec![2]);
    nfa.set_chain(1, 3, '@').unwrap();
    nfa.set_chain(3, 4, '@').unwrap();
    let forward_once: Vec<Vec<i32>> = (1..=4).map(|s| sorted_forward(&nfa, s)).collect();
    nfa.set_chain(1, 3, '@').unwrap();
    let forward_twice: Vec<Vec<i32>> = (1..=4).map(|s| sorted_forward(&nfa, s)).collect();
    assert_eq!(forward_once, forward_twice);
    assert_eq!(nfa.get_closure(&1, &'@'), vec![3]);
}

#[test]
fn simulate_ending_aab() {
    // accepts (a|b)* aab
    let chains = vec![
        (0, 0, 'a'), (0, 0, 'b'), (0, 1, 'a'), (1, 1, 'a'), (1, 1, 'b'),
        (1, 2, 'a'), (2, 2, 'a'), (2, 2, 'b'), (2, 3, 'b'), (2, 0, '@'),
    ];
    let mut nfa = NFA::new(0, 3);
    for chain in &chains {
        nfa.set_chain(chain.0, chain.1, chain.2).unwrap();
    }
    assert_eq!(nfa.simulate("abababbbabababbbaabbaab".to_string()), true);
    assert_eq!(nfa.simulate("ab".to_string()), false);
    assert_eq!(nfa.simulate("aab".to_string()), true);
}

#[test]
fn simulate_empty_input() {
    // with no input, acceptance is exactly epsilon-reachability of finish
    let mut nfa = NFA::new(0, 2);
    nfa.set_chain(0, 1, '@').unwrap();
    assert_eq!(nfa.simulate(String::new()), false);
    nfa.set_chain(1, 2, '@').unwrap();
    assert_eq!(nfa.simulate(String::new()), true);
    // a lone start state accepts the empty input when it is the finish
    let nfa = NFA::new(5, 5);
    assert_eq!(nfa.simulate(String::new()), true);
}

#[test]
fn simulate_dead_input() {
    // input that empties the active set is rejected without error
    let mut nfa = NFA::new(0, 1);
    nfa.set_chain(0, 1, 'a').unwrap();
    assert_eq!(nfa.simulate("za".to_string()), false);
    assert_eq!(nfa.simulate("a".to_string()), true);
}

#[test]
fn non_reserved_state_error() {
    let mut nfa = NFA::new(0, 4);
    assert_eq!(nfa.set_chain(0, 5, 'a').err(), Some(NFAError::NonReservedState));
    assert_eq!(nfa.set_chain(5, 0, 'a').err(), Some(NFAError::NonReservedState));
    assert_eq!(nfa.set_chain(-1, 0, '@').err(), Some(NFAError::NonReservedState));
    // the failed insertions left no trace
    assert_eq!(nfa.get_closure(&0, &'a'), vec![]);
}

#[test]
fn epsilon_self_loop() {
    // a state on an epsilon cycle reaches itself through it
    let mut nfa = NFA::new(1, 2);
    nfa.set_chain(1, 1, '@').unwrap();
    assert_eq!(sorted_forward(&nfa, 1), vec![1]);
    let mut nfa = NFA::new(1, 2);
    nfa.set_chain(1, 2, '@').unwrap();
    nfa.set_chain(2, 1, '@').unwrap();
    assert_eq!(sorted_forward(&nfa, 1), vec![1, 2]);
    assert_eq!(sorted_forward(&nfa, 2), vec![1, 2]);
}

#[test]
fn full_capacity_range() {
    // the whole identifier space can belong to one automaton
    let mut nfa = NFA::new(0, 999);
    nfa.set_chain(0, 999, 'z').unwrap();
    assert_eq!(nfa.simulate("z".to_string()), true);
    assert_eq!(nfa.simulate("zz".to_string()), false);
}

#[test]
fn unreserved_states_contribute_nothing() {
    let mut nfa = NFA::new(0, 3);
    nfa.set_chain(0, 1, '@').unwrap();
    // closure queries on states outside the reservation stay empty
    assert_eq!(nfa.get_closure(&7, &'a'), vec![]);
    assert_eq!(nfa.get_closure(&-3, &'@'), vec![]);
    let states: Vec<i32> = vec![0, 42, -1];
    assert_eq!(nfa.get_epsilon_closure(&states), vec![1]);
}
