use regex_dfa::automaton::dfa::{Dfa, DfaContext, DfaState};
use regex_dfa::automaton::nfa::{new_state, Nfa, NfaState};
use regex_dfa::parser::{parse, Ast};
use std::collections::{HashMap, VecDeque};

fn compile(ast: &Ast) -> Dfa {
    let mut counter: NfaState = 0;
    let nfa = Nfa::from_ast(ast, &mut counter);
    Dfa::from_nfa(nfa)
}

fn ch(c: char) -> Ast {
    Ast::Char(c)
}

fn sorted(v: &[NfaState]) -> Vec<NfaState> {
    let mut v = v.to_vec();
    v.sort();
    v
}

#[test]
fn test_new_state() {
    let mut state = 0;
    assert_eq!(new_state(&mut state), 0);
    assert_eq!(state, 1);
    assert_eq!(new_state(&mut state), 1);
    assert_eq!(state, 2);
}

#[test]
fn nfa_builders() {
    let mut nfa = Nfa::new(4);
    nfa.add_accept(5);
    nfa.add_transition(4, 5, 'x');
    nfa.add_epsilon_transition(5, 4);
    assert_eq!(nfa.start_state(), 4);
    assert_eq!(nfa.accept_states(), &vec![5]);
    assert_eq!(nfa.transitions(), &vec![(4, Some('x'), 5), (5, None, 4)]);
}

#[test]
fn fragment_of_character() {
    let mut counter: NfaState = 10;
    let nfa = Nfa::from_ast(&ch('a'), &mut counter);
    assert_eq!(counter, 12);
    assert_eq!(nfa.start_state(), 10);
    assert_eq!(nfa.accept_states(), &vec![11]);
    assert_eq!(nfa.transitions(), &vec![(10, Some('a'), 11)]);
}

#[test]
fn fragment_of_empty() {
    let mut counter: NfaState = 0;
    let nfa = Nfa::from_ast(&Ast::Empty, &mut counter);
    assert_eq!(counter, 2);
    assert_eq!(nfa.start_state(), 0);
    assert_eq!(nfa.accept_states(), &vec![1]);
    assert_eq!(nfa.transitions(), &vec![(0, None, 1)]);
}

#[test]
fn fragment_of_star() {
    let mut counter: NfaState = 0;
    let nfa = Nfa::from_ast(&Ast::Star(Box::new(ch('a'))), &mut counter);
    assert_eq!(counter, 3);
    assert_eq!(nfa.start_state(), 2);
    assert_eq!(sorted(nfa.accept_states()), vec![1, 2]);
    let mut edges = nfa.transitions().clone();
    edges.sort();
    assert_eq!(edges, vec![(0, Some('a'), 1), (1, None, 0), (2, None, 0)]);
}

#[test]
fn fragment_of_union() {
    let mut counter: NfaState = 0;
    let nfa = Nfa::from_ast(&Ast::Or(Box::new(ch('a')), Box::new(ch('b'))), &mut counter);
    assert_eq!(counter, 5);
    assert_eq!(nfa.start_state(), 4);
    assert_eq!(sorted(nfa.accept_states()), vec![1, 3]);
    let mut edges = nfa.transitions().clone();
    edges.sort();
    assert_eq!(
        edges,
        vec![(0, Some('a'), 1), (2, Some('b'), 3), (4, None, 0), (4, None, 2)]
    );
}

#[test]
fn fragment_of_concat() {
    let mut counter: NfaState = 0;
    let nfa = Nfa::from_ast(&Ast::Concat(vec![ch('a'), ch('b')]), &mut counter);
    assert_eq!(counter, 4);
    assert_eq!(nfa.start_state(), 0);
    assert_eq!(nfa.accept_states(), &vec![3]);
    let mut edges = nfa.transitions().clone();
    edges.sort();
    assert_eq!(edges, vec![(0, Some('a'), 1), (1, None, 2), (2, Some('b'), 3)]);
}

#[test]
fn fragment_of_empty_concat() {
    let mut counter: NfaState = 7;
    let nfa = Nfa::from_ast(&Ast::Concat(vec![]), &mut counter);
    assert_eq!(counter, 9);
    assert_eq!(nfa.transitions(), &vec![(7, None, 8)]);
}

#[test]
fn closure_follows_star_loop() {
    let mut counter: NfaState = 0;
    let nfa = Nfa::from_ast(&Ast::Star(Box::new(ch('a'))), &mut counter);
    // states: 0 --a--> 1, 1 -ε-> 0, 2 -ε-> 0
    assert_eq!(sorted(&nfa.epsilon_closure(&vec![2])), vec![0, 2]);
    assert_eq!(sorted(&nfa.epsilon_closure(&vec![1])), vec![0, 1]);
    assert_eq!(sorted(&nfa.epsilon_closure(&vec![0])), vec![0]);
    assert_eq!(nfa.epsilon_closure(&vec![]), Vec::<NfaState>::new());
}

#[test]
fn closure_terminates_on_cycle_and_keeps_input() {
    let mut nfa = Nfa::new(0);
    nfa.add_epsilon_transition(0, 1);
    nfa.add_epsilon_transition(1, 2);
    nfa.add_epsilon_transition(2, 0);
    nfa.add_transition(2, 3, 'z');
    assert_eq!(sorted(&nfa.epsilon_closure(&vec![1])), vec![0, 1, 2]);
    assert_eq!(sorted(&nfa.epsilon_closure(&vec![3, 3])), vec![3]);
}

#[test]
fn closure_is_idempotent() {
    let mut nfa = Nfa::new(0);
    nfa.add_epsilon_transition(0, 1);
    nfa.add_epsilon_transition(1, 0);
    nfa.add_epsilon_transition(1, 4);
    nfa.add_transition(4, 5, 'q');
    nfa.add_epsilon_transition(5, 6);
    let once = nfa.epsilon_closure(&vec![0, 5]);
    let twice = nfa.epsilon_closure(&once);
    assert_eq!(sorted(&once), vec![0, 1, 4, 5, 6]);
    assert_eq!(sorted(&once), sorted(&twice));
}

#[test]
fn registrar_ignores_order_and_repetition() {
    let mut context = DfaContext::new();
    let a = context.get_state(&[3, 1, 2]);
    let b = context.get_state(&[1, 2, 3]);
    let c = context.get_state(&[2, 2, 3, 1, 1]);
    assert_eq!(a, DfaState(0));
    assert_eq!(a, b);
    assert_eq!(a, c);
    let d = context.get_state(&[1, 2]);
    assert_eq!(d, DfaState(1));
    assert_eq!(context.get_state(&[2, 1, 3]), a);
    assert_eq!(context.get_state(&[]), DfaState(2));
    assert_eq!(context.len(), 3);
    assert_eq!(context.states_of(0), vec![1, 2, 3]);
}

#[test]
fn concat_accepts_exactly_ab() {
    let dfa = compile(&Ast::Concat(vec![ch('a'), ch('b')]));
    assert!(dfa.matches("ab"));
    assert!(!dfa.matches(""));
    assert!(!dfa.matches("a"));
    assert!(!dfa.matches("b"));
    assert!(!dfa.matches("ba"));
    assert!(!dfa.matches("abb"));
}

#[test]
fn star_accepts_repetitions() {
    let dfa = compile(&Ast::Star(Box::new(ch('a'))));
    assert!(dfa.matches(""));
    assert!(dfa.matches("a"));
    assert!(dfa.matches("aaaa"));
    assert!(!dfa.matches("b"));
    assert!(!dfa.matches("ab"));
    assert!(dfa.accepts(dfa.start()));
}

#[test]
fn union_accepts_either() {
    let dfa = compile(&Ast::Or(Box::new(ch('a')), Box::new(ch('b'))));
    assert!(dfa.matches("a"));
    assert!(dfa.matches("b"));
    assert!(!dfa.matches(""));
    assert!(!dfa.matches("ab"));
}

#[test]
fn end_to_end_pattern() {
    let dfa = compile(&parse("abc(def|ghi)").unwrap());
    assert!(dfa.matches("abcdef"));
    assert!(dfa.matches("abcghi"));
    assert!(!dfa.matches("abc"));
    assert!(!dfa.matches("abcdeg"));
    assert!(!dfa.matches("abcdefghi"));
}

#[test]
fn empty_pattern_accepts_only_empty_input() {
    let dfa = compile(&Ast::Empty);
    assert!(dfa.matches(""));
    assert!(!dfa.matches("a"));
}

#[test]
fn star_of_concat() {
    let dfa = compile(&parse("(ab)*c").unwrap());
    assert!(dfa.matches("c"));
    assert!(dfa.matches("abc"));
    assert!(dfa.matches("ababc"));
    assert!(!dfa.matches("aba"));
    assert!(!dfa.matches("abac"));
}

#[test]
fn transition_table_is_partial() {
    let dfa = compile(&Ast::Concat(vec![ch('a'), ch('b')]));
    let start = dfa.start();
    assert_eq!(start, DfaState(0));
    assert!(!dfa.accepts(start));
    assert_eq!(dfa.next_state(start, 'b'), None);
    let after_a = dfa.next_state(start, 'a').unwrap();
    assert!(!dfa.accepts(after_a));
    let after_ab = dfa.next_state(after_a, 'b').unwrap();
    assert!(dfa.accepts(after_ab));
    assert_eq!(dfa.next_state(after_ab, 'a'), None);
    assert_eq!(dfa.next_state(after_ab, 'b'), None);
}

/// The states of `dfa` in breadth-first order from its start, each with its
/// acceptance and its moves (by the order number of the target).
fn shape(dfa: &Dfa, alphabet: &[char]) -> Vec<(bool, Vec<Option<usize>>)> {
    let mut order: HashMap<DfaState, usize> = HashMap::new();
    let mut queue: VecDeque<DfaState> = VecDeque::new();
    let mut seen: Vec<DfaState> = Vec::new();
    order.insert(dfa.start(), 0);
    queue.push_back(dfa.start());
    seen.push(dfa.start());
    while let Some(s) = queue.pop_front() {
        for &c in alphabet {
            if let Some(t) = dfa.next_state(s, c) {
                if !order.contains_key(&t) {
                    order.insert(t, seen.len());
                    seen.push(t);
                    queue.push_back(t);
                }
            }
        }
    }
    seen.iter()
        .map(|&s| {
            let moves = alphabet
                .iter()
                .map(|&c| dfa.next_state(s, c).map(|t| order[&t]))
                .collect();
            (dfa.accepts(s), moves)
        })
        .collect()
}

#[test]
fn compiling_twice_gives_isomorphic_dfas() {
    let ast = parse("a(b|c)*d|e*").unwrap();
    let alphabet = ['a', 'b', 'c', 'd', 'e', 'x'];
    let first = compile(&ast);
    let second = compile(&ast);
    assert_eq!(shape(&first, &alphabet), shape(&second, &alphabet));
    let mut counter: NfaState = 100;
    let shifted = Dfa::from_nfa(Nfa::from_ast(&ast, &mut counter));
    assert_eq!(shape(&first, &alphabet), shape(&shifted, &alphabet));
}
