use lstar::acceptor::DFA;
use lstar::learner::{
    construct_automaton, equivalence_query, fill, find_inconsistency, find_unclosed, learn,
    learn_within, make_closed, make_consistent, membership_query, LearnError,
};
use lstar::table::{ObservationTable, TableError};
use lstar::word::Word;
use lstar::RunError;

fn target() -> DFA {
    DFA::new(
        vec![
            (("[ε]", "a"), "[ε]"),
            (("[ε]", "b"), "[b]"),
            (("[b]", "a"), "[ba]"),
            (("[b]", "b"), "[b]"),
            (("[ba]", "a"), "[ba]"),
            (("[ba]", "b"), "[ba]"),
        ],
        "[ε]",
        vec!["[b]"],
    )
}

fn w(symbols: &[&str]) -> Word {
    symbols.iter().map(|s| s.to_string()).collect()
}

fn words_up_to(alphabet: &[String], max: usize) -> Vec<Word> {
    let mut all: Vec<Word> = vec![vec![]];
    let mut frontier: Vec<Word> = vec![vec![]];
    for _ in 0..max {
        let mut next = vec![];
        for f in &frontier {
            for a in alphabet {
                let mut x = f.clone();
                x.push(a.clone());
                next.push(x);
            }
        }
        all.extend(next.iter().cloned());
        frontier = next;
    }
    all
}

#[test]
fn test_l_star() {
    let target = DFA::new(
        vec![
            (("[ε]", "a"), "[ε]"),
            (("[ε]", "b"), "[b]"),
            (("[b]", "a"), "[ba]"),
            (("[b]", "b"), "[b]"),
            (("[ba]", "a"), "[ba]"),
            (("[ba]", "b"), "[ba]"),
        ],
        "[ε]",
        vec!["[b]"],
    );

    let (dfa, _table) = learn(&target).unwrap();
    println!("DFA: {:?}", dfa);
    assert_eq!(equivalence_query(&target, &dfa), None);
}

#[test]
fn construction_collects_states_and_alphabet() {
    let t = target();
    assert_eq!(t.states_size(), 3);
    assert_eq!(t.get_alphabet().to_vec(), w(&["a", "b"]));
    assert_eq!(t.get_init_state(), "[ε]");
    assert_eq!(t.get_final_states().to_vec(), w(&["[b]"]));
    assert_eq!(t.get_transitions().len(), 6);
}

#[test]
fn run_accepts_and_rejects() {
    let t = target();
    assert_eq!(t.run(&w(&[])), Ok(false));
    assert_eq!(t.run(&w(&["b"])), Ok(true));
    assert_eq!(t.run(&w(&["a", "a", "b"])), Ok(true));
    assert_eq!(t.run(&w(&["b", "a"])), Ok(false));
    assert_eq!(t.run(&w(&["b", "b", "b"])), Ok(true));
    assert_eq!(t.run(&w(&["b", "a", "b"])), Ok(false));
}

#[test]
fn run_rejects_unknown_symbol() {
    let t = target();
    assert_eq!(t.run(&w(&["a", "c"])), Err(RunError::UnknownSymbol));
    assert_eq!(t.run(&w(&["ε"])), Err(RunError::UnknownSymbol));
}

#[test]
fn run_reports_missing_transition() {
    let partial = DFA::new(vec![(("p", "a"), "q"), (("p", "b"), "p")], "p", vec!["q"]);
    assert_eq!(partial.run(&w(&["a"])), Ok(true));
    assert_eq!(partial.run(&w(&["a", "b"])), Err(RunError::MissingTransition));
}

#[test]
fn later_transition_overrides_earlier() {
    let d = DFA::new(vec![(("p", "a"), "p"), (("p", "a"), "q")], "p", vec!["q"]);
    assert_eq!(d.run(&w(&["a"])), Ok(true));
    assert_eq!(d.states_size(), 2);
}

#[test]
fn membership_query_runs_target() {
    let t = target();
    assert_eq!(membership_query(&t, &w(&["a", "b"])), Ok(true));
    assert_eq!(membership_query(&t, &w(&["b", "a"])), Ok(false));
}

#[test]
fn concat_empty_is_identity() {
    let x = w(&["a", "b"]);
    assert_eq!(lstar::word::concat(&[], &x), x);
    assert_eq!(lstar::word::concat(&x, &[]), x);
    assert_eq!(lstar::word::concat(&[], &[]), w(&[]));
    assert_eq!(lstar::word::concat(&w(&["a"]), &w(&["b", "a"])), w(&["a", "b", "a"]));
}

#[test]
fn new_table_has_empty_row_and_column() {
    let t = ObservationTable::new();
    assert_eq!(t.get_rows().to_vec(), vec![w(&[])]);
    assert_eq!(t.get_columns().to_vec(), vec![w(&[])]);
    assert_eq!(t.get_cell(&w(&[]), &w(&[])), None);
    assert!(!t.is_filled(&w(&[]), &w(&[])));
}

#[test]
fn fill_cell_keeps_first_value() {
    let mut t = ObservationTable::new();
    t.fill_cell(&w(&["a"]), &w(&[]), true);
    t.fill_cell(&w(&["a"]), &w(&[]), false);
    assert_eq!(t.get_cell(&w(&["a"]), &w(&[])), Some(true));
    assert!(t.is_filled(&w(&["a"]), &w(&[])));
}

#[test]
fn signature_of_incomplete_row_fails() {
    let mut t = ObservationTable::new();
    t.add_columns(w(&["b"]));
    t.fill_cell(&w(&[]), &w(&[]), false);
    assert_eq!(t.get_value(&w(&[])), Err(TableError::IncompleteRow));
    assert_eq!(t.get_value_as_state(&w(&[])), Err(TableError::IncompleteRow));
    assert_eq!(t.get_states(), Err(TableError::IncompleteTable));
    t.fill_cell(&w(&[]), &w(&["b"]), true);
    assert_eq!(t.get_value(&w(&[])), Ok(vec![false, true]));
    assert_eq!(t.get_value_as_state(&w(&[])), Ok("01".to_string()));
    assert_eq!(t.get_states(), Ok(vec!["01".to_string()]));
}

#[test]
fn state_names_encode_signatures() {
    assert_eq!(ObservationTable::vecbool_to_state(vec![true, false, true]), "101");
    assert_eq!(ObservationTable::vecbool_to_state(vec![]), "");
}

#[test]
fn adding_rows_and_columns_is_idempotent() {
    let mut t = ObservationTable::new();
    t.add_rows(w(&["a"]));
    t.add_rows(w(&["a"]));
    t.add_rows(w(&[]));
    assert_eq!(t.get_rows().to_vec(), vec![w(&[]), w(&["a"])]);
    t.add_columns(w(&["b"]));
    t.add_columns(w(&["b"]));
    assert_eq!(t.get_columns().to_vec(), vec![w(&[]), w(&["b"])]);
}

#[test]
fn fill_twice_asks_nothing_more() {
    let target = target();
    let mut t = ObservationTable::new();
    assert_eq!(fill(&mut t, &target), Ok(3));
    assert_eq!(t.get_cell(&w(&[]), &w(&[])), Some(false));
    assert_eq!(t.get_cell(&w(&["a"]), &w(&[])), Some(false));
    assert_eq!(t.get_cell(&w(&["b"]), &w(&[])), Some(true));
    assert_eq!(fill(&mut t, &target), Ok(0));
    assert_eq!(t.get_cell(&w(&["b"]), &w(&[])), Some(true));
    assert_eq!(t.get_states(), Ok(vec!["0".to_string()]));
}

#[test]
fn same_signature_same_state() {
    let target = target();
    let mut t = ObservationTable::new();
    t.add_rows(w(&["a"]));
    t.add_rows(w(&["b"]));
    fill(&mut t, &target).unwrap();
    let s1 = t.get_value_as_state(&w(&[])).unwrap();
    let s2 = t.get_value_as_state(&w(&["a"])).unwrap();
    assert_eq!(s1, s2);
    assert_eq!(t.get_value_as_state(&w(&[])).unwrap(), s1);
    assert_ne!(t.get_value_as_state(&w(&["b"])).unwrap(), s1);
}

#[test]
fn learned_table_is_closed_and_consistent() {
    let target = target();
    let (_, t) = learn(&target).unwrap();
    assert_eq!(find_inconsistency(&t, target.get_alphabet()), None);
    assert_eq!(find_unclosed(&t, target.get_alphabet()), None);
    let states = t.get_states().unwrap();
    assert_eq!(states.len(), t.get_rows().len());
}

#[test]
fn learned_hypothesis_agrees_up_to_bound() {
    let target = target();
    let (h, _) = learn(&target).unwrap();
    let alphabet = target.get_alphabet().to_vec();
    for x in words_up_to(&alphabet, target.states_size() + 1) {
        assert_eq!(target.run(&x), h.run(&x), "word {:?}", x);
    }
    let mut distinct = h.get_states().to_vec();
    distinct.sort();
    distinct.dedup();
    assert_eq!(distinct.len(), 3);
}

#[test]
fn learns_an_even_count_language() {
    let target = DFA::new(
        vec![(("e", "x"), "o"), (("o", "x"), "e"), (("e", "y"), "e"), (("o", "y"), "o")],
        "e",
        vec!["e"],
    );
    let (h, _) = learn(&target).unwrap();
    assert_eq!(equivalence_query(&target, &h), None);
    assert_eq!(h.run(&w(&["x", "y", "x"])), Ok(true));
    assert_eq!(h.run(&w(&["x", "y"])), Ok(false));
}

#[test]
fn equivalence_query_finds_shortest_difference() {
    let target = target();
    let all_reject = DFA::new(vec![(("z", "a"), "z"), (("z", "b"), "z")], "z", vec![]);
    assert_eq!(equivalence_query(&target, &all_reject), Some(w(&["b"])));
    assert_eq!(equivalence_query(&target, &target), None);
}

#[test]
fn first_hypothesis_of_single_row_table() {
    let target = target();
    let mut t = ObservationTable::new();
    fill(&mut t, &target).unwrap();
    let h = construct_automaton(&t, target.get_alphabet());
    assert_eq!(h.get_init_state(), "0");
    assert_eq!(h.states_size(), 2);
    assert_eq!(h.run(&w(&["a"])), Ok(false));
    assert_eq!(h.run(&w(&["b"])), Ok(false));
    assert_eq!(h.run(&w(&["b", "a"])), Err(RunError::MissingTransition));
}

#[test]
fn repairs_reach_closed_table() {
    let target = target();
    let mut t = ObservationTable::new();
    fill(&mut t, &target).unwrap();
    assert_eq!(find_unclosed(&t, target.get_alphabet()), Some(w(&["b"])));
    let mut budget: u64 = 100;
    make_closed(&mut t, &target, &mut budget).unwrap();
    assert_eq!(budget, 99);
    assert_eq!(find_unclosed(&t, target.get_alphabet()), None);
    make_consistent(&mut t, &target, &mut budget).unwrap();
    assert_eq!(budget, 99);
    assert_eq!(find_inconsistency(&t, target.get_alphabet()), None);
    assert_eq!(t.get_rows().to_vec(), vec![w(&[]), w(&["b"])]);
    assert_eq!(t.get_columns().to_vec(), vec![w(&[])]);
}

#[test]
fn partial_target_fails_with_missing_transition() {
    let partial = DFA::new(vec![(("p", "a"), "q"), (("p", "b"), "p")], "p", vec!["q"]);
    assert!(matches!(
        learn(&partial),
        Err(LearnError::Query(RunError::MissingTransition))
    ));
}

#[test]
fn zero_budget_stops() {
    let target = target();
    assert!(matches!(learn_within(&target, 0), Err(LearnError::StepLimit)));
}
