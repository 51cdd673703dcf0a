use cdcl_core::formula::{CNFFormula, ImplicationInformation};
use cdcl_core::registry::{encode_tokens, register_variable, FormulaError};
use indexmap::IndexMap;

fn words(tokens: &[&str]) -> Vec<String> {
    tokens.iter().map(|token| token.to_string()).collect()
}

fn pile_of(clauses: &[&[&str]]) -> Vec<Vec<String>> {
    clauses.iter().map(|clause| words(clause)).collect()
}

#[test]
fn register_variable_gives_the_next_index_to_a_new_name() {
    let mut variables: IndexMap<String, u32> = IndexMap::new();
    assert_eq!(register_variable(&mut variables, "a".to_string()), 0);
    assert_eq!(register_variable(&mut variables, "b".to_string()), 1);
    assert_eq!(register_variable(&mut variables, "c".to_string()), 2);
    assert_eq!(variables.len(), 3);
    assert_eq!(variables.get_index(1), Some((&"b".to_string(), &1)));
}

#[test]
fn register_variable_gives_a_known_name_its_index() {
    let mut variables: IndexMap<String, u32> = IndexMap::new();
    register_variable(&mut variables, "a".to_string());
    register_variable(&mut variables, "b".to_string());
    assert_eq!(register_variable(&mut variables, "a".to_string()), 0);
    assert_eq!(register_variable(&mut variables, "b".to_string()), 1);
    assert_eq!(variables.len(), 2);
}

#[test]
fn add_clause_encodes_each_token() {
    let mut variables: IndexMap<String, u32> = IndexMap::new();
    variables.insert("x1".to_string(), 0);
    variables.insert("x2".to_string(), 1);
    variables.insert("x3".to_string(), 2);
    let literals = CNFFormula::add_clause(&variables, words(&["x3", "-x1", "x2", "-x3"]));
    assert_eq!(literals.unwrap(), vec![4, 1, 2, 5]);
}

#[test]
fn add_clause_drops_the_end_marker() {
    let mut variables: IndexMap<String, u32> = IndexMap::new();
    variables.insert("1".to_string(), 0);
    variables.insert("2".to_string(), 1);
    let literals = CNFFormula::add_clause(&variables, words(&["1", "-2", "0"]));
    assert_eq!(literals.unwrap(), vec![0, 3]);
    let literals = CNFFormula::add_clause(&variables, words(&["0"]));
    assert_eq!(literals.unwrap(), Vec::<u32>::new());
}

#[test]
fn add_clause_uses_the_index_the_registry_holds() {
    let mut variables: IndexMap<String, u32> = IndexMap::new();
    variables.insert("p".to_string(), 7);
    variables.insert("q".to_string(), 3);
    let literals = CNFFormula::add_clause(&variables, words(&["-q", "p"]));
    assert_eq!(literals.unwrap(), vec![7, 14]);
}

#[test]
fn add_clause_rejects_an_unregistered_name() {
    let mut variables: IndexMap<String, u32> = IndexMap::new();
    variables.insert("x1".to_string(), 0);
    let outcome = CNFFormula::add_clause(&variables, words(&["x1", "0", "-x2", "x3"]));
    assert!(matches!(outcome, Err(FormulaError::UnregisteredVariable { token: 2 })));
    let outcome = CNFFormula::add_clause(&IndexMap::new(), words(&["a"]));
    assert!(matches!(outcome, Err(FormulaError::UnregisteredVariable { token: 0 })));
}

#[test]
fn encode_tokens_of_an_empty_clause() {
    let variables: IndexMap<String, u32> = IndexMap::new();
    assert_eq!(encode_tokens(&variables, &Vec::new()).unwrap(), Vec::<u32>::new());
}

#[test]
fn new_registers_variables_in_first_seen_order() {
    let formula = CNFFormula::new(pile_of(&[&["b", "-a"], &["-c", "a", "b"], &["d"]]));
    assert_eq!(formula.variable_count(), 4);
    assert_eq!(formula.variable_index("b"), Some(0));
    assert_eq!(formula.variable_index("a"), Some(1));
    assert_eq!(formula.variable_index("c"), Some(2));
    assert_eq!(formula.variable_index("d"), Some(3));
    assert_eq!(formula.variable_index("e"), None);
    assert_eq!(formula.clauses(), &vec![vec![0, 3], vec![5, 2, 0], vec![6]]);
}

#[test]
fn new_starts_without_assignments_or_decisions() {
    let formula = CNFFormula::new(pile_of(&[&["x1", "x2"], &["-x1"]]));
    assert!(!formula.is_finished());
    assert_eq!(formula.decision_level(), -1);
    assert!(formula.trail().is_empty());
    assert!(formula.assignments().is_empty());
    assert!(formula.decision_guesses().is_empty());
    assert!(formula.current_level_implications().is_empty());
    assert_eq!(formula.unassigned_variables(), vec![0, 1]);
}

#[test]
fn new_drops_end_markers_and_keeps_repeated_literals() {
    let formula = CNFFormula::new(pile_of(&[&["1", "-2", "0"], &["2", "2", "0"], &["0"]]));
    assert_eq!(formula.variable_count(), 2);
    assert_eq!(formula.clauses(), &vec![vec![0, 3], vec![2, 2], vec![]]);
}

#[test]
fn new_names_a_negated_token_by_what_is_between_its_dashes() {
    let formula = CNFFormula::new(pile_of(&[&["--a-", "a", "-0"]]));
    assert_eq!(formula.variable_count(), 2);
    assert_eq!(formula.variable_index("a"), Some(0));
    assert_eq!(formula.variable_index("0"), Some(1));
    assert_eq!(formula.clauses(), &vec![vec![1, 0, 3]]);
}

#[test]
fn new_of_an_empty_pile() {
    let mut formula = CNFFormula::new(Vec::new());
    assert_eq!(formula.variable_count(), 0);
    assert!(formula.clauses().is_empty());
    assert!(formula.solve());
    assert!(formula.is_finished());
    assert!(formula.is_satisfied());
}

#[test]
fn lit_to_string_writes_name_and_sign() {
    let formula = CNFFormula::new(pile_of(&[&["x1", "-x2"], &["y"]]));
    assert_eq!(formula.lit_to_string(0), "x1");
    assert_eq!(formula.lit_to_string(1), "-x1");
    assert_eq!(formula.lit_to_string(2), "x2");
    assert_eq!(formula.lit_to_string(3), "-x2");
    assert_eq!(formula.lit_to_string(5), "-y");
}

#[test]
fn lit_list_to_strings_writes_each_literal() {
    let formula = CNFFormula::new(pile_of(&[&["x1", "-x2"], &["y"]]));
    assert_eq!(formula.lit_list_to_strings(vec![4, 1, 1, 2]), vec!["y", "-x1", "-x1", "x2"]);
    assert_eq!(formula.lit_list_to_strings(Vec::new()), Vec::<String>::new());
}

#[test]
fn implication_texts_writes_a_record() {
    let formula = CNFFormula::new(pile_of(&[&["a", "b", "c"]]));
    let record = ImplicationInformation {
        literal: 4,
        implied_by_vars: vec![1, 3],
        implied_by_clause: vec![0, 2, 4],
        uniq_implication_point: false,
    };
    let texts = formula.implication_texts(&record);
    assert_eq!(texts.literal, "c");
    assert_eq!(texts.implied_by_vars, vec!["-a", "-b"]);
    assert_eq!(texts.implied_by_clause, vec!["a", "b", "c"]);
}

#[test]
fn try_new_builds_what_new_builds() {
    let formula = CNFFormula::try_new(pile_of(&[&["b", "-a"], &["-c", "a", "0"]])).unwrap();
    assert_eq!(formula.variable_count(), 3);
    assert_eq!(formula.clauses(), &vec![vec![0, 3], vec![5, 2]]);
    assert_eq!(formula.decision_level(), -1);
    assert!(formula.trail().is_empty());
    assert!(!formula.is_finished());
}
