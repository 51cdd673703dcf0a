use cdcl_core::formula::CNFFormula;
use cdcl_core::literal::{are_complementary, decode, negate};

fn clause_pile(clauses: &[&[&str]]) -> Vec<Vec<String>> {
    clauses.iter().map(|clause| clause.iter().map(|token| token.to_string()).collect()).collect()
}

fn has_complements(trail: &[u32]) -> bool {
    trail.iter().any(|&a| trail.iter().any(|&b| are_complementary(a, b)))
}

fn holds_under(model: u32, literal: u32) -> bool {
    let (variable, negated) = decode(literal);
    ((model >> variable) & 1 == 1) != negated
}

fn clause_holds_under(model: u32, clause: &[u32]) -> bool {
    clause.iter().any(|&literal| holds_under(model, literal))
}

/// Whether every assignment of the first `variables` variables that
/// satisfies all of `premises` satisfies `clause` too.
fn entailed(premises: &[Vec<u32>], clause: &[u32], variables: u32) -> bool {
    (0..(1u32 << variables)).all(|model| {
        !premises.iter().all(|premise| clause_holds_under(model, premise))
            || clause_holds_under(model, clause)
    })
}

#[test]
fn forced_decision_opens_a_level() {
    let mut formula = CNFFormula::new(clause_pile(&[&["a", "b", "c"]]));
    formula.make_decision_fake(1, true);
    assert_eq!(formula.decision_level(), 0);
    assert_eq!(formula.decision_guesses(), vec![(2, 0)]);
    assert_eq!(formula.trail(), vec![2]);
    assert_eq!(formula.assignments(), vec![("b".to_string(), true)]);
    assert!(formula.current_level_implications().is_empty());
    assert!(formula.is_assigned(1));
    assert!(!formula.is_assigned(0));
    assert_eq!(formula.unassigned_variables(), vec![0, 2]);

    formula.make_decision_fake(2, false);
    assert_eq!(formula.decision_level(), 1);
    assert_eq!(formula.decision_guesses(), vec![(2, 0), (5, 1)]);
    assert_eq!(formula.trail(), vec![2, 5]);
    assert_eq!(
        formula.assignments(),
        vec![("b".to_string(), true), ("c".to_string(), false)]
    );
    assert_eq!(formula.unassigned_variables(), vec![0]);
}

#[test]
fn decide_with_picks_among_the_unassigned() {
    let mut formula = CNFFormula::new(clause_pile(&[&["a", "b", "c", "d"]]));
    formula.make_decision_fake(1, true);
    // The variables without a value are a, c, d; position 1 is c.
    formula.decide_with(1, false);
    assert_eq!(formula.decision_level(), 1);
    assert_eq!(formula.decision_guesses(), vec![(2, 0), (5, 1)]);
    assert_eq!(formula.trail(), vec![2, 5]);
    formula.decide_with(1, true);
    assert_eq!(formula.trail(), vec![2, 5, 6]);
    formula.decide_with(0, true);
    assert_eq!(formula.trail(), vec![2, 5, 6, 0]);
    assert!(formula.unassigned_variables().is_empty());
    assert_eq!(formula.decision_level(), 3);
}

#[test]
fn random_decision_takes_an_unassigned_variable() {
    for _ in 0..50 {
        let mut formula = CNFFormula::new(clause_pile(&[&["a", "b", "c", "d", "e"]]));
        formula.make_decision_fake(3, true);
        let mut seen = vec![3u32];
        for round in 1..5 {
            formula.make_decision();
            assert_eq!(formula.decision_level(), round);
            let trail = formula.trail();
            assert_eq!(trail.len(), round as usize + 1);
            let (variable, _) = decode(trail[round as usize]);
            assert!(variable < 5);
            assert!(!seen.contains(&variable));
            seen.push(variable);
            let guesses = formula.decision_guesses();
            assert_eq!(guesses.len(), round as usize + 1);
            assert_eq!(guesses[round as usize], (trail[round as usize], round));
            assert!(!has_complements(&trail));
        }
        assert!(formula.unassigned_variables().is_empty());
    }
}

#[test]
fn random_decision_draws_both_values_and_every_variable() {
    let mut values = [false, false];
    let mut variables = [false, false, false];
    for _ in 0..400 {
        let mut formula = CNFFormula::new(clause_pile(&[&["a", "b", "c"]]));
        formula.make_decision();
        let (variable, negated) = decode(formula.trail()[0]);
        values[negated as usize] = true;
        variables[variable as usize] = true;
    }
    assert_eq!(values, [true, true]);
    assert_eq!(variables, [true, true, true]);
}

#[test]
fn propagation_round_forces_unit_clauses_in_store_order() {
    let mut formula =
        CNFFormula::new(clause_pile(&[&["-a", "b"], &["-b", "c"], &["c", "d"], &["-d", "e", "f"]]));
    formula.make_decision_fake(0, true);
    let outcome = formula.propagate_round();
    assert_eq!(outcome.conflict, None);
    assert_eq!(outcome.propagated, 2);
    assert_eq!(outcome.satisfied, 1);
    assert_eq!(formula.trail(), vec![0, 2, 4]);
    let log = formula.current_level_implications();
    assert_eq!(log.len(), 2);
    assert_eq!(log[0].literal, 2);
    assert_eq!(log[0].implied_by_vars, vec![0]);
    assert_eq!(log[0].implied_by_clause, vec![1, 2]);
    assert!(!log[0].uniq_implication_point);
    assert_eq!(log[1].literal, 4);
    assert_eq!(log[1].implied_by_vars, vec![2]);
    assert_eq!(log[1].implied_by_clause, vec![3, 4]);
    assert_eq!(
        formula.assignments(),
        vec![("a".to_string(), true), ("b".to_string(), true), ("c".to_string(), true)]
    );
}

#[test]
fn propagation_round_stops_at_the_first_conflict() {
    let mut formula = CNFFormula::new(clause_pile(&[&["-a", "b"], &["-a", "-b"], &["-a", "c"]]));
    formula.make_decision_fake(0, true);
    let outcome = formula.propagate_round();
    assert_eq!(outcome.conflict, Some(1));
    assert_eq!(outcome.propagated, 1);
    assert_eq!(outcome.satisfied, 0);
    // The assignment made before the conflict stays; the third clause was
    // not looked at.
    assert_eq!(formula.trail(), vec![0, 2]);
}

#[test]
fn a_clause_with_a_repeated_free_literal_is_not_unit() {
    let mut formula = CNFFormula::new(clause_pile(&[&["a", "a"]]));
    assert!(!formula.solve());
    assert!(formula.trail().is_empty());
    assert!(!formula.is_finished());
}

#[test]
fn the_empty_clause_is_a_conflict_without_a_way_back() {
    let mut formula = CNFFormula::new(clause_pile(&[&["a"], &["0"]]));
    assert!(formula.solve());
    assert!(formula.is_finished());
    assert!(!formula.is_satisfied());
    assert_eq!(formula.trail(), vec![0]);
    assert_eq!(formula.clauses().len(), 2);
}

#[test]
fn single_propagation_marks_its_record() {
    let mut formula = CNFFormula::new(clause_pile(&[&["-a", "b"], &["c", "d"]]));
    formula.make_decision_fake(0, true);
    assert!(!formula.solve());
    let log = formula.current_level_implications();
    assert_eq!(log.len(), 1);
    assert_eq!(log[0].literal, 2);
    assert!(log[0].uniq_implication_point);
}

#[test]
fn two_propagations_mark_no_record() {
    let mut formula = CNFFormula::new(clause_pile(&[&["-a", "b"], &["-a", "c"], &["d", "e"]]));
    formula.make_decision_fake(0, true);
    assert!(!formula.solve());
    let log = formula.current_level_implications();
    assert_eq!(log.len(), 2);
    assert!(!log[0].uniq_implication_point);
    assert!(!log[1].uniq_implication_point);
}

#[test]
fn trivial_unsat_without_decisions() {
    let mut formula = CNFFormula::new(clause_pile(&[&["x1"], &["-x1"]]));
    let outcome = formula.propagate_round();
    assert_eq!(outcome.conflict, Some(1));
    assert_eq!(outcome.propagated, 1);

    let mut formula = CNFFormula::new(clause_pile(&[&["x1"], &["-x1"]]));
    assert!(formula.decision_guesses().is_empty());
    assert!(formula.solve());
    assert!(formula.is_finished());
    assert!(!formula.is_satisfied());
    assert_eq!(formula.decision_level(), -1);
    assert!(formula.decision_guesses().is_empty());
    assert_eq!(formula.trail(), vec![0]);
    // Nothing was learned.
    assert_eq!(formula.clauses(), &vec![vec![0], vec![1]]);
}

#[test]
fn trivial_sat_with_forced_decisions() {
    let pile = clause_pile(&[&["x1", "x2"], &["-x1", "x2"], &["x1", "-x2"]]);
    let mut formula = CNFFormula::new(pile);
    let mut steps = 0;
    while !formula.is_finished() {
        let free = formula.unassigned_variables();
        if !free.is_empty() {
            formula.make_decision_fake(free[0], true);
        }
        formula.solve();
        assert!(!has_complements(&formula.trail()));
        steps += 1;
        assert!(steps < 10);
    }
    assert!(formula.is_satisfied());
    assert_eq!(
        formula.assignments(),
        vec![("x1".to_string(), true), ("x2".to_string(), true)]
    );
    assert_eq!(formula.clauses().len(), 3);
}

#[test]
fn trivial_sat_deciding_the_second_variable() {
    let pile = clause_pile(&[&["x1", "x2"], &["-x1", "x2"], &["x1", "-x2"]]);
    let mut formula = CNFFormula::new(pile);
    formula.make_decision_fake(1, true);
    assert!(!formula.solve());
    assert_eq!(formula.trail(), vec![2, 0]);
    assert!(formula.solve());
    assert!(formula.is_satisfied());
    assert_eq!(
        formula.assignments(),
        vec![("x2".to_string(), true), ("x1".to_string(), true)]
    );
}

#[test]
fn learning_keeps_the_one_literal_of_the_current_level() {
    let pile = clause_pile(&[&["a", "b", "c"], &["-b", "c"], &["-b", "-c"]]);
    let mut formula = CNFFormula::new(pile);
    formula.make_decision_fake(0, true);
    assert!(!formula.solve());
    assert_eq!(formula.trail(), vec![0]);
    formula.make_decision_fake(1, true);
    assert_eq!(formula.decision_level(), 1);
    assert!(!formula.solve());
    // The conflict at (b' + c') resolves with (b' + c) into (b').
    let learned = formula.clauses()[3].clone();
    assert_eq!(learned, vec![3]);
    let guesses = formula.decision_guesses();
    assert_eq!(guesses, vec![(0, 0), (2, 1)]);
    // The level of the guess whose negation was learned is the level the
    // search is at afterwards.
    let level = guesses.iter().find(|guess| guess.0 == negate(learned[0])).unwrap().1;
    assert_eq!(level, 1);
    assert_eq!(formula.decision_level(), level);
    assert_eq!(formula.trail(), vec![0, 2, 4]);
    assert!(formula.current_level_implications().is_empty());
    assert!(!formula.is_finished());
}

#[test]
fn backjump_discards_the_levels_above_the_target() {
    let pile = clause_pile(&[&["-a", "c"], &["-a", "-c"], &["b", "a"]]);
    let mut formula = CNFFormula::new(pile);
    formula.make_decision_fake(0, true);
    formula.make_decision_fake(2, true);
    assert_eq!(formula.decision_level(), 1);
    assert_eq!(formula.trail(), vec![0, 4]);
    assert!(!formula.solve());
    assert_eq!(formula.clauses().len(), 4);
    assert_eq!(formula.clauses()[3], vec![1]);
    assert_eq!(formula.decision_level(), 0);
    assert_eq!(formula.decision_guesses(), vec![(0, 0)]);
    assert_eq!(formula.trail(), vec![0]);
    assert_eq!(formula.assignments(), vec![("a".to_string(), true)]);
    assert!(formula.current_level_implications().is_empty());
    assert_eq!(formula.unassigned_variables(), vec![1, 2]);
}

#[test]
fn backjump_level_is_below_the_level_of_the_conflict_or_the_search_ends() {
    let pile = clause_pile(&[&["-a", "c"], &["-a", "-c"], &["b", "a"]]);
    let mut formula = CNFFormula::new(pile);
    formula.make_decision_fake(0, true);
    formula.make_decision_fake(2, true);
    let before = formula.decision_level();
    let finished = formula.solve();
    assert!(finished || formula.decision_level() < before);

    let mut formula = CNFFormula::new(clause_pile(&[&["x1"], &["-x1"]]));
    let before = formula.decision_level();
    let finished = formula.solve();
    assert!(finished);
    assert_eq!(formula.decision_level(), before);
}

#[test]
fn solve_on_a_satisfied_formula_changes_nothing() {
    let mut formula = CNFFormula::new(clause_pile(&[&["a", "b"], &["-a", "c"]]));
    formula.make_decision_fake(0, true);
    formula.make_decision_fake(2, true);
    let trail = formula.trail();
    let guesses = formula.decision_guesses();
    assert!(formula.is_satisfied());
    assert!(formula.solve());
    assert!(formula.is_finished());
    assert_eq!(formula.trail(), trail);
    assert_eq!(formula.decision_guesses(), guesses);
    assert_eq!(formula.decision_level(), 1);
    assert_eq!(formula.clauses().len(), 2);
    assert!(formula.current_level_implications().is_empty());
    // Once more: still nothing.
    assert!(formula.solve());
    assert_eq!(formula.trail(), trail);
    assert!(formula.is_satisfied());
}

#[test]
fn trail_never_holds_complements() {
    let piles: Vec<Vec<Vec<String>>> = vec![
        clause_pile(&[&["a", "b"], &["-a", "b"], &["a", "-b"], &["-a", "-b"]]),
        clause_pile(&[&["-a", "b"], &["-b", "c"], &["-c", "-a"], &["a", "d"]]),
        clause_pile(&[&["a"], &["-a", "b"], &["-b", "c"], &["-c"]]),
    ];
    for pile in piles {
        for first in [false, true] {
            let mut formula = CNFFormula::new(pile.clone());
            for _ in 0..6 {
                if formula.is_finished() {
                    break;
                }
                let free = formula.unassigned_variables();
                if !free.is_empty() {
                    formula.make_decision_fake(free[0], first);
                }
                formula.solve();
                assert!(!has_complements(&formula.trail()));
            }
        }
    }
}

#[test]
fn learned_clauses_follow_from_the_given_ones() {
    let piles: Vec<Vec<Vec<String>>> = vec![
        clause_pile(&[&["x1", "x2"], &["-x1", "x2"], &["x1", "-x2"]]),
        clause_pile(&[&["a", "b"], &["-a", "b"], &["a", "-b"], &["-a", "-b"]]),
        clause_pile(&[&["-a", "b"], &["-b", "c"], &["-c", "-a"], &["a", "d"], &["-d", "b"]]),
        clause_pile(&[&["a", "b", "c"], &["-b", "c"], &["-b", "-c"], &["-a", "b"]]),
        clause_pile(&[&["-a", "c"], &["-a", "-c"], &["b", "a"], &["-b", "d"], &["-d", "a"]]),
    ];
    for pile in piles {
        for choice in 0..4u32 {
            let mut formula = CNFFormula::new(pile.clone());
            let given = formula.clauses().clone();
            let variables = formula.variable_count() as u32;
            for step in 0..8u32 {
                if formula.is_finished() {
                    break;
                }
                let free = formula.unassigned_variables();
                if !free.is_empty() {
                    let pick = if choice & 1 == 0 { 0 } else { free.len() - 1 };
                    formula.make_decision_fake(free[pick], (choice >> 1) & 1 == (step & 1));
                }
                formula.solve();
                for learned in &formula.clauses()[given.len()..] {
                    assert!(entailed(&given, learned, variables));
                }
            }
        }
    }
}

#[test]
fn unsat_is_reported_only_for_formulas_without_a_model() {
    let pile = clause_pile(&[&["a"], &["-a", "b"], &["-b", "c"], &["-c"]]);
    let mut formula = CNFFormula::new(pile);
    assert!(formula.solve());
    assert!(!formula.is_satisfied());
    let given = formula.clauses().clone();
    assert!(entailed(&given, &[], formula.variable_count() as u32));
}
