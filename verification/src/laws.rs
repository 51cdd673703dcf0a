//! What holds of the search as a whole.

use crate::clause::clause_satisfied;
use crate::invariants::{lemma_learn_consistent, lemma_round_keeps, lemma_solve_consistent};
use crate::literal::{complementary, spec_negate};
use crate::state::{
    analyze, backjump_level, consistent, learn, round, solve_step, top, Round, State,
};
use vstd::prelude::*;

verus! {

/// No two literals of the trail are complementary.
pub open spec fn free_of_complements(trail: Seq<u32>) -> bool {
    forall|i: int, j: int|
        0 <= i < trail.len() && 0 <= j < trail.len() ==> !complementary(
            #[trigger] trail[i],
            #[trigger] trail[j],
        )
}

/// Every clause of the store is satisfied.
pub open spec fn all_satisfied(s: State) -> bool {
    forall|c: int| 0 <= c < s.clauses.len() ==> clause_satisfied(s.trail, #[trigger] s.clauses[c])
}

/// The trail of a consistent state never holds a literal together with
/// its complement.
pub proof fn lemma_consistent_trail(s: State)
    requires
        consistent(s),
    ensures
        free_of_complements(s.trail),
{
    assert forall|i: int, j: int| 0 <= i < s.trail.len() && 0 <= j < s.trail.len()
        implies !complementary(#[trigger] s.trail[i], #[trigger] s.trail[j]) by {
        if i < j {
            assert(crate::literal::spec_variable(s.trail[i]) != crate::literal::spec_variable(
                s.trail[j],
            ));
        } else if j < i {
            assert(crate::literal::spec_variable(s.trail[j]) != crate::literal::spec_variable(
                s.trail[i],
            ));
        }
    }
}

/// After a propagation round, however far it went, and after a whole
/// solve step, the trail holds no literal together with its complement.
pub proof fn lemma_round_keeps_trail_sound(s: State, upto: int)
    requires
        consistent(s),
        upto <= s.clauses.len(),
    ensures
        free_of_complements(round(s, upto).state.trail),
        free_of_complements(solve_step(s).trail),
{
    lemma_round_keeps(s, upto);
    lemma_consistent_trail(round(s, upto).state);
    lemma_solve_consistent(s);
    lemma_consistent_trail(solve_step(s));
}

/// The clause that the handling of the conflict at `at` learns.
pub open spec fn learned_clause(s: State, at: int) -> Seq<u32> {
    analyze(s.clauses[at], s.implications[top(s)], s.assigned[top(s)]).learned
}

/// The handling of a conflict either ends the search, for want of a level
/// to go back to, or goes to a level that is not above the level of the
/// conflict.
pub proof fn lemma_backjump_not_above(s: State, at: int)
    requires
        consistent(s),
        0 <= at < s.clauses.len(),
    ensures
        consistent(learn(s, at)),
        match backjump_level(s.guesses, learned_clause(s, at)) {
            None => learn(s, at).finished && learn(s, at).level == s.level,
            Some(target) => learn(s, at).level == target && 0 <= target <= s.level,
        },
{
    let learned = learned_clause(s, at);
    lemma_learn_consistent(s, at);
    crate::invariants::lemma_backjump_level_is_highest(s.guesses, learned);
    match backjump_level(s.guesses, learned) {
        None => {},
        Some(target) => {
            let i = choose|i: int|
                0 <= i < s.guesses.len() && (#[trigger] s.guesses[i]).1 == target
                    && learned.contains(spec_negate(s.guesses[i].0));
            assert(s.guesses[i].1 == i);
        },
    }
}

/// Unless the learned clause holds the negation of the guess of the very
/// level of the conflict, the handling of a conflict either ends the
/// search, for want of a level to go back to, or goes to a level strictly
/// below the level of the conflict.
pub proof fn lemma_backjump_below(s: State, at: int)
    requires
        consistent(s),
        0 <= at < s.clauses.len(),
        s.level >= 0 ==> !learned_clause(s, at).contains(spec_negate(s.guesses.last().0)),
    ensures
        match backjump_level(s.guesses, learned_clause(s, at)) {
            None => learn(s, at).finished,
            Some(target) => learn(s, at).level == target && target < s.level,
        },
{
    let learned = learned_clause(s, at);
    lemma_backjump_not_above(s, at);
    crate::invariants::lemma_backjump_level_is_highest(s.guesses, learned);
    match backjump_level(s.guesses, learned) {
        None => {},
        Some(target) => {
            let i = choose|i: int|
                0 <= i < s.guesses.len() && (#[trigger] s.guesses[i]).1 == target
                    && learned.contains(spec_negate(s.guesses[i].0));
            assert(s.guesses[i].1 == i);
            if i == s.guesses.len() - 1 {
                assert(s.guesses[i] == s.guesses.last());
            }
        },
    }
}

/// Where the learned clause does hold the negation of the guess of the
/// level of the conflict, the search stays at that level.
pub proof fn lemma_backjump_stays(s: State, at: int)
    requires
        consistent(s),
        0 <= at < s.clauses.len(),
        s.level >= 0,
        learned_clause(s, at).contains(spec_negate(s.guesses.last().0)),
    ensures
        backjump_level(s.guesses, learned_clause(s, at)) == Some(s.level as i32),
        learn(s, at).level == s.level,
{
    let learned = learned_clause(s, at);
    lemma_backjump_not_above(s, at);
    crate::invariants::lemma_backjump_level_is_highest(s.guesses, learned);
    let last = s.guesses.len() - 1;
    assert(s.guesses[last] == s.guesses.last());
    assert(s.guesses[last].1 == last);
}

/// A round over a store whose every clause is satisfied forces nothing
/// and meets no conflict.
pub proof fn lemma_satisfied_round(s: State, upto: int)
    requires
        all_satisfied(s),
        0 <= upto <= s.clauses.len(),
    ensures
        round(s, upto) == (Round {
            state: s,
            satisfied: upto as nat,
            propagated: 0,
            conflict: None,
        }),
    decreases upto,
{
    if upto > 0 {
        lemma_satisfied_round(s, upto - 1);
        assert(clause_satisfied(s.trail, s.clauses[upto - 1]));
    }
}

/// A solve step on a formula whose every clause is satisfied changes
/// nothing but to report that the search has ended.
pub proof fn lemma_solve_satisfied(s: State)
    requires
        all_satisfied(s),
    ensures
        solve_step(s) == (State { finished: true, ..s }),
        solve_step(solve_step(s)) == solve_step(s),
{
    lemma_satisfied_round(s, s.clauses.len() as int);
    let t = State { finished: true, ..s };
    assert(all_satisfied(t)) by {
        assert forall|c: int| 0 <= c < t.clauses.len() implies clause_satisfied(
            t.trail,
            #[trigger] t.clauses[c],
        ) by {
            assert(clause_satisfied(s.trail, s.clauses[c]));
        }
    }
    lemma_satisfied_round(t, t.clauses.len() as int);
}

} // verus!
