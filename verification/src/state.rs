//! The solver's state as plain mathematical values, and what each step of
//! the search does to it.
//!
//! Decision levels start at -1, the level of what holds before any
//! decision. The logs kept per level are sequences with one entry per
//! level, so that level `l` has its logs at position `l + 1`.

use crate::clause::{
    antecedents, clause_satisfied, count_assigned_here, free_literals, resolve,
};
use crate::literal::{spec_encode, spec_negate, spec_variable};
use vstd::prelude::*;

verus! {

/// The record of one forced assignment.
pub struct Implication {
    /// The literal that was made true.
    pub literal: u32,
    /// The trail literals that falsified the other literals of the clause.
    pub implied_by_vars: Seq<u32>,
    /// The clause that forced the assignment.
    pub implied_by_clause: Seq<u32>,
    /// Whether the record was the only one of its round.
    pub uniq_implication_point: bool,
}

/// Everything the solver knows at one moment.
pub struct State {
    /// Whether the search has ended.
    pub finished: bool,
    /// The clause store: the clauses given at the start, then the learned
    /// ones.
    pub clauses: Seq<Seq<u32>>,
    /// The variable names; a variable's index is its position.
    pub names: Seq<Seq<char>>,
    /// The literals made true, in the order of their assignment.
    pub trail: Seq<u32>,
    /// The current decision level.
    pub level: int,
    /// The decision literals with their levels, oldest first.
    pub guesses: Seq<(u32, i32)>,
    /// The implication records of each level, oldest first.
    pub implications: Seq<Seq<Implication>>,
    /// The literals assigned within each level, oldest first.
    pub assigned: Seq<Seq<u32>>,
}

/// Where the logs of the current level are.
pub open spec fn top(s: State) -> int {
    s.level + 1
}

/// Whether the trail gives `variable` a value.
pub open spec fn variable_assigned(trail: Seq<u32>, variable: u32) -> bool {
    exists|i: int| 0 <= i < trail.len() && spec_variable(#[trigger] trail[i]) == variable
}

/// The variables among the first `count` that the trail gives no value,
/// in increasing order.
pub open spec fn unassigned_below(trail: Seq<u32>, count: nat) -> Seq<u32>
    decreases count,
{
    if count == 0 {
        Seq::empty()
    } else if variable_assigned(trail, (count - 1) as u32) {
        unassigned_below(trail, (count - 1) as nat)
    } else {
        unassigned_below(trail, (count - 1) as nat).push((count - 1) as u32)
    }
}

/// The variables still without a value, in increasing order.
pub open spec fn unassigned_variables(s: State) -> Seq<u32> {
    unassigned_below(s.trail, s.names.len())
}

/// The state after the decision to give `variable` the value `value`: a
/// new level is opened, with the decision as its guess and as its first
/// assignment.
pub open spec fn decide(s: State, variable: u32, value: bool) -> State {
    let literal = spec_encode(variable, !value);
    State {
        level: s.level + 1,
        guesses: s.guesses.push((literal, (s.level + 1) as i32)),
        implications: s.implications.push(Seq::empty()),
        assigned: s.assigned.push(seq![literal]),
        trail: s.trail.push(literal),
        ..s
    }
}

/// The state after a forced assignment was made and recorded at the
/// current level.
pub open spec fn record_implication(s: State, record: Implication) -> State {
    State {
        trail: s.trail.push(record.literal),
        implications: s.implications.update(top(s), s.implications[top(s)].push(record)),
        assigned: s.assigned.update(top(s), s.assigned[top(s)].push(record.literal)),
        ..s
    }
}

/// How far a propagation round has come.
pub struct Round {
    /// The state with the round's assignments so far.
    pub state: State,
    /// How many clauses were found satisfied.
    pub satisfied: nat,
    /// How many assignments were forced.
    pub propagated: nat,
    /// The position of the clause that no assignment can satisfy, once
    /// one was met.
    pub conflict: Option<int>,
}

/// The record of the assignment that `clause` forces under `trail`.
pub open spec fn implication_of(trail: Seq<u32>, clause: Seq<u32>) -> Implication {
    Implication {
        literal: free_literals(trail, clause)[0],
        implied_by_vars: antecedents(trail, clause),
        implied_by_clause: clause,
        uniq_implication_point: false,
    }
}

/// The round after the clause at `index` was looked at. A satisfied clause
/// is counted. A clause that is not satisfied forces its free literal
/// where it has exactly one, and is a conflict where it has none. After a
/// conflict nothing is looked at any more.
pub open spec fn round_clause(before: Round, index: int) -> Round {
    let clause = before.state.clauses[index];
    let trail = before.state.trail;
    if before.conflict is Some {
        before
    } else if clause_satisfied(trail, clause) {
        Round { satisfied: before.satisfied + 1, ..before }
    } else if free_literals(trail, clause).len() == 1 {
        Round {
            state: record_implication(before.state, implication_of(trail, clause)),
            propagated: before.propagated + 1,
            ..before
        }
    } else if free_literals(trail, clause).len() == 0 {
        Round { conflict: Some(index), ..before }
    } else {
        before
    }
}

/// The round after the first `upto` clauses of the store were looked at,
/// in store order.
pub open spec fn round(s: State, upto: int) -> Round
    decreases upto,
{
    if upto <= 0 {
        Round { state: s, satisfied: 0, propagated: 0, conflict: None }
    } else {
        round_clause(round(s, upto - 1), upto - 1)
    }
}

/// What conflict analysis arrives at.
pub struct Analysis {
    /// The clause to learn.
    pub learned: Seq<u32>,
    /// The implication records that were not used.
    pub log: Seq<Implication>,
}

/// Conflict analysis from the working clause `working`: the newest record
/// of `log` is taken off and its clause resolved into the working clause,
/// until exactly one literal of the working clause belongs to the current
/// level or the log is used up.
pub open spec fn analyze(working: Seq<u32>, log: Seq<Implication>, assigned: Seq<u32>) -> Analysis
    decreases log.len(),
{
    if log.len() == 0 {
        Analysis { learned: working, log }
    } else {
        let next = resolve(working, log.last().implied_by_clause);
        if count_assigned_here(next, assigned) == 1 {
            Analysis { learned: next, log: log.drop_last() }
        } else {
            analyze(next, log.drop_last(), assigned)
        }
    }
}

/// The highest level among the guesses whose negation occurs in
/// `learned`, if there is such a guess.
pub open spec fn backjump_level(guesses: Seq<(u32, i32)>, learned: Seq<u32>) -> Option<i32>
    decreases guesses.len(),
{
    if guesses.len() == 0 {
        None
    } else {
        let earlier = backjump_level(guesses.drop_last(), learned);
        let last = guesses.last();
        if learned.contains(spec_negate(last.0)) && (earlier is None || earlier.unwrap()
            <= last.1) {
            Some(last.1)
        } else {
            earlier
        }
    }
}

/// The number of literals in all of `logs`.
pub open spec fn total_len(logs: Seq<Seq<u32>>) -> nat
    decreases logs.len(),
{
    if logs.len() == 0 {
        0
    } else {
        total_len(logs.drop_last()) + logs.last().len()
    }
}

/// The literals of all of `logs`, one log after the other.
pub open spec fn concat(logs: Seq<Seq<u32>>) -> Seq<u32>
    decreases logs.len(),
{
    if logs.len() == 0 {
        Seq::empty()
    } else {
        concat(logs.drop_last()) + logs.last()
    }
}

/// The state after the jump back to level `target`: every level above it
/// loses its guess and its logs, and the trail loses as many of its newest
/// literals as those levels had assigned.
pub open spec fn backjump(s: State, target: int) -> State {
    let removed = total_len(s.assigned.subrange(target + 2, s.assigned.len() as int));
    State {
        level: target,
        guesses: s.guesses.take(target + 1),
        implications: s.implications.take(target + 2),
        assigned: s.assigned.take(target + 2),
        trail: s.trail.take(s.trail.len() - removed),
        ..s
    }
}

/// `log` with its newest record marked as the only one of its round.
pub open spec fn mark_cut_point(log: Seq<Implication>) -> Seq<Implication> {
    if log.len() == 0 {
        log
    } else {
        log.update(log.len() - 1, Implication { uniq_implication_point: true, ..log.last() })
    }
}

/// The state after a round without conflict: the search has ended where
/// every clause was found satisfied, and the record of a round with
/// exactly one forced assignment is marked.
pub open spec fn settle(r: Round) -> State {
    let s = r.state;
    State {
        finished: s.finished || r.satisfied == s.clauses.len(),
        implications: if r.propagated == 1 {
            s.implications.update(top(s), mark_cut_point(s.implications[top(s)]))
        } else {
            s.implications
        },
        ..s
    }
}

/// The state after the conflict at the clause at `at` was analysed. The
/// records that the analysis used are gone from the log of the current
/// level. Without a level to jump back to, the search has ended. Else the
/// learned clause joins the store and the jump is made.
pub open spec fn learn(s: State, at: int) -> State {
    let found = analyze(s.clauses[at], s.implications[top(s)], s.assigned[top(s)]);
    let popped = State { implications: s.implications.update(top(s), found.log), ..s };
    match backjump_level(s.guesses, found.learned) {
        None => State { finished: true, ..popped },
        Some(target) => backjump(
            State { clauses: s.clauses.push(found.learned), ..popped },
            target as int,
        ),
    }
}

/// The state after one solve step: a propagation round over the whole
/// store, and the handling of its conflict where it met one.
pub open spec fn solve_step(s: State) -> State {
    let r = round(s, s.clauses.len() as int);
    match r.conflict {
        None => settle(r),
        Some(at) => learn(r.state, at),
    }
}

/// Every literal's variable is among the first `count`.
pub open spec fn in_range(literals: Seq<u32>, count: nat) -> bool {
    forall|i: int| 0 <= i < literals.len() ==> spec_variable(#[trigger] literals[i]) < count
}

/// No two literals share a variable.
pub open spec fn distinct_variables(literals: Seq<u32>) -> bool {
    forall|i: int, j: int|
        0 <= i < j < literals.len() ==> spec_variable(#[trigger] literals[i]) != spec_variable(
            #[trigger] literals[j],
        )
}

/// The logs and the guesses fit the level.
pub open spec fn levels_fit(s: State) -> bool {
    &&& -1 <= s.level
    &&& s.implications.len() == s.level + 2
    &&& s.assigned.len() == s.level + 2
    &&& s.guesses.len() == s.level + 1
}

/// There is one guess per level, and it is the first assignment of its
/// level.
pub open spec fn guesses_fit(s: State) -> bool {
    forall|i: int|
        0 <= i < s.guesses.len() ==> (#[trigger] s.guesses[i]).1 == i && s.assigned[i + 1].len()
            > 0 && s.guesses[i].0 == s.assigned[i + 1][0]
}

/// Every clause of the store speaks of known variables only.
pub open spec fn clauses_in_range(s: State) -> bool {
    forall|c: int| 0 <= c < s.clauses.len() ==> in_range(#[trigger] s.clauses[c], s.names.len())
}

/// Every recorded clause speaks of known variables only.
pub open spec fn records_in_range(s: State) -> bool {
    forall|f: int, r: int|
        0 <= f < s.implications.len() && 0 <= r < s.implications[f].len() ==> in_range(
            (#[trigger] s.implications[f][r]).implied_by_clause,
            s.names.len(),
        )
}

/// Whether `first` stands on the trail before `second`.
pub open spec fn before(trail: Seq<u32>, first: u32, second: u32) -> bool {
    trail.contains(first) && trail.contains(second) && trail.index_of(first) < trail.index_of(
        second,
    )
}

/// Whether the record at `r` of `log` is founded: its literal stands on
/// the trail among the first `bound` literals, its clause is a clause of
/// the store, every other literal of its clause is falsified by a literal
/// that stands on the trail before its own, and so does the literal of
/// every older record of the log.
pub open spec fn record_founded(
    trail: Seq<u32>,
    clauses: Seq<Seq<u32>>,
    bound: int,
    log: Seq<Implication>,
    r: int,
) -> bool {
    &&& trail.contains(log[r].literal)
    &&& trail.index_of(log[r].literal) < bound
    &&& clauses.contains(log[r].implied_by_clause)
    &&& forall|i: int|
        0 <= i < log[r].implied_by_clause.len() ==> (#[trigger] log[r].implied_by_clause[i])
            == log[r].literal || before(
            trail,
            spec_negate(log[r].implied_by_clause[i]),
            log[r].literal,
        )
    &&& forall|e: int| 0 <= e < r ==> before(trail, (#[trigger] log[e]).literal, log[r].literal)
}

/// Every record of every level is founded, within what the trail held
/// when its level was the current one.
pub open spec fn records_founded(s: State) -> bool {
    forall|f: int, r: int|
        0 <= f < s.implications.len() && 0 <= r < s.implications[f].len()
            ==> #[trigger] record_founded(
            s.trail,
            s.clauses,
            total_len(s.assigned.take(f + 1)) as int,
            s.implications[f],
            r,
        )
}

/// What holds of every state the solver reaches.
pub open spec fn consistent(s: State) -> bool {
    &&& s.names.no_duplicates()
    &&& s.names.len() <= crate::literal::MAX_VARIABLES
    &&& levels_fit(s)
    &&& guesses_fit(s)
    &&& s.trail == concat(s.assigned)
    &&& in_range(s.trail, s.names.len())
    &&& distinct_variables(s.trail)
    &&& clauses_in_range(s)
    &&& records_in_range(s)
    &&& records_founded(s)
}

} // verus!
