//! Why every step of the search keeps the state consistent.

use crate::clause::{
    clause_satisfied, free_literals, is_falsified, is_free, lemma_resolve_members, resolve,
};
use crate::literal::{
    lemma_decode_encode, lemma_negate_flips, spec_encode, spec_negate, spec_variable,
    MAX_VARIABLES,
};
use crate::state::{
    analyze, backjump, backjump_level, before, clauses_in_range, concat, consistent, decide,
    distinct_variables, guesses_fit, implication_of, in_range, learn, record_founded,
    record_implication, records_founded, records_in_range, round, settle, solve_step, top,
    total_len, variable_assigned, Implication, Round, State,
};
use vstd::prelude::*;
use vstd::set_lib::{lemma_int_range, lemma_len_subset, set_int_range};

verus! {

/// Two literals over one variable are equal or each other's negation.
pub proof fn lemma_same_variable(a: u32, b: u32)
    requires
        spec_variable(a) == spec_variable(b),
    ensures
        a == b || a == spec_negate(b),
{
    assert(a >> 1 == b >> 1 ==> (a == b || a == b ^ 1)) by (bit_vector);
}

/// A literal is free exactly when its variable has no value.
pub proof fn lemma_free_unassigned(trail: Seq<u32>, literal: u32)
    ensures
        is_free(trail, literal) <==> !variable_assigned(trail, spec_variable(literal)),
{
    lemma_negate_flips(literal);
    if variable_assigned(trail, spec_variable(literal)) {
        let i = choose|i: int|
            0 <= i < trail.len() && spec_variable(#[trigger] trail[i]) == spec_variable(literal);
        lemma_same_variable(trail[i], literal);
        assert(trail.contains(trail[i]));
    }
    if trail.contains(literal) {
        let i = choose|i: int| 0 <= i < trail.len() && trail[i] == literal;
        assert(spec_variable(trail[i]) == spec_variable(literal));
    }
    if trail.contains(spec_negate(literal)) {
        let i = choose|i: int| 0 <= i < trail.len() && trail[i] == spec_negate(literal);
        assert(spec_variable(trail[i]) == spec_variable(literal));
    }
}

/// Each free literal of a clause is free and occurs in the clause.
pub proof fn lemma_free_literals_members(trail: Seq<u32>, clause: Seq<u32>, k: int)
    requires
        0 <= k < free_literals(trail, clause).len(),
    ensures
        is_free(trail, free_literals(trail, clause)[k]),
        clause.contains(free_literals(trail, clause)[k]),
    decreases clause.len(),
{
    if clause.len() > 0 {
        let front = clause.drop_last();
        let inner = free_literals(trail, front);
        if k < inner.len() {
            lemma_free_literals_members(trail, front, k);
            let i = choose|i: int| 0 <= i < front.len() && front[i] == inner[k];
            assert(clause[i] == inner[k]);
        } else {
            assert(clause[clause.len() - 1] == clause.last());
        }
    }
}

/// A clause without a satisfied and without a free literal has all its
/// literals falsified, and the other way round.
pub proof fn lemma_no_free_literals(trail: Seq<u32>, clause: Seq<u32>)
    ensures
        free_literals(trail, clause).len() == 0 <==> forall|i: int|
            0 <= i < clause.len() ==> !is_free(trail, #[trigger] clause[i]),
    decreases clause.len(),
{
    if clause.len() > 0 {
        let front = clause.drop_last();
        lemma_no_free_literals(trail, front);
        if free_literals(trail, clause).len() == 0 {
            assert forall|i: int| 0 <= i < clause.len() implies !is_free(
                trail,
                #[trigger] clause[i],
            ) by {
                if i < front.len() {
                    assert(front[i] == clause[i]);
                }
            }
        } else if !is_free(trail, clause.last()) {
            let i = choose|i: int| 0 <= i < front.len() && is_free(trail, #[trigger] front[i]);
            assert(front[i] == clause[i]);
        } else {
            assert(clause[clause.len() - 1] == clause.last());
        }
    }
}

/// The literals of all logs are as many as the logs' lengths add up to.
pub proof fn lemma_concat_len(logs: Seq<Seq<u32>>)
    ensures
        concat(logs).len() == total_len(logs),
    decreases logs.len(),
{
    if logs.len() > 0 {
        lemma_concat_len(logs.drop_last());
    }
}

/// The logs can be taken in two parts.
pub proof fn lemma_concat_split(logs: Seq<Seq<u32>>, at: int)
    requires
        0 <= at <= logs.len(),
    ensures
        concat(logs) == concat(logs.take(at)) + concat(logs.subrange(at, logs.len() as int)),
        total_len(logs) == total_len(logs.take(at)) + total_len(
            logs.subrange(at, logs.len() as int),
        ),
    decreases logs.len(),
{
    let tail = logs.subrange(at, logs.len() as int);
    if at == logs.len() {
        assert(logs.take(at) =~= logs);
        assert(concat(logs) =~= concat(logs) + concat(tail));
    } else {
        let front = logs.drop_last();
        lemma_concat_split(front, at);
        assert(front.take(at) =~= logs.take(at));
        assert(tail.drop_last() =~= front.subrange(at, front.len() as int));
        assert(tail.last() == logs.last());
        assert(concat(logs) =~= concat(logs.take(at)) + concat(tail));
    }
}

/// A log on its own.
pub proof fn lemma_concat_single(log: Seq<u32>)
    ensures
        concat(seq![log]) == log,
        total_len(seq![log]) == log.len(),
{
    let logs = seq![log];
    assert(logs.drop_last() =~= Seq::<Seq<u32>>::empty());
    assert(logs.last() == log);
    assert(concat(logs.drop_last()) =~= Seq::<u32>::empty());
    assert(total_len(logs.drop_last()) == 0);
    assert(concat(logs) =~= log);
}

/// Every literal of a log is among the literals of all logs.
pub proof fn lemma_concat_member(logs: Seq<Seq<u32>>, f: int, i: int)
    requires
        0 <= f < logs.len(),
        0 <= i < logs[f].len(),
    ensures
        concat(logs).contains(logs[f][i]),
    decreases logs.len(),
{
    let front = logs.drop_last();
    let all = concat(logs);
    if f == logs.len() - 1 {
        assert(all[concat(front).len() + i] == logs[f][i]);
    } else {
        lemma_concat_member(front, f, i);
        let k = choose|k: int| 0 <= k < concat(front).len() && concat(front)[k] == front[f][i];
        assert(all[k] == logs[f][i]);
    }
}

/// Where every log but the first holds something, there are at least as
/// many literals as logs but one.
pub proof fn lemma_total_len_lower(logs: Seq<Seq<u32>>)
    requires
        logs.len() > 0,
        forall|f: int| 1 <= f < logs.len() ==> (#[trigger] logs[f]).len() > 0,
    ensures
        total_len(logs) >= logs.len() - 1,
    decreases logs.len(),
{
    if logs.len() > 1 {
        let front = logs.drop_last();
        assert forall|f: int| 1 <= f < front.len() implies (#[trigger] front[f]).len() > 0 by {
            assert(front[f] == logs[f]);
        }
        lemma_total_len_lower(front);
        assert(logs.last() == logs[logs.len() - 1]);
    } else {
        assert(logs.drop_last() =~= Seq::<Seq<u32>>::empty());
    }
}

/// A free literal of a clause is among its free literals.
pub proof fn lemma_free_literals_complete(trail: Seq<u32>, clause: Seq<u32>, i: int)
    requires
        0 <= i < clause.len(),
        is_free(trail, clause[i]),
    ensures
        free_literals(trail, clause).contains(clause[i]),
    decreases clause.len(),
{
    let front = clause.drop_last();
    let inner = free_literals(trail, front);
    let all = free_literals(trail, clause);
    if i == clause.len() - 1 {
        assert(all[inner.len() as int] == clause[i]);
    } else {
        lemma_free_literals_complete(trail, front, i);
        let k = choose|k: int| 0 <= k < inner.len() && inner[k] == front[i];
        assert(all[k] == clause[i]);
    }
}

/// In a clause that is not satisfied and has one free literal, every
/// other literal is falsified.
pub proof fn lemma_unit_clause(trail: Seq<u32>, clause: Seq<u32>)
    requires
        !clause_satisfied(trail, clause),
        free_literals(trail, clause).len() == 1,
    ensures
        forall|i: int|
            0 <= i < clause.len() ==> (#[trigger] clause[i]) == free_literals(trail, clause)[0]
                || is_falsified(trail, clause[i]),
{
    let free = free_literals(trail, clause);
    assert forall|i: int| 0 <= i < clause.len() implies (#[trigger] clause[i]) == free[0]
        || is_falsified(trail, clause[i]) by {
        if is_free(trail, clause[i]) {
            lemma_free_literals_complete(trail, clause, i);
            let k = choose|k: int| 0 <= k < free.len() && free[k] == clause[i];
            assert(k == 0);
        }
    }
}

/// On a trail over distinct variables a literal is found where it stands.
pub proof fn lemma_place(trail: Seq<u32>, i: int)
    requires
        distinct_variables(trail),
        0 <= i < trail.len(),
    ensures
        trail.contains(trail[i]),
        trail.index_of(trail[i]) == i,
{
    let found = trail.index_of(trail[i]);
    assert(0 <= found < trail.len() && trail[found] == trail[i]);
    if found < i {
        assert(spec_variable(trail[found]) != spec_variable(trail[i]));
    } else if i < found {
        assert(spec_variable(trail[i]) != spec_variable(trail[found]));
    }
}

/// A literal among the first `bound` of a trail stands at the same place
/// on every trail that begins with the same `bound` literals.
pub proof fn lemma_place_kept(trail: Seq<u32>, other: Seq<u32>, bound: int, literal: u32)
    requires
        distinct_variables(trail),
        distinct_variables(other),
        bound <= trail.len(),
        bound <= other.len(),
        forall|i: int| 0 <= i < bound ==> #[trigger] other[i] == trail[i],
        trail.contains(literal),
        trail.index_of(literal) < bound,
    ensures
        other.contains(literal),
        other.index_of(literal) == trail.index_of(literal),
{
    let i = trail.index_of(literal);
    assert(0 <= i < trail.len() && trail[i] == literal);
    assert(other[i] == trail[i]);
    lemma_place(other, i);
}

/// A founded record stays founded where the trail begins with the same
/// literals as far as the record reaches, the store holds the clauses it
/// held, and the log holds the same records up to this one, however
/// they are marked.
pub proof fn lemma_founded_kept(
    trail: Seq<u32>,
    clauses: Seq<Seq<u32>>,
    bound: int,
    log: Seq<Implication>,
    other_trail: Seq<u32>,
    other_clauses: Seq<Seq<u32>>,
    other_bound: int,
    other_log: Seq<Implication>,
    r: int,
)
    requires
        record_founded(trail, clauses, bound, log, r),
        distinct_variables(trail),
        distinct_variables(other_trail),
        bound <= trail.len(),
        bound <= other_trail.len(),
        bound <= other_bound,
        forall|i: int| 0 <= i < bound ==> #[trigger] other_trail[i] == trail[i],
        forall|c: int| 0 <= c < clauses.len() ==> other_clauses.contains(#[trigger] clauses[c]),
        0 <= r < log.len(),
        r < other_log.len(),
        forall|e: int|
            0 <= e <= r ==> (#[trigger] other_log[e]).literal == log[e].literal
                && other_log[e].implied_by_clause == log[e].implied_by_clause,
    ensures
        record_founded(other_trail, other_clauses, other_bound, other_log, r),
{
    let literal = log[r].literal;
    let clause = log[r].implied_by_clause;
    assert(other_log[r].literal == literal && other_log[r].implied_by_clause == clause);
    lemma_place_kept(trail, other_trail, bound, literal);
    assert(other_clauses.contains(clause)) by {
        let c = choose|c: int| 0 <= c < clauses.len() && clauses[c] == clause;
        assert(other_clauses.contains(clauses[c]));
    }
    assert forall|i: int| 0 <= i < clause.len() implies (#[trigger] clause[i]) == literal
        || before(other_trail, spec_negate(clause[i]), literal) by {
        if clause[i] != literal {
            assert(before(trail, spec_negate(clause[i]), literal));
            lemma_place_kept(trail, other_trail, bound, spec_negate(clause[i]));
        }
    }
    assert forall|e: int| 0 <= e < r implies before(
        other_trail,
        (#[trigger] other_log[e]).literal,
        other_log[r].literal,
    ) by {
        assert(other_log[e].literal == log[e].literal);
        assert(before(trail, log[e].literal, literal));
        lemma_place_kept(trail, other_trail, bound, log[e].literal);
    }
}

/// The first logs hold no more literals than more of them do.
pub proof fn lemma_total_len_take(logs: Seq<Seq<u32>>, fewer: int, more: int)
    requires
        0 <= fewer <= more <= logs.len(),
    ensures
        total_len(logs.take(fewer)) <= total_len(logs.take(more)),
        total_len(logs.take(more)) <= total_len(logs),
{
    lemma_concat_split(logs.take(more), fewer);
    assert(logs.take(more).take(fewer) =~= logs.take(fewer));
    lemma_concat_split(logs, more);
}

/// A trail over distinct known variables is no longer than there are
/// variables, and shorter where a variable has no value.
pub proof fn lemma_trail_bounded(trail: Seq<u32>, count: nat)
    requires
        in_range(trail, count),
        distinct_variables(trail),
    ensures
        trail.len() <= count,
        forall|variable: u32|
            variable < count && !variable_assigned(trail, variable) ==> trail.len() < count,
{
    let variables = Seq::new(trail.len(), |i: int| spec_variable(trail[i]) as int);
    assert(variables.no_duplicates()) by {
        assert forall|i: int, j: int|
            0 <= i < variables.len() && 0 <= j < variables.len() && i != j implies variables[i]
            != variables[j] by {
            if i < j {
                assert(spec_variable(trail[i]) != spec_variable(trail[j]));
            } else {
                assert(spec_variable(trail[j]) != spec_variable(trail[i]));
            }
        }
    }
    variables.unique_seq_to_set();
    let all = set_int_range(0, count as int);
    lemma_int_range(0, count as int);
    assert(variables.to_set().subset_of(all)) by {
        assert forall|x: int| variables.to_set().contains(x) implies all.contains(x) by {
            let i = choose|i: int| 0 <= i < variables.len() && variables[i] == x;
            assert(spec_variable(trail[i]) < count);
        }
    }
    lemma_len_subset(variables.to_set(), all);
    assert forall|variable: u32|
        variable < count && !variable_assigned(trail, variable) implies trail.len() < count by {
        let fewer = all.remove(variable as int);
        assert(all.contains(variable as int));
        assert(variables.to_set().subset_of(fewer)) by {
            assert forall|x: int| variables.to_set().contains(x) implies fewer.contains(x) by {
                let i = choose|i: int| 0 <= i < variables.len() && variables[i] == x;
                assert(spec_variable(trail[i]) < count);
                assert(spec_variable(trail[i]) != variable);
            }
        }
        lemma_len_subset(variables.to_set(), fewer);
    }
}

/// There are no more guesses than literals on the trail.
pub proof fn lemma_guesses_within_trail(s: State)
    requires
        consistent(s),
    ensures
        s.guesses.len() <= s.trail.len(),
{
    assert forall|f: int| 1 <= f < s.assigned.len() implies (#[trigger] s.assigned[f]).len()
        > 0 by {
        assert(s.guesses[f - 1].1 == f - 1);
    }
    lemma_total_len_lower(s.assigned);
    lemma_concat_len(s.assigned);
}

/// A decision on a variable without a value keeps the state consistent,
/// and its level fits the level counter.
pub proof fn lemma_decide_consistent(s: State, variable: u32, value: bool)
    requires
        consistent(s),
        variable < s.names.len(),
        !variable_assigned(s.trail, variable),
    ensures
        consistent(decide(s, variable, value)),
        s.level + 1 < MAX_VARIABLES,
        spec_variable(spec_encode(variable, !value)) == variable,
{
    let literal = spec_encode(variable, !value);
    let t = decide(s, variable, value);
    lemma_decode_encode(variable, !value);
    lemma_guesses_within_trail(s);
    lemma_trail_bounded(s.trail, s.names.len());
    assert(guesses_fit(t)) by {
        assert forall|i: int| 0 <= i < t.guesses.len() implies (#[trigger] t.guesses[i]).1 == i
            && t.assigned[i + 1].len() > 0 && t.guesses[i].0 == t.assigned[i + 1][0] by {
            if i < s.guesses.len() {
                assert(t.guesses[i] == s.guesses[i]);
                assert(t.assigned[i + 1] == s.assigned[i + 1]);
            }
        }
    }
    assert(t.trail == concat(t.assigned)) by {
        assert(t.assigned.drop_last() =~= s.assigned);
        assert(t.trail =~= concat(s.assigned) + seq![literal]);
    }
    assert(distinct_variables(t.trail)) by {
        assert forall|i: int, j: int| 0 <= i < j < t.trail.len() implies spec_variable(
            #[trigger] t.trail[i],
        ) != spec_variable(#[trigger] t.trail[j]) by {
            assert(t.trail[i] == s.trail[i]);
            if j < s.trail.len() {
                assert(t.trail[j] == s.trail[j]);
            }
        }
    }
    assert(records_in_range(t)) by {
        assert forall|f: int, r: int|
            0 <= f < t.implications.len() && 0 <= r < t.implications[f].len() implies in_range(
            (#[trigger] t.implications[f][r]).implied_by_clause,
            t.names.len(),
        ) by {
            assert(t.implications[f][r] == s.implications[f][r]);
        }
    }
    assert(records_founded(t)) by {
        lemma_concat_len(s.assigned);
        assert forall|f: int, r: int|
            0 <= f < t.implications.len() && 0 <= r < t.implications[f].len()
            implies #[trigger] record_founded(
            t.trail,
            t.clauses,
            total_len(t.assigned.take(f + 1)) as int,
            t.implications[f],
            r,
        ) by {
            let bound = total_len(s.assigned.take(f + 1)) as int;
            assert(t.assigned.take(f + 1) =~= s.assigned.take(f + 1));
            assert(t.implications[f] == s.implications[f]);
            lemma_total_len_take(s.assigned, f + 1, f + 1);
            assert(record_founded(s.trail, s.clauses, bound, s.implications[f], r));
            assert forall|i: int| 0 <= i < bound implies #[trigger] t.trail[i] == s.trail[i] by {}
            lemma_founded_kept(
                s.trail,
                s.clauses,
                bound,
                s.implications[f],
                t.trail,
                t.clauses,
                bound,
                t.implications[f],
                r,
            );
        }
    }
}

/// The record of a forced assignment keeps the state consistent.
pub proof fn lemma_record_consistent(s: State, record: Implication)
    requires
        consistent(s),
        is_free(s.trail, record.literal),
        spec_variable(record.literal) < s.names.len(),
        in_range(record.implied_by_clause, s.names.len()),
        s.clauses.contains(record.implied_by_clause),
        forall|i: int|
            0 <= i < record.implied_by_clause.len() ==> (#[trigger] record.implied_by_clause[i])
                == record.literal || is_falsified(s.trail, record.implied_by_clause[i]),
    ensures
        consistent(record_implication(s, record)),
{
    let t = record_implication(s, record);
    lemma_free_unassigned(s.trail, record.literal);
    assert(guesses_fit(t)) by {
        assert forall|i: int| 0 <= i < t.guesses.len() implies (#[trigger] t.guesses[i]).1 == i
            && t.assigned[i + 1].len() > 0 && t.guesses[i].0 == t.assigned[i + 1][0] by {
            assert(s.guesses[i].1 == i);
            if i + 1 != top(s) {
                assert(t.assigned[i + 1] == s.assigned[i + 1]);
            }
        }
    }
    assert(t.trail == concat(t.assigned)) by {
        assert(t.assigned.drop_last() =~= s.assigned.drop_last());
        assert(t.trail =~= concat(t.assigned.drop_last()) + t.assigned.last());
    }
    assert(distinct_variables(t.trail)) by {
        assert forall|i: int, j: int| 0 <= i < j < t.trail.len() implies spec_variable(
            #[trigger] t.trail[i],
        ) != spec_variable(#[trigger] t.trail[j]) by {
            assert(t.trail[i] == s.trail[i]);
            if j < s.trail.len() {
                assert(t.trail[j] == s.trail[j]);
            }
        }
    }
    assert(records_in_range(t)) by {
        assert forall|f: int, r: int|
            0 <= f < t.implications.len() && 0 <= r < t.implications[f].len() implies in_range(
            (#[trigger] t.implications[f][r]).implied_by_clause,
            t.names.len(),
        ) by {
            if f != top(s) || r < s.implications[f].len() {
                assert(t.implications[f][r] == s.implications[f][r]);
            }
        }
    }
    assert(records_founded(t)) by {
        lemma_concat_len(s.assigned);
        lemma_concat_len(t.assigned);
        let end = s.trail.len() as int;
        lemma_place(t.trail, end);
        assert forall|f: int, r: int|
            0 <= f < t.implications.len() && 0 <= r < t.implications[f].len()
            implies #[trigger] record_founded(
            t.trail,
            t.clauses,
            total_len(t.assigned.take(f + 1)) as int,
            t.implications[f],
            r,
        ) by {
            let bound = total_len(s.assigned.take(f + 1)) as int;
            let other_bound = total_len(t.assigned.take(f + 1)) as int;
            lemma_total_len_take(s.assigned, f + 1, f + 1);
            if f != top(s) {
                assert(t.assigned.take(f + 1) =~= s.assigned.take(f + 1));
            } else {
                assert(t.assigned.take(f + 1) =~= t.assigned);
                assert(s.assigned.take(f + 1) =~= s.assigned);
            }
            if f != top(s) || r < s.implications[f].len() {
                assert(record_founded(s.trail, s.clauses, bound, s.implications[f], r));
                assert forall|i: int| 0 <= i < bound implies #[trigger] t.trail[i]
                    == s.trail[i] by {}
                assert forall|e: int| 0 <= e <= r implies (#[trigger] t.implications[f][e]).literal
                    == s.implications[f][e].literal && t.implications[f][e].implied_by_clause
                    == s.implications[f][e].implied_by_clause by {}
                lemma_founded_kept(
                    s.trail,
                    s.clauses,
                    bound,
                    s.implications[f],
                    t.trail,
                    t.clauses,
                    other_bound,
                    t.implications[f],
                    r,
                );
            } else {
                let log = t.implications[f];
                assert(log[r] == record);
                assert forall|i: int| 0 <= i < record.implied_by_clause.len() implies (
                #[trigger] record.implied_by_clause[i]) == record.literal || before(
                    t.trail,
                    spec_negate(record.implied_by_clause[i]),
                    record.literal,
                ) by {
                    let x = record.implied_by_clause[i];
                    if x != record.literal {
                        assert(is_falsified(s.trail, x));
                        let k = choose|k: int|
                            0 <= k < s.trail.len() && s.trail[k] == spec_negate(x);
                        assert(t.trail[k] == spec_negate(x));
                        lemma_place(t.trail, k);
                    }
                }
                assert forall|e: int| 0 <= e < r implies before(
                    t.trail,
                    (#[trigger] log[e]).literal,
                    log[r].literal,
                ) by {
                    assert(log[e] == s.implications[f][e]);
                    assert(record_founded(s.trail, s.clauses, bound, s.implications[f], e));
                    let k = s.trail.index_of(log[e].literal);
                    assert(0 <= k < s.trail.len() && s.trail[k] == log[e].literal);
                    assert(t.trail[k] == log[e].literal);
                    lemma_place(t.trail, k);
                }
            }
        }
    }
}

/// What a propagation round leaves as it was, and what it keeps.
pub proof fn lemma_round_keeps(s: State, upto: int)
    requires
        consistent(s),
        upto <= s.clauses.len(),
    ensures
        consistent(round(s, upto).state),
        round(s, upto).state.finished == s.finished,
        round(s, upto).state.clauses == s.clauses,
        round(s, upto).state.names == s.names,
        round(s, upto).state.level == s.level,
        round(s, upto).state.guesses == s.guesses,
        round(s, upto).satisfied + round(s, upto).propagated <= if upto < 0 {
            0
        } else {
            upto
        },
        round(s, upto).state.implications[top(s)].len() == s.implications[top(s)].len() + round(
            s,
            upto,
        ).propagated,
        round(s, upto).conflict matches Some(at) ==> 0 <= at < upto && !clause_satisfied(
            round(s, upto).state.trail,
            s.clauses[at],
        ) && free_literals(round(s, upto).state.trail, s.clauses[at]).len() == 0,
    decreases upto,
{
    if upto > 0 {
        lemma_round_keeps(s, upto - 1);
        let before = round(s, upto - 1);
        let clause = before.state.clauses[upto - 1];
        let trail = before.state.trail;
        if before.conflict is None && !clause_satisfied(trail, clause) && free_literals(
            trail,
            clause,
        ).len() == 1 {
            lemma_free_literals_members(trail, clause, 0);
            lemma_unit_clause(trail, clause);
            let literal = free_literals(trail, clause)[0];
            let i = choose|i: int| 0 <= i < clause.len() && clause[i] == literal;
            assert(in_range(s.clauses[upto - 1], s.names.len()));
            assert(spec_variable(clause[i]) < s.names.len());
            assert(before.state.clauses.contains(clause));
            lemma_record_consistent(before.state, implication_of(trail, clause));
        }
    }
}

/// Once a round has met a conflict it goes no further.
pub proof fn lemma_round_stops(s: State, at: int, upto: int)
    requires
        0 <= at < upto,
        round(s, at + 1).conflict is Some,
    ensures
        round(s, upto) == round(s, at + 1),
    decreases upto,
{
    if upto > at + 1 {
        lemma_round_stops(s, at, upto - 1);
    }
}

/// The resolvent of two clauses over known variables is one.
pub proof fn lemma_resolve_in_range(partial: Seq<u32>, current: Seq<u32>, count: nat)
    requires
        in_range(partial, count),
        in_range(current, count),
    ensures
        in_range(resolve(partial, current), count),
{
    let resolvent = resolve(partial, current);
    assert forall|i: int| 0 <= i < resolvent.len() implies spec_variable(
        #[trigger] resolvent[i],
    ) < count by {
        let literal = resolvent[i];
        assert(resolvent.contains(literal));
        lemma_resolve_members(partial, current, literal);
        if partial.contains(literal) {
            let k = choose|k: int| 0 <= k < partial.len() && partial[k] == literal;
            assert(spec_variable(partial[k]) < count);
        } else {
            let k = choose|k: int| 0 <= k < current.len() && current[k] == literal;
            assert(spec_variable(current[k]) < count);
        }
    }
}

/// Conflict analysis learns a clause over known variables and leaves the
/// older part of the log.
pub proof fn lemma_analyze_keeps(
    working: Seq<u32>,
    log: Seq<Implication>,
    assigned: Seq<u32>,
    count: nat,
)
    requires
        in_range(working, count),
        forall|r: int|
            0 <= r < log.len() ==> in_range((#[trigger] log[r]).implied_by_clause, count),
    ensures
        in_range(analyze(working, log, assigned).learned, count),
        analyze(working, log, assigned).log.len() <= log.len(),
        analyze(working, log, assigned).log == log.take(
            analyze(working, log, assigned).log.len() as int,
        ),
    decreases log.len(),
{
    if log.len() == 0 {
        assert(log.take(0) =~= log);
    } else {
        let next = resolve(working, log.last().implied_by_clause);
        let rest = log.drop_last();
        assert(log.last() == log[log.len() - 1]);
        lemma_resolve_in_range(working, log.last().implied_by_clause, count);
        assert forall|r: int| 0 <= r < rest.len() implies in_range(
            (#[trigger] rest[r]).implied_by_clause,
            count,
        ) by {
            assert(rest[r] == log[r]);
        }
        lemma_analyze_keeps(next, rest, assigned, count);
        let kept = analyze(working, log, assigned).log;
        assert(kept =~= log.take(kept.len() as int)) by {
            assert(rest.take(kept.len() as int) =~= log.take(kept.len() as int));
            assert(rest.take(rest.len() as int) =~= rest);
        }
    }
}

/// The level to jump back to is the level of a guess whose negation was
/// learned, and no such guess has a higher level. There is none exactly
/// when no guess has its negation in the learned clause.
pub proof fn lemma_backjump_level_is_highest(guesses: Seq<(u32, i32)>, learned: Seq<u32>)
    ensures
        match backjump_level(guesses, learned) {
            Some(target) => (exists|i: int|
                0 <= i < guesses.len() && (#[trigger] guesses[i]).1 == target && learned.contains(
                    spec_negate(guesses[i].0),
                )) && (forall|i: int|
                0 <= i < guesses.len() && learned.contains(spec_negate((#[trigger] guesses[i]).0))
                    ==> guesses[i].1 <= target),
            None => forall|i: int|
                0 <= i < guesses.len() ==> !learned.contains(
                    spec_negate((#[trigger] guesses[i]).0),
                ),
        },
    decreases guesses.len(),
{
    if guesses.len() > 0 {
        let front = guesses.drop_last();
        let last = guesses.last();
        lemma_backjump_level_is_highest(front, learned);
        assert(guesses[guesses.len() - 1] == last);
        assert forall|i: int| 0 <= i < front.len() implies front[i] == guesses[i] by {}
        match backjump_level(front, learned) {
            Some(earlier) => {
                let k = choose|k: int|
                    0 <= k < front.len() && (#[trigger] front[k]).1 == earlier && learned.contains(
                        spec_negate(front[k].0),
                    );
                assert(guesses[k] == front[k]);
                assert forall|i: int|
                    0 <= i < guesses.len() && learned.contains(
                        spec_negate((#[trigger] guesses[i]).0),
                    ) implies guesses[i].1 <= backjump_level(guesses, learned).unwrap() by {
                    if i < front.len() {
                        assert(front[i] == guesses[i]);
                    }
                }
            },
            None => {
                assert forall|i: int|
                    0 <= i < guesses.len() && learned.contains(
                        spec_negate((#[trigger] guesses[i]).0),
                    ) implies i == guesses.len() - 1 by {
                    if i < front.len() {
                        assert(front[i] == guesses[i]);
                    }
                }
            },
        }
    }
}

/// A jump back to a level not above the current one keeps the state
/// consistent.
pub proof fn lemma_backjump_consistent(s: State, target: int)
    requires
        consistent(s),
        -1 <= target <= s.level,
    ensures
        consistent(backjump(s, target)),
{
    let t = backjump(s, target);
    let gone = s.assigned.subrange(target + 2, s.assigned.len() as int);
    lemma_concat_split(s.assigned, target + 2);
    lemma_concat_len(gone);
    assert(t.trail =~= concat(t.assigned));
    assert(guesses_fit(t)) by {
        assert forall|i: int| 0 <= i < t.guesses.len() implies (#[trigger] t.guesses[i]).1 == i
            && t.assigned[i + 1].len() > 0 && t.guesses[i].0 == t.assigned[i + 1][0] by {
            assert(t.guesses[i] == s.guesses[i]);
            assert(t.assigned[i + 1] == s.assigned[i + 1]);
        }
    }
    assert(in_range(t.trail, t.names.len())) by {
        assert forall|i: int| 0 <= i < t.trail.len() implies spec_variable(#[trigger] t.trail[i])
            < t.names.len() by {
            assert(t.trail[i] == s.trail[i]);
        }
    }
    assert(distinct_variables(t.trail)) by {
        assert forall|i: int, j: int| 0 <= i < j < t.trail.len() implies spec_variable(
            #[trigger] t.trail[i],
        ) != spec_variable(#[trigger] t.trail[j]) by {
            assert(t.trail[i] == s.trail[i]);
            assert(t.trail[j] == s.trail[j]);
        }
    }
    assert(records_in_range(t)) by {
        assert forall|f: int, r: int|
            0 <= f < t.implications.len() && 0 <= r < t.implications[f].len() implies in_range(
            (#[trigger] t.implications[f][r]).implied_by_clause,
            t.names.len(),
        ) by {
            assert(t.implications[f][r] == s.implications[f][r]);
        }
    }
    assert(records_founded(t)) by {
        lemma_concat_len(s.assigned);
        lemma_concat_len(t.assigned);
        assert forall|f: int, r: int|
            0 <= f < t.implications.len() && 0 <= r < t.implications[f].len()
            implies #[trigger] record_founded(
            t.trail,
            t.clauses,
            total_len(t.assigned.take(f + 1)) as int,
            t.implications[f],
            r,
        ) by {
            let bound = total_len(s.assigned.take(f + 1)) as int;
            assert(t.assigned.take(f + 1) =~= s.assigned.take(f + 1));
            assert(t.implications[f] == s.implications[f]);
            lemma_total_len_take(s.assigned, f + 1, target + 2);
            assert(record_founded(s.trail, s.clauses, bound, s.implications[f], r));
            assert forall|i: int| 0 <= i < bound implies #[trigger] t.trail[i] == s.trail[i] by {}
            lemma_founded_kept(
                s.trail,
                s.clauses,
                bound,
                s.implications[f],
                t.trail,
                t.clauses,
                bound,
                t.implications[f],
                r,
            );
        }
    }
}

/// The end of a round without conflict keeps the state consistent.
pub proof fn lemma_settle_consistent(r: Round)
    requires
        consistent(r.state),
    ensures
        consistent(settle(r)),
{
    let s = r.state;
    let t = settle(r);
    assert(records_in_range(t)) by {
        assert forall|f: int, k: int|
            0 <= f < t.implications.len() && 0 <= k < t.implications[f].len() implies in_range(
            (#[trigger] t.implications[f][k]).implied_by_clause,
            t.names.len(),
        ) by {
            assert(t.implications[f][k].implied_by_clause
                == s.implications[f][k].implied_by_clause);
        }
    }
    assert(records_founded(t)) by {
        lemma_concat_len(s.assigned);
        assert forall|f: int, k: int|
            0 <= f < t.implications.len() && 0 <= k < t.implications[f].len()
            implies #[trigger] record_founded(
            t.trail,
            t.clauses,
            total_len(t.assigned.take(f + 1)) as int,
            t.implications[f],
            k,
        ) by {
            let bound = total_len(s.assigned.take(f + 1)) as int;
            lemma_total_len_take(s.assigned, f + 1, f + 1);
            assert(record_founded(s.trail, s.clauses, bound, s.implications[f], k));
            assert forall|e: int| 0 <= e <= k implies (#[trigger] t.implications[f][e]).literal
                == s.implications[f][e].literal && t.implications[f][e].implied_by_clause
                == s.implications[f][e].implied_by_clause by {}
            lemma_founded_kept(
                s.trail,
                s.clauses,
                bound,
                s.implications[f],
                t.trail,
                t.clauses,
                bound,
                t.implications[f],
                k,
            );
        }
    }
}

/// The state in which conflict analysis has taken its records off the
/// log of the current level and, where `learned` is given, has added it to
/// the store.
pub open spec fn after_analysis(
    s: State,
    log: Seq<Implication>,
    learned: Option<Seq<u32>>,
) -> State {
    State {
        implications: s.implications.update(top(s), log),
        clauses: match learned {
            Some(clause) => s.clauses.push(clause),
            None => s.clauses,
        },
        ..s
    }
}

/// Taking records off the newest log, and adding a clause over known
/// variables to the store, keeps the state consistent.
pub proof fn lemma_after_analysis_consistent(
    s: State,
    log: Seq<Implication>,
    learned: Option<Seq<u32>>,
)
    requires
        consistent(s),
        log.len() <= s.implications[top(s)].len(),
        log == s.implications[top(s)].take(log.len() as int),
        learned matches Some(clause) ==> in_range(clause, s.names.len()),
    ensures
        consistent(after_analysis(s, log, learned)),
{
    let t = after_analysis(s, log, learned);
    assert(records_in_range(t)) by {
        assert forall|f: int, r: int|
            0 <= f < t.implications.len() && 0 <= r < t.implications[f].len() implies in_range(
            (#[trigger] t.implications[f][r]).implied_by_clause,
            t.names.len(),
        ) by {
            assert(t.implications[f][r] == s.implications[f][r]);
        }
    }
    assert(clauses_in_range(t)) by {
        assert forall|c: int| 0 <= c < t.clauses.len() implies in_range(
            #[trigger] t.clauses[c],
            t.names.len(),
        ) by {
            if c < s.clauses.len() {
                assert(t.clauses[c] == s.clauses[c]);
            }
        }
    }
    assert(records_founded(t)) by {
        lemma_concat_len(s.assigned);
        assert forall|c: int| 0 <= c < s.clauses.len() implies t.clauses.contains(
            #[trigger] s.clauses[c],
        ) by {
            assert(t.clauses[c] == s.clauses[c]);
        }
        assert forall|f: int, r: int|
            0 <= f < t.implications.len() && 0 <= r < t.implications[f].len()
            implies #[trigger] record_founded(
            t.trail,
            t.clauses,
            total_len(t.assigned.take(f + 1)) as int,
            t.implications[f],
            r,
        ) by {
            let bound = total_len(s.assigned.take(f + 1)) as int;
            lemma_total_len_take(s.assigned, f + 1, f + 1);
            assert(record_founded(s.trail, s.clauses, bound, s.implications[f], r));
            assert forall|e: int| 0 <= e <= r implies (#[trigger] t.implications[f][e]).literal
                == s.implications[f][e].literal && t.implications[f][e].implied_by_clause
                == s.implications[f][e].implied_by_clause by {
                assert(t.implications[f][e] == s.implications[f][e]);
            }
            lemma_founded_kept(
                s.trail,
                s.clauses,
                bound,
                s.implications[f],
                t.trail,
                t.clauses,
                bound,
                t.implications[f],
                r,
            );
        }
    }
}

/// The handling of a conflict keeps the state consistent, and a level it
/// jumps back to is not above the level of the conflict.
pub proof fn lemma_learn_consistent(s: State, at: int)
    requires
        consistent(s),
        0 <= at < s.clauses.len(),
    ensures
        consistent(learn(s, at)),
        learn(s, at).level <= s.level,
        learn(s, at).finished || learn(s, at).clauses.len() == s.clauses.len() + 1,
{
    let log = s.implications[top(s)];
    let found = analyze(s.clauses[at], log, s.assigned[top(s)]);
    assert(in_range(s.clauses[at], s.names.len()));
    assert forall|r: int| 0 <= r < log.len() implies in_range(
        (#[trigger] log[r]).implied_by_clause,
        s.names.len(),
    ) by {
        assert(log[r] == s.implications[top(s)][r]);
    }
    lemma_analyze_keeps(s.clauses[at], log, s.assigned[top(s)], s.names.len());
    lemma_backjump_level_is_highest(s.guesses, found.learned);
    match backjump_level(s.guesses, found.learned) {
        None => {
            lemma_after_analysis_consistent(s, found.log, None);
            assert(learn(s, at) == State {
                finished: true,
                ..after_analysis(s, found.log, None)
            });
        },
        Some(target) => {
            lemma_after_analysis_consistent(s, found.log, Some(found.learned));
            let i = choose|i: int|
                0 <= i < s.guesses.len() && (#[trigger] s.guesses[i]).1 == target
                    && found.learned.contains(spec_negate(s.guesses[i].0));
            assert(s.guesses[i].1 == i);
            let grown = after_analysis(s, found.log, Some(found.learned));
            assert(learn(s, at) == backjump(grown, target as int));
            lemma_backjump_consistent(grown, target as int);
        },
    }
}

/// A solve step keeps the state consistent.
pub proof fn lemma_solve_consistent(s: State)
    requires
        consistent(s),
    ensures
        consistent(solve_step(s)),
        solve_step(s).names == s.names,
        solve_step(s).level <= s.level,
{
    let r = round(s, s.clauses.len() as int);
    lemma_round_keeps(s, s.clauses.len() as int);
    match r.conflict {
        None => {
            lemma_settle_consistent(r);
        },
        Some(at) => {
            lemma_learn_consistent(r.state, at);
        },
    }
}

} // verus!
