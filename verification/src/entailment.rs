//! Why every clause the search adds to the store follows from the clauses
//! that were there.
//!
//! A model gives each variable a truth value; it is the set of the
//! variables it makes true.

use crate::clause::{
    clause_satisfied, free_literals, is_free, is_satisfied, lemma_resolve_members, resolve,
};
use crate::invariants::{lemma_no_free_literals, lemma_round_keeps};
use crate::laws::all_satisfied;
use crate::literal::{
    lemma_decode_encode, lemma_encode_decode, lemma_negate_flips, lemma_negate_involutive,
    spec_encode, spec_is_negated, spec_negate, spec_variable,
};
use crate::state::{
    analyze, backjump_level, before, consistent, distinct_variables, learn, record_founded,
    round, solve_step, top, total_len, Implication, State,
};
use vstd::prelude::*;

verus! {

/// Whether the model makes the literal true.
pub open spec fn literal_holds(model: Set<u32>, literal: u32) -> bool {
    model.contains(spec_variable(literal)) != spec_is_negated(literal)
}

/// Whether the model makes one of the clause's literals true.
pub open spec fn clause_holds(model: Set<u32>, clause: Seq<u32>) -> bool {
    exists|i: int| 0 <= i < clause.len() && literal_holds(model, #[trigger] clause[i])
}

/// Whether the model makes every one of the clauses true.
pub open spec fn all_hold(model: Set<u32>, clauses: Seq<Seq<u32>>) -> bool {
    forall|c: int| 0 <= c < clauses.len() ==> clause_holds(model, #[trigger] clauses[c])
}

/// Whether every model of the premises makes the clause true.
pub open spec fn entails(premises: Seq<Seq<u32>>, clause: Seq<u32>) -> bool {
    forall|model: Set<u32>| #[trigger] all_hold(model, premises) ==> clause_holds(model, clause)
}

/// Whether every clause of the store follows from the premises.
pub open spec fn store_follows(premises: Seq<Seq<u32>>, store: Seq<Seq<u32>>) -> bool {
    forall|c: int| 0 <= c < store.len() ==> entails(premises, #[trigger] store[c])
}

/// Whether some record of `log` from position `from` on made `literal`
/// true.
pub open spec fn implied_since(log: Seq<Implication>, from: int, literal: u32) -> bool {
    exists|j: int| from <= j < log.len() && (#[trigger] log[j]).literal == literal
}

/// Whether each literal of the working clause is falsified by the trail
/// or was made true by a record of `log` from position `from` on.
pub open spec fn accounted(
    trail: Seq<u32>,
    log: Seq<Implication>,
    from: int,
    working: Seq<u32>,
) -> bool {
    forall|k: int|
        0 <= k < working.len() ==> trail.contains(spec_negate(#[trigger] working[k]))
            || implied_since(log, from, working[k])
}

/// A model makes exactly one of a literal and its negation true.
pub proof fn lemma_negation_holds(model: Set<u32>, literal: u32)
    ensures
        literal_holds(model, spec_negate(literal)) == !literal_holds(model, literal),
{
    lemma_negate_flips(literal);
}

/// A clause follows from premises it is one of.
pub proof fn lemma_entails_member(premises: Seq<Seq<u32>>, c: int)
    requires
        0 <= c < premises.len(),
    ensures
        entails(premises, premises[c]),
{
}

/// What follows from a store that follows from premises follows from the
/// premises.
pub proof fn lemma_entails_chain(premises: Seq<Seq<u32>>, store: Seq<Seq<u32>>, clause: Seq<u32>)
    requires
        store_follows(premises, store),
        entails(store, clause),
    ensures
        entails(premises, clause),
{
    assert forall|model: Set<u32>| #[trigger] all_hold(model, premises) implies clause_holds(
        model,
        clause,
    ) by {
        assert forall|c: int| 0 <= c < store.len() implies clause_holds(
            model,
            #[trigger] store[c],
        ) by {
            assert(entails(premises, store[c]));
        }
        assert(all_hold(model, store));
    }
}

/// A store that follows from a store that follows from premises follows
/// from the premises.
pub proof fn lemma_store_follows_chain(
    premises: Seq<Seq<u32>>,
    earlier: Seq<Seq<u32>>,
    later: Seq<Seq<u32>>,
)
    requires
        store_follows(premises, earlier),
        store_follows(earlier, later),
    ensures
        store_follows(premises, later),
{
    assert forall|c: int| 0 <= c < later.len() implies entails(premises, #[trigger] later[c]) by {
        lemma_entails_chain(premises, earlier, later[c]);
    }
}

/// A store follows from itself, and still does with a clause added that
/// follows from it.
pub proof fn lemma_store_follows_grown(store: Seq<Seq<u32>>, clause: Seq<u32>)
    requires
        entails(store, clause),
    ensures
        store_follows(store, store),
        store_follows(store, store.push(clause)),
{
    assert forall|c: int| 0 <= c < store.len() implies entails(store, #[trigger] store[c]) by {
        lemma_entails_member(store, c);
    }
    let grown = store.push(clause);
    assert forall|c: int| 0 <= c < grown.len() implies entails(store, #[trigger] grown[c]) by {
        if c < store.len() {
            assert(grown[c] == store[c]);
            lemma_entails_member(store, c);
        }
    }
}

/// One resolution step is sound where at most one literal of `current`,
/// the pivot, has its negation in `partial`: a model of both clauses is a
/// model of their resolvent.
pub proof fn lemma_resolve_sound(
    partial: Seq<u32>,
    current: Seq<u32>,
    pivot: u32,
    model: Set<u32>,
)
    requires
        clause_holds(model, partial),
        clause_holds(model, current),
        forall|i: int|
            0 <= i < current.len() && partial.contains(spec_negate(#[trigger] current[i]))
                ==> current[i] == pivot,
    ensures
        clause_holds(model, resolve(partial, current)),
{
    let resolvent = resolve(partial, current);
    let a = choose|a: int| 0 <= a < partial.len() && literal_holds(model, #[trigger] partial[a]);
    let b = choose|b: int| 0 <= b < current.len() && literal_holds(model, #[trigger] current[b]);
    let kept = partial[a];
    let added = current[b];
    assert(partial.contains(kept));
    assert(current.contains(added));
    lemma_resolve_members(partial, current, kept);
    lemma_resolve_members(partial, current, added);
    lemma_negate_involutive(kept);
    lemma_negation_holds(model, kept);
    if !current.contains(spec_negate(kept)) {
        let k = choose|k: int| 0 <= k < resolvent.len() && resolvent[k] == kept;
        assert(literal_holds(model, resolvent[k]));
    } else if !partial.contains(spec_negate(added)) {
        let k = choose|k: int| 0 <= k < resolvent.len() && resolvent[k] == added;
        assert(literal_holds(model, resolvent[k]));
    } else {
        let i = choose|i: int| 0 <= i < current.len() && current[i] == spec_negate(kept);
        assert(partial.contains(spec_negate(current[i])));
        assert(current[i] == pivot);
        assert(current[b] == pivot);
    }
}

/// Conflict analysis is sound: where the working clause follows from the
/// store and each of its literals is falsified or was made true by a
/// record that is no longer in the log, the learned clause follows from
/// the store.
pub proof fn lemma_analyze_sound(
    trail: Seq<u32>,
    clauses: Seq<Seq<u32>>,
    bound: int,
    log: Seq<Implication>,
    from: int,
    working: Seq<u32>,
    assigned: Seq<u32>,
)
    requires
        distinct_variables(trail),
        0 <= from <= log.len(),
        forall|r: int|
            0 <= r < log.len() ==> #[trigger] record_founded(trail, clauses, bound, log, r),
        entails(clauses, working),
        accounted(trail, log, from, working),
    ensures
        entails(clauses, analyze(working, log.take(from), assigned).learned),
    decreases from,
{
    let rest = log.take(from);
    if from > 0 {
        let record = log[from - 1];
        let clause = record.implied_by_clause;
        let pivot = record.literal;
        let next = resolve(working, clause);
        assert(rest.last() == record);
        assert(rest.drop_last() =~= log.take(from - 1));
        assert(record_founded(trail, clauses, bound, log, from - 1));
        assert forall|i: int|
            0 <= i < clause.len() && working.contains(
                spec_negate(#[trigger] clause[i]),
            ) implies clause[i] == pivot by {
            let x = clause[i];
            let w = spec_negate(x);
            if x != pivot {
                assert(before(trail, w, pivot));
                let k = choose|k: int| 0 <= k < working.len() && working[k] == w;
                lemma_negate_involutive(x);
                lemma_negate_flips(x);
                if trail.contains(spec_negate(working[k])) {
                    let p = choose|p: int| 0 <= p < trail.len() && trail[p] == w;
                    let q = choose|q: int| 0 <= q < trail.len() && trail[q] == x;
                    if p < q {
                        assert(spec_variable(trail[p]) != spec_variable(trail[q]));
                    } else if q < p {
                        assert(spec_variable(trail[q]) != spec_variable(trail[p]));
                    }
                } else {
                    assert(implied_since(log, from, working[k]));
                    let j = choose|j: int|
                        from <= j < log.len() && (#[trigger] log[j]).literal == w;
                    assert(record_founded(trail, clauses, bound, log, j));
                    assert(before(trail, log[from - 1].literal, log[j].literal));
                }
            }
        }
        assert(entails(clauses, next)) by {
            assert forall|model: Set<u32>| #[trigger] all_hold(model, clauses) implies clause_holds(
                model,
                next,
            ) by {
                let c = choose|c: int| 0 <= c < clauses.len() && clauses[c] == clause;
                assert(clause_holds(model, clauses[c]));
                lemma_resolve_sound(working, clause, pivot, model);
            }
        }
        assert(accounted(trail, log, from - 1, next)) by {
            assert forall|k: int| 0 <= k < next.len() implies trail.contains(
                spec_negate(#[trigger] next[k]),
            ) || implied_since(log, from - 1, next[k]) by {
                let x = next[k];
                assert(next.contains(x));
                lemma_resolve_members(working, clause, x);
                if working.contains(x) {
                    let i = choose|i: int| 0 <= i < working.len() && working[i] == x;
                    if !trail.contains(spec_negate(working[i])) {
                        assert(implied_since(log, from, working[i]));
                        let j = choose|j: int|
                            from <= j < log.len() && (#[trigger] log[j]).literal == x;
                        assert(log[j].literal == x);
                    }
                } else {
                    let i = choose|i: int| 0 <= i < clause.len() && clause[i] == x;
                    if clause[i] == pivot {
                        assert(log[from - 1].literal == x);
                    } else {
                        assert(before(trail, spec_negate(clause[i]), pivot));
                    }
                }
            }
        }
        lemma_analyze_sound(trail, clauses, bound, log, from - 1, next, assigned);
    }
}

/// The handling of a conflict is sound: the store it leaves follows from
/// the store it found, which it begins with.
pub proof fn lemma_learn_sound(s: State, at: int)
    requires
        consistent(s),
        0 <= at < s.clauses.len(),
        !clause_satisfied(s.trail, s.clauses[at]),
        free_literals(s.trail, s.clauses[at]).len() == 0,
    ensures
        store_follows(s.clauses, learn(s, at).clauses),
        s.clauses.len() <= learn(s, at).clauses.len(),
        learn(s, at).clauses.take(s.clauses.len() as int) == s.clauses,
        learn(s, at).clauses.len() > s.clauses.len() ==> learn(s, at).clauses == s.clauses.push(
            analyze(s.clauses[at], s.implications[top(s)], s.assigned[top(s)]).learned,
        ),
{
    let seed = s.clauses[at];
    let log = s.implications[top(s)];
    let bound = total_len(s.assigned.take(top(s) + 1)) as int;
    let learned = analyze(seed, log, s.assigned[top(s)]).learned;
    lemma_no_free_literals(s.trail, seed);
    assert(accounted(s.trail, log, log.len() as int, seed)) by {
        assert forall|k: int| 0 <= k < seed.len() implies s.trail.contains(
            spec_negate(#[trigger] seed[k]),
        ) || implied_since(log, log.len() as int, seed[k]) by {
            assert(!is_free(s.trail, seed[k]));
        }
    }
    assert forall|r: int| 0 <= r < log.len() implies #[trigger] record_founded(
        s.trail,
        s.clauses,
        bound,
        log,
        r,
    ) by {
        assert(record_founded(
            s.trail,
            s.clauses,
            total_len(s.assigned.take(top(s) + 1)) as int,
            s.implications[top(s)],
            r,
        ));
    }
    lemma_entails_member(s.clauses, at);
    assert(log.take(log.len() as int) =~= log);
    lemma_analyze_sound(s.trail, s.clauses, bound, log, log.len() as int, seed, s.assigned[top(s)]);
    lemma_store_follows_grown(s.clauses, learned);
    match backjump_level(s.guesses, learned) {
        None => {
            assert(learn(s, at).clauses.take(s.clauses.len() as int) =~= s.clauses);
        },
        Some(target) => {
            assert(learn(s, at).clauses == s.clauses.push(learned));
            assert(learn(s, at).clauses.take(s.clauses.len() as int) =~= s.clauses);
        },
    }
}

/// A solve step is sound: the store it leaves begins with the store it
/// found, and each clause it added follows from that store.
pub proof fn lemma_solve_sound(s: State)
    requires
        consistent(s),
    ensures
        store_follows(s.clauses, solve_step(s).clauses),
        s.clauses.len() <= solve_step(s).clauses.len(),
        solve_step(s).clauses.take(s.clauses.len() as int) == s.clauses,
{
    let r = round(s, s.clauses.len() as int);
    lemma_round_keeps(s, s.clauses.len() as int);
    match r.conflict {
        None => {
            assert forall|c: int| 0 <= c < s.clauses.len() implies entails(
                s.clauses,
                #[trigger] s.clauses[c],
            ) by {
                lemma_entails_member(s.clauses, c);
            }
            assert(solve_step(s).clauses.take(s.clauses.len() as int) =~= s.clauses);
        },
        Some(at) => {
            lemma_learn_sound(r.state, at);
        },
    }
}

/// Whatever the store followed from before a solve step, it follows from
/// after it: the clauses that a search learns follow from the clauses it
/// was given.
pub proof fn lemma_solve_keeps_entailment(premises: Seq<Seq<u32>>, s: State)
    requires
        consistent(s),
        store_follows(premises, s.clauses),
    ensures
        store_follows(premises, solve_step(s).clauses),
{
    lemma_solve_sound(s);
    lemma_store_follows_chain(premises, s.clauses, solve_step(s).clauses);
}

/// The model that makes true exactly the variables whose plain literal
/// stands on the trail.
pub open spec fn trail_model(trail: Seq<u32>) -> Set<u32> {
    Set::new(|variable: u32| trail.contains(spec_encode(variable, false)))
}

/// A trail that satisfies every clause of the store gives a model of the
/// store: with every variable that the trail makes true set to true, and
/// every other variable set to false, each clause is true.
pub proof fn lemma_trail_is_model(s: State)
    requires
        consistent(s),
        all_satisfied(s),
    ensures
        all_hold(trail_model(s.trail), s.clauses),
{
    let model = trail_model(s.trail);
    assert forall|c: int| 0 <= c < s.clauses.len() implies clause_holds(
        model,
        #[trigger] s.clauses[c],
    ) by {
        let clause = s.clauses[c];
        assert(clause_satisfied(s.trail, clause));
        let i = choose|i: int| 0 <= i < clause.len() && is_satisfied(s.trail, #[trigger] clause[i]);
        let literal = clause[i];
        let variable = spec_variable(literal);
        let plain = spec_encode(variable, false);
        lemma_encode_decode(literal);
        lemma_decode_encode(variable, false);
        if spec_is_negated(literal) {
            if s.trail.contains(plain) {
                let p = choose|p: int| 0 <= p < s.trail.len() && s.trail[p] == plain;
                let q = choose|q: int| 0 <= q < s.trail.len() && s.trail[q] == literal;
                if p < q {
                    assert(spec_variable(s.trail[p]) != spec_variable(s.trail[q]));
                } else if q < p {
                    assert(spec_variable(s.trail[q]) != spec_variable(s.trail[p]));
                }
            }
        }
        assert(literal_holds(model, clause[i]));
    }
}

} // verus!
