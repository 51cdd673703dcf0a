//! Clauses under a trail of assigned literals, and the resolution step of
//! conflict analysis.
//!
//! A trail is the sequence of literals made true so far. A clause is a
//! sequence of literals in which repeated literals count once each time
//! they occur.

use crate::literal::{negate, spec_negate};
use vstd::prelude::*;

verus! {

/// A literal is satisfied when the trail holds it.
pub open spec fn is_satisfied(trail: Seq<u32>, literal: u32) -> bool {
    trail.contains(literal)
}

/// A literal is falsified when the trail holds its negation.
pub open spec fn is_falsified(trail: Seq<u32>, literal: u32) -> bool {
    trail.contains(spec_negate(literal))
}

/// A literal is free when the trail decides nothing about it.
pub open spec fn is_free(trail: Seq<u32>, literal: u32) -> bool {
    !is_satisfied(trail, literal) && !is_falsified(trail, literal)
}

/// A clause is satisfied when one of its literals is.
pub open spec fn clause_satisfied(trail: Seq<u32>, clause: Seq<u32>) -> bool {
    exists|i: int| 0 <= i < clause.len() && is_satisfied(trail, #[trigger] clause[i])
}

/// The free literals of a clause, in clause order.
pub open spec fn free_literals(trail: Seq<u32>, clause: Seq<u32>) -> Seq<u32>
    decreases clause.len(),
{
    if clause.len() == 0 {
        Seq::empty()
    } else if is_free(trail, clause.last()) {
        free_literals(trail, clause.drop_last()).push(clause.last())
    } else {
        free_literals(trail, clause.drop_last())
    }
}

/// For each falsified literal of a clause, in clause order, the trail
/// literal that falsifies it.
pub open spec fn antecedents(trail: Seq<u32>, clause: Seq<u32>) -> Seq<u32>
    decreases clause.len(),
{
    if clause.len() == 0 {
        Seq::empty()
    } else if is_falsified(trail, clause.last()) {
        antecedents(trail, clause.drop_last()).push(spec_negate(clause.last()))
    } else {
        antecedents(trail, clause.drop_last())
    }
}

/// The literals of `partial`, in order, whose negation does not occur in
/// `current`.
pub open spec fn survivors(partial: Seq<u32>, current: Seq<u32>) -> Seq<u32>
    decreases partial.len(),
{
    if partial.len() == 0 {
        Seq::empty()
    } else if current.contains(spec_negate(partial.last())) {
        survivors(partial.drop_last(), current)
    } else {
        survivors(partial.drop_last(), current).push(partial.last())
    }
}

/// `gathered` extended, in the order of `current`, by each literal of
/// `current` that is not yet there and whose negation does not occur in
/// `partial`.
pub open spec fn absorb(gathered: Seq<u32>, partial: Seq<u32>, current: Seq<u32>) -> Seq<u32>
    decreases current.len(),
{
    if current.len() == 0 {
        gathered
    } else {
        let before = absorb(gathered, partial, current.drop_last());
        if !partial.contains(spec_negate(current.last())) && !before.contains(current.last()) {
            before.push(current.last())
        } else {
            before
        }
    }
}

/// One resolution step: `partial` without the literals that `current`
/// contradicts, followed by what `current` adds.
pub open spec fn resolve(partial: Seq<u32>, current: Seq<u32>) -> Seq<u32> {
    absorb(survivors(partial, current), partial, current)
}

/// Whether the variable of `literal` was assigned within the level whose
/// assignments are `assigned`.
pub open spec fn assigned_here(assigned: Seq<u32>, literal: u32) -> bool {
    assigned.contains(literal) || assigned.contains(spec_negate(literal))
}

/// How many literals of `clause` have their variable assigned within the
/// level whose assignments are `assigned`.
pub open spec fn count_assigned_here(clause: Seq<u32>, assigned: Seq<u32>) -> nat
    decreases clause.len(),
{
    if clause.len() == 0 {
        0
    } else if assigned_here(assigned, clause.last()) {
        count_assigned_here(clause.drop_last(), assigned) + 1
    } else {
        count_assigned_here(clause.drop_last(), assigned)
    }
}

/// Which literals survive.
pub proof fn lemma_survivors_members(partial: Seq<u32>, current: Seq<u32>, literal: u32)
    ensures
        survivors(partial, current).contains(literal) <==> partial.contains(literal)
            && !current.contains(spec_negate(literal)),
    decreases partial.len(),
{
    if partial.len() > 0 {
        let front = partial.drop_last();
        lemma_survivors_members(front, current, literal);
        assert(partial =~= front.push(partial.last()));
        assert(partial.contains(literal) <==> front.contains(literal) || partial.last() == literal)
            by {
            if front.contains(literal) {
                let i = choose|i: int| 0 <= i < front.len() && front[i] == literal;
                assert(partial[i] == literal);
            }
            if partial.last() == literal {
                assert(partial[partial.len() - 1] == literal);
            }
        }
        let kept = survivors(front, current);
        if !current.contains(spec_negate(partial.last())) {
            assert(kept.push(partial.last()).contains(literal) <==> kept.contains(literal)
                || partial.last() == literal) by {
                lemma_push_members(kept, partial.last(), literal);
            }
        }
    }
}

/// What a sequence holds after a push.
pub proof fn lemma_push_members(items: Seq<u32>, added: u32, literal: u32)
    ensures
        items.push(added).contains(literal) <==> items.contains(literal) || added == literal,
{
    let longer = items.push(added);
    if items.contains(literal) {
        let i = choose|i: int| 0 <= i < items.len() && items[i] == literal;
        assert(longer[i] == literal);
    }
    if added == literal {
        assert(longer[items.len() as int] == literal);
    }
}

/// Which literals a sequence holds after absorbing a clause.
pub proof fn lemma_absorb_members(
    gathered: Seq<u32>,
    partial: Seq<u32>,
    current: Seq<u32>,
    literal: u32,
)
    ensures
        absorb(gathered, partial, current).contains(literal) <==> gathered.contains(literal) || (
        current.contains(literal) && !partial.contains(spec_negate(literal))),
    decreases current.len(),
{
    if current.len() > 0 {
        let front = current.drop_last();
        lemma_absorb_members(gathered, partial, front, literal);
        assert(current =~= front.push(current.last()));
        lemma_push_members(front, current.last(), literal);
        let before = absorb(gathered, partial, front);
        lemma_push_members(before, current.last(), literal);
    }
}

/// A literal is in the resolvent exactly when it is in one of the two
/// clauses and the other does not hold its negation.
pub proof fn lemma_resolve_members(partial: Seq<u32>, current: Seq<u32>, literal: u32)
    ensures
        resolve(partial, current).contains(literal) <==> (partial.contains(literal)
            && !current.contains(spec_negate(literal))) || (current.contains(literal)
            && !partial.contains(spec_negate(literal))),
{
    lemma_survivors_members(partial, current, literal);
    lemma_absorb_members(survivors(partial, current), partial, current, literal);
}

/// Whether `literals` holds `literal`.
pub fn contains_literal(literals: &Vec<u32>, literal: u32) -> (found: bool)
    ensures
        found == literals@.contains(literal),
{
    let mut i: usize = 0;
    while i < literals.len()
        invariant
            i <= literals.len(),
            forall|j: int| 0 <= j < i ==> literals@[j] != literal,
        decreases literals.len() - i,
    {
        if literals[i] == literal {
            return true;
        }
        i += 1;
    }
    false
}

/// A copy of a clause.
pub fn copy_literals(literals: &Vec<u32>) -> (copy: Vec<u32>)
    ensures
        copy@ == literals@,
{
    let mut copy: Vec<u32> = Vec::new();
    let mut i: usize = 0;
    while i < literals.len()
        invariant
            i <= literals.len(),
            copy@ == literals@.take(i as int),
        decreases literals.len() - i,
    {
        copy.push(literals[i]);
        assert(literals@.take(i + 1) =~= literals@.take(i as int).push(literals@[i as int]));
        i += 1;
    }
    assert(literals@.take(literals.len() as int) =~= literals@);
    copy
}

/// How a clause stands under a trail.
pub struct ClauseStatus {
    /// Whether one of its literals is satisfied.
    pub satisfied: bool,
    /// Its free literals, in clause order.
    pub free: Vec<u32>,
    /// The trail literals that falsify its falsified literals, in clause
    /// order.
    pub antecedents: Vec<u32>,
}

/// Classifies each literal of `clause` under `trail`.
pub fn classify(trail: &Vec<u32>, clause: &Vec<u32>) -> (status: ClauseStatus)
    ensures
        status.satisfied == clause_satisfied(trail@, clause@),
        status.free@ == free_literals(trail@, clause@),
        status.antecedents@ == antecedents(trail@, clause@),
{
    let mut satisfied = false;
    let mut free: Vec<u32> = Vec::new();
    let mut falsifying: Vec<u32> = Vec::new();
    let mut i: usize = 0;
    while i < clause.len()
        invariant
            i <= clause.len(),
            satisfied == clause_satisfied(trail@, clause@.take(i as int)),
            free@ == free_literals(trail@, clause@.take(i as int)),
            falsifying@ == antecedents(trail@, clause@.take(i as int)),
        decreases clause.len() - i,
    {
        let literal = clause[i];
        let holds = contains_literal(trail, literal);
        let fails = contains_literal(trail, negate(literal));
        proof {
            let seen = clause@.take(i as int);
            let next = clause@.take(i + 1);
            assert(next.drop_last() =~= seen);
            assert(next.last() == literal);
            if clause_satisfied(trail@, seen) {
                let k = choose|k: int| 0 <= k < seen.len() && is_satisfied(trail@, seen[k]);
                assert(is_satisfied(trail@, next[k]));
            }
            if holds {
                assert(is_satisfied(trail@, next[i as int]));
            }
            if clause_satisfied(trail@, next) && !holds {
                let k = choose|k: int| 0 <= k < next.len() && is_satisfied(trail@, next[k]);
                assert(is_satisfied(trail@, seen[k]));
            }
        }
        if holds {
            satisfied = true;
        }
        if fails {
            falsifying.push(negate(literal));
        }
        if !holds && !fails {
            free.push(literal);
        }
        i += 1;
    }
    assert(clause@.take(clause.len() as int) =~= clause@);
    ClauseStatus { satisfied, free, antecedents: falsifying }
}

/// How many literals of `clause` have their variable assigned within the
/// level whose assignments are `assigned`.
pub fn count_assigned(clause: &Vec<u32>, assigned: &Vec<u32>) -> (count: usize)
    ensures
        count == count_assigned_here(clause@, assigned@),
{
    let mut count: usize = 0;
    let mut i: usize = 0;
    while i < clause.len()
        invariant
            i <= clause.len(),
            count <= i,
            count == count_assigned_here(clause@.take(i as int), assigned@),
        decreases clause.len() - i,
    {
        let literal = clause[i];
        assert(clause@.take(i + 1).drop_last() =~= clause@.take(i as int));
        if contains_literal(assigned, literal) || contains_literal(assigned, negate(literal)) {
            count += 1;
        }
        i += 1;
    }
    assert(clause@.take(clause.len() as int) =~= clause@);
    count
}

} // verus!
