//! The formula under search: its clause store, its variable registry, the
//! trail of assignments and the logs kept per decision level.

use crate::bindings::{
    entry_literal, entry_literals, lemma_assigned_by_literal, lemma_entry_literal,
    lemma_entry_literals_push, lemma_entry_literals_take, lemma_key_absent, lemma_key_present,
    literals_of, names_known,
};
use crate::clause::{
    absorb, classify, contains_literal, copy_literals, count_assigned, is_falsified, is_free,
    resolve, survivors, ClauseStatus,
};
use crate::entailment::{lemma_solve_sound, store_follows};
use crate::invariants::{
    after_analysis, lemma_after_analysis_consistent, lemma_analyze_keeps,
    lemma_backjump_consistent, lemma_backjump_level_is_highest, lemma_concat_len,
    lemma_concat_member, lemma_concat_single, lemma_concat_split, lemma_decide_consistent,
    lemma_free_literals_members, lemma_free_unassigned, lemma_record_consistent,
    lemma_round_stops, lemma_settle_consistent, lemma_trail_bounded, lemma_unit_clause,
};
use crate::laws::{
    all_satisfied, free_of_complements, lemma_round_keeps_trail_sound, lemma_solve_satisfied,
};
use crate::literal::{
    decode, encode, negate, spec_encode, spec_is_negated, spec_variable, MAX_VARIABLES,
};
use crate::oracle::{random_below, random_polarity};
use crate::ordered_map::{
    assignment_entries, assignments_contains_key, assignments_insert, assignments_len,
    assignments_new, assignments_pop, guess_entries, guesses_at, guesses_insert, guesses_new,
    guesses_pop, has_key, registry_entries, registry_get, registry_key_at, registry_len,
    registry_new,
};
use crate::registry::{
    begins_with, clause_literals, dense, encode_tokens, indexed, keys,
    lemma_clause_literals_in_range, lemma_clause_literals_stable, lemma_dense_indexed,
    lemma_has_key_contains, lemma_register_clause_grows, lemma_register_clause_part,
    lemma_register_pile_grows, register_clause, register_pile, register_variable,
    tokens_known, FormulaError,
};
use crate::state::{
    analyze, backjump, backjump_level, consistent, decide, implication_of, in_range, learn,
    mark_cut_point, record_implication, round, round_clause, settle, solve_step, top,
    total_len, unassigned_below, unassigned_variables, variable_assigned, Analysis,
    Implication, Round, State,
};
use crate::tokens::{name_of_token, names_variable, starts_end_marker, token_name};
use indexmap::IndexMap;
use vstd::prelude::*;
use vstd::string::*;

verus! {

/// The record of one forced assignment.
pub struct ImplicationInformation {
    /// The literal that was made true.
    pub literal: u32,
    /// The trail literals that falsified the other literals of the clause.
    pub implied_by_vars: Vec<u32>,
    /// The clause that forced the assignment.
    pub implied_by_clause: Vec<u32>,
    /// Whether the record was the only one of its round.
    pub uniq_implication_point: bool,
}

impl View for ImplicationInformation {
    type V = Implication;

    open spec fn view(&self) -> Implication {
        Implication {
            literal: self.literal,
            implied_by_vars: self.implied_by_vars@,
            implied_by_clause: self.implied_by_clause@,
            uniq_implication_point: self.uniq_implication_point,
        }
    }
}

/// A formula in conjunctive normal form together with the state of the
/// search for an assignment that satisfies it.
pub struct CNFFormula {
    /// Whether the search has ended.
    m_finished: bool,
    /// The clause store: the clauses given at the start, then the learned
    /// ones.
    m_clauses: Vec<Vec<u32>>,
    /// The registry: each variable name with its index.
    m_variables: IndexMap<String, u32>,
    /// The trail: each assigned name with its value, in the order of
    /// assignment.
    m_assignments: IndexMap<String, bool>,
    /// The current decision level; -1 before any decision.
    m_decision_level: i32,
    /// Each decision literal with its level, oldest first.
    m_decision_guesses: IndexMap<u32, i32>,
    /// The implication records of each level, from level -1 up.
    m_decision_level_implications: Vec<Vec<ImplicationInformation>>,
    /// What was assigned within each level, from level -1 up.
    m_decision_level_assignments: Vec<IndexMap<String, bool>>,
}

/// The clauses of a store.
pub open spec fn clauses_view(clauses: Seq<Vec<u32>>) -> Seq<Seq<u32>> {
    Seq::new(clauses.len(), |i: int| clauses[i]@)
}

/// The records of a log.
pub open spec fn log_view(log: Seq<ImplicationInformation>) -> Seq<Implication> {
    Seq::new(log.len(), |i: int| log[i]@)
}

/// The records of the logs of all levels.
pub open spec fn logs_view(logs: Seq<Vec<ImplicationInformation>>) -> Seq<Seq<Implication>> {
    Seq::new(logs.len(), |i: int| log_view(logs[i]@))
}

/// The literals assigned within each level.
pub open spec fn levels_view(names: Seq<Seq<char>>, levels: Seq<IndexMap<String, bool>>) -> Seq<
    Seq<u32>,
> {
    Seq::new(levels.len(), |i: int| entry_literals(names, assignment_entries(levels[i])))
}

/// The clauses that a pile of token lists stands for.
pub open spec fn pile_clauses(pile: Seq<Seq<Seq<char>>>) -> Seq<Seq<u32>> {
    Seq::new(pile.len(), |i: int| clause_literals(indexed(register_pile(pile)), pile[i]))
}

/// The state in which a search starts: the clauses and variables of the
/// pile, nothing assigned, no decision made.
pub open spec fn initial_state(pile: Seq<Seq<Seq<char>>>) -> State {
    State {
        finished: false,
        clauses: pile_clauses(pile),
        names: register_pile(pile),
        trail: Seq::empty(),
        level: -1,
        guesses: Seq::empty(),
        implications: seq![Seq::empty()],
        assigned: seq![Seq::empty()],
    }
}

/// How a literal is written: the name of its variable, after a `-` where
/// it is negated.
pub open spec fn literal_text(names: Seq<Seq<char>>, literal: u32) -> Seq<char> {
    if spec_is_negated(literal) {
        seq!['-'] + names[spec_variable(literal) as int]
    } else {
        names[spec_variable(literal) as int]
    }
}

impl View for CNFFormula {
    type V = State;

    closed spec fn view(&self) -> State {
        let names = keys(registry_entries(self.m_variables));
        State {
            finished: self.m_finished,
            clauses: clauses_view(self.m_clauses@),
            names,
            trail: entry_literals(names, assignment_entries(self.m_assignments)),
            level: self.m_decision_level as int,
            guesses: guess_entries(self.m_decision_guesses),
            implications: logs_view(self.m_decision_level_implications@),
            assigned: levels_view(names, self.m_decision_level_assignments@),
        }
    }
}

impl CNFFormula {
    /// What holds of every formula that this library hands out: its
    /// registry is dense, its trail and its logs bind registered names
    /// only, and its state is consistent.
    pub closed spec fn wf(&self) -> bool {
        &&& dense(registry_entries(self.m_variables))
        &&& names_known(self@.names, assignment_entries(self.m_assignments))
        &&& forall|f: int|
            0 <= f < self.m_decision_level_assignments.len() ==> names_known(
                self@.names,
                assignment_entries(#[trigger] self.m_decision_level_assignments[f]),
            )
        &&& consistent(self@)
    }

    /// A well-formed formula is in a consistent state.
    pub proof fn lemma_wf_consistent(&self)
        requires
            self.wf(),
        ensures
            consistent(self@),
    {
    }

    /// The literals of a clause of tokens under a registry, or the
    /// position of the first token whose name the registry does not hold.
    pub fn add_clause(variables: &IndexMap<String, u32>, clause: Vec<String>) -> (outcome: Result<
        Vec<u32>,
        FormulaError,
    >)
        ensures
            match outcome {
                Ok(literals) => tokens_known(registry_entries(*variables), clause.deep_view())
                    && literals@ == clause_literals(
                    registry_entries(*variables),
                    clause.deep_view(),
                ),
                Err(FormulaError::UnregisteredVariable { token }) => token < clause.len()
                    && names_variable(clause.deep_view()[token as int]) && !has_key(
                    registry_entries(*variables),
                    token_name(clause.deep_view()[token as int]),
                ) && tokens_known(
                    registry_entries(*variables),
                    clause.deep_view().take(token as int),
                ),
            },
    {
        encode_tokens(variables, &clause)
    }

    /// The formula of a pile of clauses, each a list of tokens. The
    /// variables are registered in the order in which the pile first names
    /// them; nothing is assigned and no decision is made.
    pub fn new(clause_pile: Vec<Vec<String>>) -> (formula: CNFFormula)
        requires
            register_pile(clause_pile.deep_view()).len() <= MAX_VARIABLES,
        ensures
            formula.wf(),
            formula@ == initial_state(clause_pile.deep_view()),
    {
        Self::try_new(clause_pile).unwrap()
    }

    /// The formula of a pile of clauses, as `new` gives it, unless the
    /// pile names more variables than literals can be packed for.
    pub fn try_new(clause_pile: Vec<Vec<String>>) -> (built: Option<CNFFormula>)
        ensures
            match built {
                Some(formula) => register_pile(clause_pile.deep_view()).len() <= MAX_VARIABLES
                    && formula.wf() && formula@ == initial_state(clause_pile.deep_view()),
                None => register_pile(clause_pile.deep_view()).len() > MAX_VARIABLES,
            },
    {
        let ghost pile = clause_pile.deep_view();
        let ghost all_names = register_pile(pile);
        let mut clauses: Vec<Vec<u32>> = Vec::new();
        let mut variables = registry_new();
        let mut i: usize = 0;
        proof {
            assert(pile.take(0) =~= Seq::<Seq<Seq<char>>>::empty());
            assert(keys(registry_entries(variables)) =~= register_pile(pile.take(0)));
            lemma_register_pile_grows(pile, 0);
        }
        while i < clause_pile.len()
            invariant
                i <= clause_pile.len(),
                pile == clause_pile.deep_view(),
                all_names == register_pile(pile),
                all_names.no_duplicates(),
                dense(registry_entries(variables)),
                keys(registry_entries(variables)) == register_pile(pile.take(i as int)),
                clauses.len() == i,
                forall|k: int|
                    0 <= k < i ==> (#[trigger] clauses[k])@ == clause_literals(
                        indexed(all_names),
                        pile[k],
                    ) && in_range(clauses[k]@, all_names.len()),
            decreases clause_pile.len() - i,
        {
            let tokens = &clause_pile[i];
            let ghost before = register_pile(pile.take(i as int));
            let ghost after = register_pile(pile.take(i + 1));
            proof {
                assert(pile.take(i + 1).drop_last() =~= pile.take(i as int));
                assert(pile.take(i + 1).last() == pile[i as int]);
                assert(tokens.deep_view() == pile[i as int]);
                lemma_register_pile_grows(pile, i as int);
                lemma_register_pile_grows(pile, i + 1);
                assert(begins_with(all_names, after));
                assert(pile[i as int].take(0) =~= Seq::<Seq<char>>::empty());
            }
            let mut j: usize = 0;
            while j < tokens.len()
                invariant
                    j <= tokens.len(),
                    i < pile.len(),
                    pile == clause_pile.deep_view(),
                    all_names == register_pile(pile),
                    tokens.deep_view() == pile[i as int],
                    before.no_duplicates(),
                    after == register_clause(before, pile[i as int]),
                    begins_with(all_names, after),
                    dense(registry_entries(variables)),
                    keys(registry_entries(variables)) == register_clause(
                        before,
                        pile[i as int].take(j as int),
                    ),
                decreases tokens.len() - j,
            {
                let token = tokens[j].as_str();
                proof {
                    let part = pile[i as int].take(j + 1);
                    assert(part.drop_last() =~= pile[i as int].take(j as int));
                    assert(part.last() == token@);
                    lemma_register_clause_part(before, pile[i as int], j + 1);
                }
                if !starts_end_marker(token) {
                    let name = name_of_token(token);
                    let full = registry_len(&variables) >= MAX_VARIABLES as usize;
                    proof {
                        lemma_has_key_contains(registry_entries(variables), name@);
                    }
                    if full && registry_get(&variables, name.as_str()).is_none() {
                        proof {
                            let grown = register_clause(before, pile[i as int].take(j + 1));
                            assert(grown == keys(registry_entries(variables)).push(name@));
                            assert(grown.len() <= after.len() <= all_names.len());
                        }
                        return None;
                    }
                    register_variable(&mut variables, name);
                }
                j += 1;
            }
            proof {
                assert(pile[i as int].take(tokens.len() as int) =~= pile[i as int]);
                let registry = registry_entries(variables);
                lemma_register_clause_grows(before, pile[i as int]);
                assert forall|k: int|
                    0 <= k < pile[i as int].len() && names_variable(
                        #[trigger] pile[i as int][k],
                    ) implies has_key(registry, token_name(pile[i as int][k])) by {
                    lemma_has_key_contains(registry, token_name(pile[i as int][k]));
                }
                lemma_dense_indexed(registry);
                lemma_clause_literals_stable(after, all_names, pile[i as int]);
                lemma_clause_literals_in_range(registry, pile[i as int]);
            }
            let literals = encode_tokens(&variables, tokens).unwrap();
            clauses.push(literals);
            i += 1;
        }
        let mut logs: Vec<Vec<ImplicationInformation>> = Vec::new();
        logs.push(Vec::new());
        let mut levels: Vec<IndexMap<String, bool>> = Vec::new();
        levels.push(assignments_new());
        let formula = CNFFormula {
            m_finished: false,
            m_clauses: clauses,
            m_variables: variables,
            m_assignments: assignments_new(),
            m_decision_level: -1,
            m_decision_guesses: guesses_new(),
            m_decision_level_implications: logs,
            m_decision_level_assignments: levels,
        };
        proof {
            assert(pile.take(clause_pile.len() as int) =~= pile);
            let s = formula@;
            let t = initial_state(pile);
            assert(s.clauses =~= t.clauses);
            assert(s.trail =~= t.trail);
            assert(s.implications =~= t.implications) by {
                assert(s.implications[0] =~= t.implications[0]);
            }
            assert(s.assigned =~= t.assigned) by {
                assert(s.assigned[0] =~= t.assigned[0]);
            }
            assert(s == t);
            crate::invariants::lemma_concat_single(Seq::<u32>::empty());
        }
        Some(formula)
    }

    /// How a literal is written: the name of its variable, after a `-`
    /// where it is negated.
    pub fn lit_to_string(&self, literal: u32) -> (text: String)
        requires
            spec_variable(literal) < self@.names.len(),
        ensures
            text@ == literal_text(self@.names, literal),
    {
        let parts = decode(literal);
        let name = registry_key_at(&self.m_variables, parts.0 as usize).unwrap();
        if parts.1 {
            let mut text = String::from_str("-");
            text.append(name.as_str());
            proof {
                reveal_strlit("-");
                assert("-"@ =~= seq!['-']);
            }
            text
        } else {
            name
        }
    }

    /// How each of a list of literals is written.
    pub fn lit_list_to_strings(&self, literals: Vec<u32>) -> (texts: Vec<String>)
        requires
            in_range(literals@, self@.names.len()),
        ensures
            texts.len() == literals.len(),
            forall|i: int|
                0 <= i < literals.len() ==> (#[trigger] texts[i])@ == literal_text(
                    self@.names,
                    literals[i],
                ),
    {
        let mut texts: Vec<String> = Vec::new();
        let mut i: usize = 0;
        while i < literals.len()
            invariant
                i <= literals.len(),
                in_range(literals@, self@.names.len()),
                texts.len() == i,
                forall|k: int|
                    0 <= k < i ==> (#[trigger] texts[k])@ == literal_text(self@.names, literals[k]),
            decreases literals.len() - i,
        {
            texts.push(self.lit_to_string(literals[i]));
            i += 1;
        }
        texts
    }
}

/// Each of the variables without a value is a registered one, and has no
/// value.
pub proof fn lemma_unassigned_members(trail: Seq<u32>, count: nat, k: int)
    requires
        0 <= k < unassigned_below(trail, count).len(),
        count <= MAX_VARIABLES,
    ensures
        unassigned_below(trail, count)[k] < count,
        !variable_assigned(trail, unassigned_below(trail, count)[k]),
    decreases count,
{
    if count > 0 {
        let fewer = unassigned_below(trail, (count - 1) as nat);
        if k < fewer.len() {
            lemma_unassigned_members(trail, (count - 1) as nat, k);
        }
    }
}

/// A registered variable without a value is among the variables without
/// a value.
pub proof fn lemma_unassigned_holds(trail: Seq<u32>, count: nat, variable: u32)
    requires
        variable < count,
        count <= MAX_VARIABLES,
        !variable_assigned(trail, variable),
    ensures
        unassigned_below(trail, count).contains(variable),
    decreases count,
{
    let fewer = unassigned_below(trail, (count - 1) as nat);
    if variable == count - 1 {
        assert(unassigned_below(trail, count)[fewer.len() as int] == variable);
    } else {
        lemma_unassigned_holds(trail, (count - 1) as nat, variable);
        let k = choose|k: int| 0 <= k < fewer.len() && fewer[k] == variable;
        assert(unassigned_below(trail, count)[k] == variable);
    }
}

impl CNFFormula {
    /// One resolution step of conflict analysis: the literals of
    /// `partial_clause` whose negation does not occur in `current_clause`,
    /// followed by the literals of `current_clause` that are not yet there
    /// and whose negation does not occur in `partial_clause`.
    pub fn update_partial_clause(
        partial_clause: &Vec<u32>,
        current_clause: &Vec<u32>,
    ) -> (resolvent: Vec<u32>)
        ensures
            resolvent@ == resolve(partial_clause@, current_clause@),
    {
        let partial = partial_clause;
        let current = current_clause;
        let mut resolvent: Vec<u32> = Vec::new();
        let mut i: usize = 0;
        while i < partial.len()
            invariant
                i <= partial.len(),
                resolvent@ == survivors(partial@.take(i as int), current@),
            decreases partial.len() - i,
        {
            let literal = partial[i];
            assert(partial@.take(i + 1).drop_last() =~= partial@.take(i as int));
            if !contains_literal(current, negate(literal)) {
                resolvent.push(literal);
            }
            i += 1;
        }
        assert(partial@.take(partial.len() as int) =~= partial@);
        let mut j: usize = 0;
        while j < current.len()
            invariant
                j <= current.len(),
                resolvent@ == absorb(
                    survivors(partial@, current@),
                    partial@,
                    current@.take(j as int),
                ),
            decreases current.len() - j,
        {
            let literal = current[j];
            assert(current@.take(j + 1).drop_last() =~= current@.take(j as int));
            if !contains_literal(partial, negate(literal)) && !contains_literal(
                &resolvent,
                literal,
            ) {
                resolvent.push(literal);
            }
            j += 1;
        }
        assert(current@.take(current.len() as int) =~= current@);
        resolvent
    }

    /// How an implication record is written.
    pub fn implication_texts(&self, record: &ImplicationInformation) -> (texts: ImplicationTexts)
        requires
            spec_variable(record.literal) < self@.names.len(),
            in_range(record.implied_by_vars@, self@.names.len()),
            in_range(record.implied_by_clause@, self@.names.len()),
        ensures
            texts.literal@ == literal_text(self@.names, record.literal),
            texts.implied_by_vars.len() == record.implied_by_vars.len(),
            forall|i: int|
                0 <= i < record.implied_by_vars.len() ==> (#[trigger] texts.implied_by_vars[i])@
                    == literal_text(self@.names, record.implied_by_vars[i]),
            texts.implied_by_clause.len() == record.implied_by_clause.len(),
            forall|i: int|
                0 <= i < record.implied_by_clause.len() ==> (
                #[trigger] texts.implied_by_clause[i])@ == literal_text(
                    self@.names,
                    record.implied_by_clause[i],
                ),
    {
        ImplicationTexts {
            literal: self.lit_to_string(record.literal),
            implied_by_vars: self.lit_list_to_strings(copy_literals(&record.implied_by_vars)),
            implied_by_clause: self.lit_list_to_strings(copy_literals(&record.implied_by_clause)),
        }
    }

    /// Whether the trail gives the variable a value.
    pub fn is_assigned(&self, variable: u32) -> (assigned: bool)
        requires
            self.wf(),
            variable < self@.names.len(),
        ensures
            assigned == variable_assigned(self@.trail, variable),
    {
        proof {
            let names = self@.names;
            let entries = assignment_entries(self.m_assignments);
            if variable_assigned(self@.trail, variable) {
                lemma_key_present(names, entries, variable);
            } else {
                lemma_key_absent(names, entries, variable);
            }
        }
        let name = registry_key_at(&self.m_variables, variable as usize).unwrap();
        assignments_contains_key(&self.m_assignments, name.as_str())
    }

    /// The variables without a value, in increasing order.
    pub fn unassigned_variables(&self) -> (free: Vec<u32>)
        requires
            self.wf(),
        ensures
            free@ == unassigned_variables(self@),
            forall|variable: u32|
                free@.contains(variable) <==> variable < self@.names.len() && !variable_assigned(
                    self@.trail,
                    variable,
                ),
    {
        let trail = literals_of(&self.m_variables, &self.m_assignments);
        let count = registry_len(&self.m_variables);
        proof {
            let all = unassigned_variables(self@);
            assert forall|variable: u32|
                all.contains(variable) <==> variable < self@.names.len() && !variable_assigned(
                    self@.trail,
                    variable,
                ) by {
                if all.contains(variable) {
                    let k = choose|k: int| 0 <= k < all.len() && all[k] == variable;
                    lemma_unassigned_members(self@.trail, self@.names.len(), k);
                }
                if variable < self@.names.len() && !variable_assigned(self@.trail, variable) {
                    lemma_unassigned_holds(self@.trail, self@.names.len(), variable);
                }
            }
        }
        let mut free: Vec<u32> = Vec::new();
        let mut variable: u32 = 0;
        while (variable as usize) < count
            invariant
                variable <= count,
                count <= MAX_VARIABLES,
                free@ == unassigned_below(trail@, variable as nat),
            decreases count - variable,
        {
            proof {
                lemma_assigned_by_literal(trail@, variable);
            }
            if !contains_literal(&trail, encode(variable, false)) && !contains_literal(
                &trail,
                encode(variable, true),
            ) {
                free.push(variable);
            }
            variable += 1;
        }
        free
    }

    /// Decides that `decision` has the value `truthval`: opens a level
    /// with this guess as its first assignment.
    pub fn make_decision_fake(&mut self, decision: u32, truthval: bool)
        requires
            old(self).wf(),
            decision < old(self)@.names.len(),
            !variable_assigned(old(self)@.trail, decision),
        ensures
            final(self).wf(),
            final(self)@ == decide(old(self)@, decision, truthval),
    {
        let ghost s = self@;
        let ghost names = s.names;
        let ghost literal = spec_encode(decision, !truthval);
        proof {
            lemma_decide_consistent(s, decision, truthval);
            lemma_key_absent(names, assignment_entries(self.m_assignments), decision);
            lemma_entry_literal(names, decision as int, truthval);
            assert(!has_key(guess_entries(self.m_decision_guesses), literal)) by {
                if has_key(guess_entries(self.m_decision_guesses), literal) {
                    let i = choose|i: int|
                        0 <= i < s.guesses.len() && (#[trigger] s.guesses[i]).0 == literal;
                    assert(s.guesses[i].1 == i);
                    lemma_concat_member(s.assigned, i + 1, 0);
                    let k = choose|k: int| 0 <= k < s.trail.len() && s.trail[k] == literal;
                    assert(spec_variable(s.trail[k]) == decision);
                }
            }
        }
        let name = registry_key_at(&self.m_variables, decision as usize).unwrap();
        let guess = encode(decision, !truthval);
        self.m_decision_level = self.m_decision_level + 1;
        self.m_decision_level_implications.push(Vec::new());
        guesses_insert(&mut self.m_decision_guesses, guess, self.m_decision_level);
        assignments_insert(&mut self.m_assignments, name.clone(), truthval);
        let mut bindings = assignments_new();
        assignments_insert(&mut bindings, name, truthval);
        self.m_decision_level_assignments.push(bindings);
        proof {
            let t = decide(s, decision, truthval);
            let entry = (names[decision as int], truthval);
            lemma_entry_literals_push(names, assignment_entries(old(self).m_assignments), entry);
            lemma_entry_literals_push(names, Seq::empty(), entry);
            assert(entry_literals(names, Seq::empty()) =~= Seq::<u32>::empty());
            assert(assignment_entries(bindings) == Seq::<(Seq<char>, bool)>::empty().push(entry));
            assert(names.contains(names[decision as int]));
            assert(self@.implications =~= t.implications) by {
                assert forall|f: int| 0 <= f < t.implications.len() implies self@.implications[f]
                    == t.implications[f] by {
                    if f == s.implications.len() {
                        assert(self@.implications[f] =~= Seq::<Implication>::empty());
                    } else {
                        assert(self.m_decision_level_implications[f] == old(
                            self,
                        ).m_decision_level_implications[f]);
                    }
                }
            }
            assert(self@.assigned =~= t.assigned) by {
                assert forall|f: int| 0 <= f < t.assigned.len() implies self@.assigned[f]
                    == t.assigned[f] by {
                    if f == s.assigned.len() {
                        assert(self@.assigned[f] =~= seq![literal]);
                    } else {
                        assert(self.m_decision_level_assignments[f] == old(
                            self,
                        ).m_decision_level_assignments[f]);
                    }
                }
            }
            assert(self@.trail =~= t.trail);
            assert(self@.clauses =~= t.clauses);
            assert(self@ == t);
            assert forall|f: int| 0 <= f < self.m_decision_level_assignments.len()
                implies names_known(
                names,
                assignment_entries(#[trigger] self.m_decision_level_assignments[f]),
            ) by {
                if f < s.assigned.len() {
                    assert(self.m_decision_level_assignments[f] == old(
                        self,
                    ).m_decision_level_assignments[f]);
                }
            }
        }
    }

    /// Decides that the variable at position `pick` among the variables
    /// without a value has the value `value`.
    pub fn decide_with(&mut self, pick: usize, value: bool)
        requires
            old(self).wf(),
            pick < unassigned_variables(old(self)@).len(),
        ensures
            final(self).wf(),
            final(self)@ == decide(
                old(self)@,
                unassigned_variables(old(self)@)[pick as int],
                value,
            ),
    {
        let free = self.unassigned_variables();
        proof {
            lemma_unassigned_members(self@.trail, self@.names.len(), pick as int);
        }
        self.make_decision_fake(free[pick], value);
    }

    /// Decides on a variable without a value and on its value, both drawn
    /// at random: each such variable and each value is as likely as any
    /// other.
    pub fn make_decision(&mut self)
        requires
            old(self).wf(),
            unassigned_variables(old(self)@).len() > 0,
        ensures
            final(self).wf(),
            exists|pick: int, value: bool|
                0 <= pick < unassigned_variables(old(self)@).len() && final(self)@
                    == #[trigger] decide(
                    old(self)@,
                    unassigned_variables(old(self)@)[pick],
                    value,
                ),
    {
        let free = self.unassigned_variables();
        let pick = random_below(free.len());
        let value = random_polarity();
        self.decide_with(pick, value);
        proof {
            assert(self@ == decide(
                old(self)@,
                unassigned_variables(old(self)@)[pick as int],
                value,
            ));
        }
    }
}

/// An implication record as text.
pub struct ImplicationTexts {
    /// The literal that was made true.
    pub literal: String,
    /// The trail literals that falsified the other literals of the clause.
    pub implied_by_vars: Vec<String>,
    /// The clause that forced the assignment.
    pub implied_by_clause: Vec<String>,
}

/// What a propagation round came to.
pub struct RoundOutcome {
    /// The position in the store of the clause that no assignment can
    /// satisfy, where the round met one.
    pub conflict: Option<usize>,
    /// How many assignments the round forced.
    pub propagated: usize,
    /// How many clauses the round found satisfied.
    pub satisfied: usize,
}

impl CNFFormula {
    /// Makes the literal of `record` true at the current level and logs
    /// the record there.
    fn record_propagation(&mut self, record: ImplicationInformation)
        requires
            old(self).wf(),
            is_free(old(self)@.trail, record.literal),
            spec_variable(record.literal) < old(self)@.names.len(),
            in_range(record.implied_by_clause@, old(self)@.names.len()),
            old(self)@.clauses.contains(record.implied_by_clause@),
            forall|i: int|
                0 <= i < record.implied_by_clause.len() ==> (#[trigger] record.implied_by_clause[i])
                    == record.literal || is_falsified(
                    old(self)@.trail,
                    record.implied_by_clause[i],
                ),
        ensures
            final(self).wf(),
            final(self)@ == record_implication(old(self)@, record@),
    {
        let ghost s = self@;
        let ghost names = s.names;
        let ghost r = record@;
        let ghost logs0 = self.m_decision_level_implications@;
        let ghost levels0 = self.m_decision_level_assignments@;
        let ghost entries0 = assignment_entries(self.m_assignments);
        let parts = decode(record.literal);
        let ghost entry = (names[parts.0 as int], !parts.1);
        proof {
            lemma_record_consistent(s, r);
            lemma_free_unassigned(s.trail, r.literal);
            lemma_key_absent(names, entries0, parts.0);
            lemma_entry_literal(names, parts.0 as int, !parts.1);
            let here = assignment_entries(levels0[top(s)]);
            assert(!variable_assigned(entry_literals(names, here), parts.0)) by {
                if variable_assigned(entry_literals(names, here), parts.0) {
                    let i = choose|i: int|
                        0 <= i < here.len() && spec_variable(
                            #[trigger] entry_literals(names, here)[i],
                        ) == parts.0;
                    assert(s.assigned[top(s)][i] == entry_literals(names, here)[i]);
                    lemma_concat_member(s.assigned, top(s), i);
                    let k = choose|k: int|
                        0 <= k < s.trail.len() && s.trail[k] == s.assigned[top(s)][i];
                    assert(spec_variable(s.trail[k]) == parts.0);
                }
            }
            lemma_key_absent(names, here, parts.0);
        }
        let name = registry_key_at(&self.m_variables, parts.0 as usize).unwrap();
        let mut log = self.m_decision_level_implications.pop().unwrap();
        log.push(record);
        self.m_decision_level_implications.push(log);
        assignments_insert(&mut self.m_assignments, name.clone(), !parts.1);
        let mut bindings = self.m_decision_level_assignments.pop().unwrap();
        assignments_insert(&mut bindings, name, !parts.1);
        self.m_decision_level_assignments.push(bindings);
        proof {
            let t = record_implication(s, r);
            lemma_entry_literals_push(names, entries0, entry);
            lemma_entry_literals_push(names, assignment_entries(levels0[top(s)]), entry);
            assert(names.contains(names[parts.0 as int]));
            assert(self@.trail =~= t.trail);
            assert(self@.clauses =~= t.clauses);
            assert(self@.implications =~= t.implications) by {
                assert forall|f: int| 0 <= f < t.implications.len() implies self@.implications[f]
                    == t.implications[f] by {
                    if f == top(s) {
                        assert(self@.implications[f] =~= s.implications[f].push(r));
                    } else {
                        assert(self.m_decision_level_implications[f] == logs0[f]);
                    }
                }
            }
            assert(self@.assigned =~= t.assigned) by {
                assert forall|f: int| 0 <= f < t.assigned.len() implies self@.assigned[f]
                    == t.assigned[f] by {
                    if f != top(s) {
                        assert(self.m_decision_level_assignments[f] == levels0[f]);
                    }
                }
            }
            assert(self@ == t);
            assert forall|f: int| 0 <= f < self.m_decision_level_assignments.len()
                implies names_known(
                names,
                assignment_entries(#[trigger] self.m_decision_level_assignments[f]),
            ) by {
                if f != top(s) {
                    assert(self.m_decision_level_assignments[f] == levels0[f]);
                }
            }
        }
    }

    /// One pass over the clause store, in store order. Each clause that is
    /// not satisfied and has exactly one free literal has that literal
    /// made true; the pass ends at the first clause that is not satisfied
    /// and has no free literal.
    pub fn propagate_round(&mut self) -> (outcome: RoundOutcome)
        requires
            old(self).wf(),
        ensures
            final(self).wf(),
            final(self)@ == round(old(self)@, old(self)@.clauses.len() as int).state,
            outcome.satisfied == round(old(self)@, old(self)@.clauses.len() as int).satisfied,
            outcome.propagated == round(old(self)@, old(self)@.clauses.len() as int).propagated,
            match outcome.conflict {
                Some(at) => at < old(self)@.clauses.len() && round(
                    old(self)@,
                    old(self)@.clauses.len() as int,
                ).conflict == Some(at as int),
                None => round(old(self)@, old(self)@.clauses.len() as int).conflict is None,
            },
    {
        let ghost s = self@;
        let mut trail = literals_of(&self.m_variables, &self.m_assignments);
        let mut satisfied: usize = 0;
        let mut propagated: usize = 0;
        let mut conflict: Option<usize> = None;
        let count = self.m_clauses.len();
        let mut i: usize = 0;
        while i < count && conflict.is_none()
            invariant
                i <= count,
                count == s.clauses.len(),
                count == self.m_clauses.len(),
                self.wf(),
                self@ == round(s, i as int).state,
                self@.clauses == s.clauses,
                trail@ == self@.trail,
                satisfied == round(s, i as int).satisfied,
                propagated == round(s, i as int).propagated,
                satisfied <= i,
                propagated <= i,
                match conflict {
                    Some(at) => at + 1 == i && round(s, i as int).conflict == Some(at as int),
                    None => round(s, i as int).conflict is None,
                },
            decreases count - i + (if conflict is None { 1int } else { 0int }),
        {
            let ghost before = round(s, i as int);
            let ghost clause = self.m_clauses[i as int]@;
            proof {
                assert(before.state.clauses[i as int] == clause);
                assert(round(s, i + 1) == round_clause(before, i as int));
            }
            let status = classify(&trail, &self.m_clauses[i]);
            let ClauseStatus { satisfied: holds, free, antecedents: falsifying } = status;
            if holds {
                satisfied += 1;
            } else if free.len() == 1 {
                let literal = free[0];
                let record = ImplicationInformation {
                    literal,
                    implied_by_vars: falsifying,
                    implied_by_clause: copy_literals(&self.m_clauses[i]),
                    uniq_implication_point: false,
                };
                proof {
                    lemma_free_literals_members(trail@, clause, 0);
                    lemma_unit_clause(trail@, clause);
                    assert(self@.clauses[i as int] == clause);
                    let k = choose|k: int| 0 <= k < clause.len() && clause[k] == literal;
                    assert(in_range(self@.clauses[i as int], self@.names.len()));
                    assert(spec_variable(clause[k]) < self@.names.len());
                    assert(record@ == implication_of(trail@, clause));
                }
                self.record_propagation(record);
                trail.push(literal);
                propagated += 1;
            } else if free.len() == 0 {
                conflict = Some(i);
            }
            i += 1;
        }
        proof {
            match conflict {
                Some(at) => {
                    lemma_round_stops(s, at as int, count as int);
                },
                None => {},
            }
        }
        RoundOutcome { conflict, propagated, satisfied }
    }

    /// Conflict analysis from the clause `seed`: takes the newest records
    /// off the log of the current level and resolves their clauses into
    /// the clause to learn.
    fn analyze_conflict(&mut self, seed: Vec<u32>) -> (learned: Vec<u32>)
        requires
            old(self).wf(),
            in_range(seed@, old(self)@.names.len()),
        ensures
            final(self).wf(),
            in_range(learned@, old(self)@.names.len()),
            learned@ == analyze(
                seed@,
                old(self)@.implications[top(old(self)@)],
                old(self)@.assigned[top(old(self)@)],
            ).learned,
            final(self)@ == after_analysis(
                old(self)@,
                analyze(
                    seed@,
                    old(self)@.implications[top(old(self)@)],
                    old(self)@.assigned[top(old(self)@)],
                ).log,
                None,
            ),
    {
        let ghost s = self@;
        let ghost logs0 = self.m_decision_level_implications@;
        let ghost found = analyze(seed@, s.implications[top(s)], s.assigned[top(s)]);
        let last = self.m_decision_level_assignments.len() - 1;
        let here = literals_of(&self.m_variables, &self.m_decision_level_assignments[last]);
        let mut log = self.m_decision_level_implications.pop().unwrap();
        let mut working = seed;
        let mut done = false;
        proof {
            assert(log_view(log@) == s.implications[top(s)]);
            assert(here@ == s.assigned[top(s)]);
        }
        while !done && log.len() > 0
            invariant
                done ==> found == (Analysis { learned: working@, log: log_view(log@) }),
                !done ==> found == analyze(working@, log_view(log@), here@),
            decreases log.len() + (if done { 0int } else { 1int }),
        {
            let ghost records = log_view(log@);
            let record = log.pop().unwrap();
            proof {
                assert(records.last() == record@);
                assert(log_view(log@) =~= records.drop_last());
            }
            working = Self::update_partial_clause(&working, &record.implied_by_clause);
            if count_assigned(&working, &here) == 1 {
                done = true;
            }
        }
        self.m_decision_level_implications.push(log);
        proof {
            let t = after_analysis(s, found.log, None);
            assert(in_range(seed@, s.names.len()));
            assert forall|r: int| 0 <= r < s.implications[top(s)].len() implies in_range(
                (#[trigger] s.implications[top(s)][r]).implied_by_clause,
                s.names.len(),
            ) by {}
            lemma_analyze_keeps(seed@, s.implications[top(s)], s.assigned[top(s)], s.names.len());
            lemma_after_analysis_consistent(s, found.log, None);
            assert(self@.implications =~= t.implications) by {
                assert forall|f: int| 0 <= f < t.implications.len() implies self@.implications[f]
                    == t.implications[f] by {
                    if f != top(s) {
                        assert(self.m_decision_level_implications[f] == logs0[f]);
                    }
                }
            }
            assert(self@ == t);
        }
        working
    }

    /// The highest level among the guesses whose negation occurs in
    /// `learned`, if there is such a guess.
    fn find_backjump_level(&self, learned: &Vec<u32>) -> (target: Option<i32>)
        requires
            self.wf(),
        ensures
            target == backjump_level(self@.guesses, learned@),
    {
        let ghost guesses = guess_entries(self.m_decision_guesses);
        let count = self.m_decision_level_implications.len() - 1;
        let mut target: Option<i32> = None;
        let mut i: usize = 0;
        proof {
            assert(guesses.take(0) =~= Seq::<(u32, i32)>::empty());
        }
        while i < count
            invariant
                i <= count,
                count == guesses.len(),
                guesses == guess_entries(self.m_decision_guesses),
                target == backjump_level(guesses.take(i as int), learned@),
            decreases count - i,
        {
            let guess = guesses_at(&self.m_decision_guesses, i).unwrap();
            proof {
                assert(guesses.take(i + 1).drop_last() =~= guesses.take(i as int));
                assert(guesses.take(i + 1).last() == guess);
            }
            if contains_literal(learned, negate(guess.0)) {
                let higher = match target {
                    Some(level) => level <= guess.1,
                    None => true,
                };
                if higher {
                    target = Some(guess.1);
                }
            }
            i += 1;
        }
        proof {
            assert(guesses.take(count as int) =~= guesses);
        }
        target
    }

    /// Jumps back to level `target`: every level above it loses its guess
    /// and its logs, and the trail loses what those levels had assigned.
    fn jump_back(&mut self, target: i32)
        requires
            old(self).wf(),
            -1 <= target <= old(self)@.level,
        ensures
            final(self).wf(),
            final(self)@ == backjump(old(self)@, target as int),
    {
        let ghost s = self@;
        let ghost names = s.names;
        let ghost variables0 = self.m_variables;
        let ghost clauses0 = self.m_clauses;
        let ghost finished0 = self.m_finished;
        let ghost bindings0 = self.m_assignments;
        let ghost entries0 = assignment_entries(self.m_assignments);
        let ghost logs0 = self.m_decision_level_implications@;
        let ghost levels0 = self.m_decision_level_assignments@;
        let ghost depth = s.assigned.len() as int;
        let mut removed: usize = 0;
        proof {
            assert(s.guesses.take(s.level + 1) =~= s.guesses);
            assert(logs0.take(s.level + 2) =~= logs0);
            assert(levels0.take(s.level + 2) =~= levels0);
            assert(s.assigned.subrange(depth, depth) =~= Seq::<Seq<u32>>::empty());
            lemma_trail_bounded(s.trail, s.names.len());
            lemma_concat_len(s.assigned);
        }
        while self.m_decision_level > target
            invariant
                target <= self.m_decision_level <= s.level,
                -1 <= target,
                consistent(s),
                depth == s.level + 2,
                logs0.len() == depth,
                levels0.len() == depth,
                s.guesses.len() == s.level + 1,
                s.assigned == levels_view(names, levels0),
                s.trail.len() <= MAX_VARIABLES,
                s.trail.len() == total_len(s.assigned),
                self.m_variables == variables0,
                self.m_clauses == clauses0,
                self.m_finished == finished0,
                self.m_assignments == bindings0,
                guess_entries(self.m_decision_guesses) == s.guesses.take(
                    self.m_decision_level + 1,
                ),
                self.m_decision_level_implications@ == logs0.take(self.m_decision_level + 2),
                self.m_decision_level_assignments@ == levels0.take(self.m_decision_level + 2),
                removed == total_len(s.assigned.subrange(self.m_decision_level + 2, depth)),
                removed <= s.trail.len(),
            decreases self.m_decision_level - target,
        {
            let ghost level = self.m_decision_level as int;
            let bindings = self.m_decision_level_assignments.pop().unwrap();
            proof {
                let gone = s.assigned.subrange(level + 1, depth);
                lemma_concat_split(gone, 1);
                assert(gone.take(1) =~= seq![s.assigned[level + 1]]);
                lemma_concat_single(s.assigned[level + 1]);
                assert(gone.subrange(1, gone.len() as int) =~= s.assigned.subrange(
                    level + 2,
                    depth,
                ));
                lemma_concat_split(s.assigned, level + 1);
                assert(bindings == levels0[level + 1]);
                assert(s.assigned[level + 1].len() == assignment_entries(bindings).len());
            }
            removed = removed + assignments_len(&bindings);
            guesses_pop(&mut self.m_decision_guesses);
            self.m_decision_level_implications.pop();
            self.m_decision_level = self.m_decision_level - 1;
            proof {
                assert(s.guesses.take(level + 1).drop_last() =~= s.guesses.take(level));
                assert(logs0.take(level + 2).drop_last() =~= logs0.take(level + 1));
                assert(levels0.take(level + 2).drop_last() =~= levels0.take(level + 1));
            }
        }
        let mut k: usize = 0;
        proof {
            assert(entries0.take(entries0.len() as int) =~= entries0);
        }
        while k < removed
            invariant
                k <= removed <= entries0.len(),
                self.m_variables == variables0,
                self.m_clauses == clauses0,
                self.m_finished == finished0,
                self.m_decision_level == target,
                guess_entries(self.m_decision_guesses) == s.guesses.take(target + 1),
                self.m_decision_level_implications@ == logs0.take(target + 2),
                self.m_decision_level_assignments@ == levels0.take(target + 2),
                assignment_entries(self.m_assignments) == entries0.take(entries0.len() - k),
            decreases removed - k,
        {
            assignments_pop(&mut self.m_assignments);
            proof {
                assert(entries0.take(entries0.len() - k).drop_last() =~= entries0.take(
                    entries0.len() - k - 1,
                ));
            }
            k += 1;
        }
        proof {
            let t = backjump(s, target as int);
            lemma_entry_literals_take(names, entries0, entries0.len() - removed);
            lemma_backjump_consistent(s, target as int);
            assert(self@.trail =~= t.trail);
            assert(self@.clauses =~= t.clauses);
            assert(self@.implications =~= t.implications);
            assert(self@.assigned =~= t.assigned);
            assert(self@ == t);
            assert(names_known(names, assignment_entries(self.m_assignments))) by {
                assert forall|i: int| 0 <= i < assignment_entries(self.m_assignments).len()
                    implies names.contains(
                    (#[trigger] assignment_entries(self.m_assignments)[i]).0,
                ) by {
                    assert(assignment_entries(self.m_assignments)[i] == entries0[i]);
                }
            }
            assert forall|f: int| 0 <= f < self.m_decision_level_assignments.len()
                implies names_known(
                names,
                assignment_entries(#[trigger] self.m_decision_level_assignments[f]),
            ) by {
                assert(self.m_decision_level_assignments[f] == levels0[f]);
            }
        }
    }

    /// Marks the newest record of the current level as the only one of
    /// its round.
    fn mark_newest_record(&mut self)
        requires
            old(self).wf(),
            old(self)@.implications[top(old(self)@)].len() > 0,
        ensures
            final(self).wf(),
            final(self)@ == (State {
                implications: old(self)@.implications.update(
                    top(old(self)@),
                    mark_cut_point(old(self)@.implications[top(old(self)@)]),
                ),
                ..old(self)@
            }),
    {
        let ghost s = self@;
        let ghost logs0 = self.m_decision_level_implications@;
        let mut log = self.m_decision_level_implications.pop().unwrap();
        let mut record = log.pop().unwrap();
        record.uniq_implication_point = true;
        log.push(record);
        self.m_decision_level_implications.push(log);
        proof {
            let marked = s.implications.update(top(s), mark_cut_point(s.implications[top(s)]));
            assert(self@.implications =~= marked) by {
                assert forall|f: int| 0 <= f < marked.len() implies self@.implications[f]
                    == marked[f] by {
                    if f == top(s) {
                        assert(self@.implications[f] =~= marked[f]);
                    } else {
                        assert(self.m_decision_level_implications[f] == logs0[f]);
                    }
                }
            }
            let r = Round {
                state: s,
                satisfied: s.clauses.len() + 1,
                propagated: 1,
                conflict: None,
            };
            lemma_settle_consistent(r);
            assert(settle(r) == State { implications: marked, ..s });
        }
    }

    /// Adds a learned clause to the store.
    fn store_learned(&mut self, learned: Vec<u32>)
        requires
            old(self).wf(),
            in_range(learned@, old(self)@.names.len()),
        ensures
            final(self).wf(),
            final(self)@ == (State { clauses: old(self)@.clauses.push(learned@), ..old(self)@ }),
    {
        let ghost s = self@;
        proof {
            assert(s.implications[top(s)].take(s.implications[top(s)].len() as int)
                =~= s.implications[top(s)]);
            lemma_after_analysis_consistent(s, s.implications[top(s)], Some(learned@));
            assert(after_analysis(s, s.implications[top(s)], Some(learned@)).implications
                =~= s.implications);
        }
        self.m_clauses.push(learned);
        proof {
            assert(self@.clauses =~= s.clauses.push(learned@));
        }
    }

    /// Ends the search.
    fn finish(&mut self)
        requires
            old(self).wf(),
        ensures
            final(self).wf(),
            final(self)@ == (State { finished: true, ..old(self)@ }),
    {
        let ghost s = self@;
        self.m_finished = true;
        proof {
            let r = Round { state: s, satisfied: s.clauses.len(), propagated: 0, conflict: None };
            lemma_settle_consistent(r);
            assert(settle(r) == State { finished: true, ..s });
        }
    }

    /// One solve step: a propagation round over the whole store. A round
    /// that meets a conflict is followed by conflict analysis and, where
    /// there is a level to go back to, by the learning of a clause and the
    /// jump back. Returns whether the search has ended.
    ///
    /// The step never raises the level, leaves no literal on the trail
    /// together with its complement, and adds to the store only what
    /// follows from it. On a formula whose every clause is satisfied it
    /// changes nothing but to report the end of the search.
    pub fn solve(&mut self) -> (finished: bool)
        requires
            old(self).wf(),
        ensures
            final(self).wf(),
            final(self)@ == solve_step(old(self)@),
            finished == final(self)@.finished,
            final(self)@.names == old(self)@.names,
            final(self)@.level <= old(self)@.level,
            free_of_complements(final(self)@.trail),
            store_follows(old(self)@.clauses, final(self)@.clauses),
            final(self)@.clauses.take(old(self)@.clauses.len() as int) == old(self)@.clauses,
            all_satisfied(old(self)@) ==> finished && final(self)@ == (State {
                finished: true,
                ..old(self)@
            }),
    {
        let ghost s = self@;
        let ghost r = round(s, s.clauses.len() as int);
        let outcome = self.propagate_round();
        proof {
            crate::invariants::lemma_round_keeps(s, s.clauses.len() as int);
            crate::invariants::lemma_solve_consistent(s);
            lemma_round_keeps_trail_sound(s, s.clauses.len() as int);
            lemma_solve_sound(s);
            if all_satisfied(s) {
                lemma_solve_satisfied(s);
            }
        }
        match outcome.conflict {
            None => {
                if outcome.propagated == 1 {
                    self.mark_newest_record();
                }
                if outcome.satisfied == self.m_clauses.len() {
                    self.finish();
                }
                proof {
                    assert(self@.implications =~= settle(r).implications);
                    assert(self@ == settle(r));
                }
            },
            Some(at) => {
                let seed = copy_literals(&self.m_clauses[at]);
                proof {
                    assert(seed@ == r.state.clauses[at as int]);
                    assert(in_range(r.state.clauses[at as int], r.state.names.len()));
                }
                let learned = self.analyze_conflict(seed);
                let target = self.find_backjump_level(&learned);
                proof {
                    lemma_backjump_level_is_highest(r.state.guesses, learned@);
                }
                match target {
                    None => {
                        self.finish();
                    },
                    Some(level) => {
                        proof {
                            let i = choose|i: int|
                                0 <= i < r.state.guesses.len() && (#[trigger] r.state.guesses[i]).1
                                    == level && learned@.contains(
                                    crate::literal::spec_negate(r.state.guesses[i].0),
                                );
                            assert(r.state.guesses[i].1 == i);
                        }
                        self.store_learned(learned);
                        self.jump_back(level);
                    },
                }
                proof {
                    assert(self@ == learn(r.state, at as int));
                }
            },
        }
        self.m_finished
    }
}

impl CNFFormula {
    /// Whether the search has ended.
    pub fn is_finished(&self) -> (finished: bool)
        ensures
            finished == self@.finished,
    {
        self.m_finished
    }

    /// The current decision level; -1 before any decision.
    pub fn decision_level(&self) -> (level: i32)
        ensures
            level == self@.level,
    {
        self.m_decision_level
    }

    /// The number of registered variables.
    pub fn variable_count(&self) -> (count: usize)
        ensures
            count == self@.names.len(),
    {
        registry_len(&self.m_variables)
    }

    /// The index of the variable called `name`, if there is one.
    pub fn variable_index(&self, name: &str) -> (index: Option<u32>)
        requires
            self.wf(),
        ensures
            match index {
                Some(found) => found < self@.names.len() && self@.names[found as int] == name@,
                None => !self@.names.contains(name@),
            },
    {
        proof {
            lemma_has_key_contains(registry_entries(self.m_variables), name@);
        }
        let found = registry_get(&self.m_variables, name);
        proof {
            if found is Some {
                let entries = registry_entries(self.m_variables);
                let k = choose|k: int| 0 <= k < entries.len() && (#[trigger] entries[k]).0 == name@;
                assert(entries[k].1 == k);
            }
        }
        found
    }

    /// The clause store: the clauses given at the start, then the learned
    /// ones.
    pub fn clauses(&self) -> (clauses: &Vec<Vec<u32>>)
        ensures
            clauses_view(clauses@) == self@.clauses,
    {
        &self.m_clauses
    }

    /// The literals of the trail, in the order of their assignment.
    pub fn trail(&self) -> (literals: Vec<u32>)
        requires
            self.wf(),
        ensures
            literals@ == self@.trail,
    {
        literals_of(&self.m_variables, &self.m_assignments)
    }

    /// The trail as bindings of variable names to truth values, in the
    /// order of their assignment.
    pub fn assignments(&self) -> (bindings: Vec<(String, bool)>)
        requires
            self.wf(),
        ensures
            bindings.len() == self@.trail.len(),
            forall|i: int|
                0 <= i < bindings.len() ==> (#[trigger] bindings[i]).0@
                    == self@.names[spec_variable(self@.trail[i]) as int] && bindings[i].1
                    == !spec_is_negated(self@.trail[i]),
    {
        let ghost names = self@.names;
        let ghost entries = assignment_entries(self.m_assignments);
        let count = assignments_len(&self.m_assignments);
        let mut bindings: Vec<(String, bool)> = Vec::new();
        let mut i: usize = 0;
        while i < count
            invariant
                i <= count,
                count == entries.len(),
                entries == assignment_entries(self.m_assignments),
                names == self@.names,
                self.wf(),
                bindings.len() == i,
                forall|k: int|
                    0 <= k < i ==> (#[trigger] bindings[k]).0@ == names[spec_variable(
                        self@.trail[k],
                    ) as int] && bindings[k].1 == !spec_is_negated(self@.trail[k]),
            decreases count - i,
        {
            let binding = crate::ordered_map::assignments_at(&self.m_assignments, i).unwrap();
            proof {
                let key = entries[i as int].0;
                assert(names.contains(key));
                let k = names.index_of(key);
                lemma_entry_literal(names, k, entries[i as int].1);
                crate::literal::lemma_decode_encode(k as u32, !entries[i as int].1);
                assert(self@.trail[i as int] == entry_literal(names, entries[i as int]));
            }
            bindings.push(binding);
            i += 1;
        }
        bindings
    }

    /// The decision literals with their levels, oldest first.
    pub fn decision_guesses(&self) -> (guesses: Vec<(u32, i32)>)
        requires
            self.wf(),
        ensures
            guesses@ == self@.guesses,
    {
        let ghost entries = guess_entries(self.m_decision_guesses);
        let count = self.m_decision_level_implications.len() - 1;
        let mut guesses: Vec<(u32, i32)> = Vec::new();
        let mut i: usize = 0;
        while i < count
            invariant
                i <= count,
                count == entries.len(),
                entries == guess_entries(self.m_decision_guesses),
                guesses@ == entries.take(i as int),
            decreases count - i,
        {
            let guess = guesses_at(&self.m_decision_guesses, i).unwrap();
            guesses.push(guess);
            assert(entries.take(i + 1) =~= entries.take(i as int).push(entries[i as int]));
            i += 1;
        }
        assert(entries.take(count as int) =~= entries);
        guesses
    }

    /// The implication records of the current level, oldest first.
    pub fn current_level_implications(&self) -> (log: &Vec<ImplicationInformation>)
        requires
            self.wf(),
        ensures
            log_view(log@) == self@.implications[top(self@)],
    {
        &self.m_decision_level_implications[self.m_decision_level_implications.len() - 1]
    }

    /// Whether the trail satisfies every clause of the store.
    pub fn is_satisfied(&self) -> (satisfied: bool)
        requires
            self.wf(),
        ensures
            satisfied == all_satisfied(self@),
    {
        let trail = literals_of(&self.m_variables, &self.m_assignments);
        let mut i: usize = 0;
        while i < self.m_clauses.len()
            invariant
                i <= self.m_clauses.len(),
                trail@ == self@.trail,
                forall|c: int|
                    0 <= c < i ==> crate::clause::clause_satisfied(
                        self@.trail,
                        #[trigger] self@.clauses[c],
                    ),
            decreases self.m_clauses.len() - i,
        {
            let status = classify(&trail, &self.m_clauses[i]);
            if !status.satisfied {
                assert(!crate::clause::clause_satisfied(self@.trail, self@.clauses[i as int]));
                return false;
            }
            i += 1;
        }
        true
    }
}

} // verus!
