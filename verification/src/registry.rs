//! The variable registry: names bound to dense indices in the order in
//! which they are first seen, and the literals that tokens stand for.

use crate::literal::{encode, spec_encode, MAX_VARIABLES};
use crate::ordered_map::{has_key, registry_entries, registry_get, registry_insert, registry_len};
use crate::tokens::{
    is_negated_token, name_of_token, names_variable, starts_end_marker, starts_negated,
    token_name,
};
use indexmap::IndexMap;
use vstd::prelude::*;

verus! {

/// Why a clause cannot be built.
#[derive(Debug)]
pub enum FormulaError {
    /// The token at this position of the clause refers to a name that the
    /// registry does not hold.
    UnregisteredVariable { token: usize },
}

/// The names that a registry holds, in its order.
pub open spec fn keys(entries: Seq<(Seq<char>, u32)>) -> Seq<Seq<char>> {
    Seq::new(entries.len(), |i: int| entries[i].0)
}

/// The registry in which each of `names` has its position as its index.
pub open spec fn indexed(names: Seq<Seq<char>>) -> Seq<(Seq<char>, u32)> {
    Seq::new(names.len(), |i: int| (names[i], i as u32))
}

/// A position at which a registry holds `key`.
pub open spec fn position(entries: Seq<(Seq<char>, u32)>, key: Seq<char>) -> int {
    choose|i: int| 0 <= i < entries.len() && (#[trigger] entries[i]).0 == key
}

/// The index that a registry holds for `key`.
pub open spec fn lookup(entries: Seq<(Seq<char>, u32)>, key: Seq<char>) -> u32 {
    entries[position(entries, key)].1
}

/// A registry is dense when no name occurs twice, each name has its
/// position as its index, and every index can be packed into a literal.
pub open spec fn dense(entries: Seq<(Seq<char>, u32)>) -> bool {
    &&& keys(entries).no_duplicates()
    &&& entries.len() <= MAX_VARIABLES
    &&& forall|i: int| 0 <= i < entries.len() ==> (#[trigger] entries[i]).1 == i
}

/// The names after `name` was registered: a new name comes last.
pub open spec fn register(names: Seq<Seq<char>>, name: Seq<char>) -> Seq<Seq<char>> {
    if names.contains(name) {
        names
    } else {
        names.push(name)
    }
}

/// The names after each token of a clause that refers to a variable was
/// registered, in the order of the tokens.
pub open spec fn register_clause(names: Seq<Seq<char>>, tokens: Seq<Seq<char>>) -> Seq<
    Seq<char>,
>
    decreases tokens.len(),
{
    if tokens.len() == 0 {
        names
    } else if names_variable(tokens.last()) {
        register(register_clause(names, tokens.drop_last()), token_name(tokens.last()))
    } else {
        register_clause(names, tokens.drop_last())
    }
}

/// The names that a pile of clauses registers, in the order in which they
/// are first seen.
pub open spec fn register_pile(pile: Seq<Seq<Seq<char>>>) -> Seq<Seq<char>>
    decreases pile.len(),
{
    if pile.len() == 0 {
        Seq::empty()
    } else {
        register_clause(register_pile(pile.drop_last()), pile.last())
    }
}

/// Whether the registry holds the name of every token that refers to a
/// variable.
pub open spec fn tokens_known(entries: Seq<(Seq<char>, u32)>, tokens: Seq<Seq<char>>) -> bool {
    forall|i: int|
        0 <= i < tokens.len() && names_variable(#[trigger] tokens[i]) ==> has_key(
            entries,
            token_name(tokens[i]),
        )
}

/// The literal that a token stands for.
pub open spec fn token_literal(entries: Seq<(Seq<char>, u32)>, token: Seq<char>) -> u32 {
    spec_encode(lookup(entries, token_name(token)), is_negated_token(token))
}

/// The literals of a clause, one for each token that refers to a
/// variable, in the order of the tokens.
pub open spec fn clause_literals(entries: Seq<(Seq<char>, u32)>, tokens: Seq<Seq<char>>) -> Seq<
    u32,
>
    decreases tokens.len(),
{
    if tokens.len() == 0 {
        Seq::empty()
    } else if names_variable(tokens.last()) {
        clause_literals(entries, tokens.drop_last()).push(token_literal(entries, tokens.last()))
    } else {
        clause_literals(entries, tokens.drop_last())
    }
}

/// `shorter` is how `longer` begins.
pub open spec fn begins_with(longer: Seq<Seq<char>>, shorter: Seq<Seq<char>>) -> bool {
    shorter.len() <= longer.len() && forall|i: int|
        0 <= i < shorter.len() ==> #[trigger] longer[i] == shorter[i]
}

/// In a sequence without repetition an item is found where it is.
pub proof fn lemma_index_of(names: Seq<Seq<char>>, k: int)
    requires
        names.no_duplicates(),
        0 <= k < names.len(),
    ensures
        names.index_of(names[k]) == k,
        names.contains(names[k]),
{
    let found = names.index_of(names[k]);
    assert(0 <= found < names.len() && names[found] == names[k]);
}

/// A dense registry holds for each name its position.
pub proof fn lemma_lookup_dense(entries: Seq<(Seq<char>, u32)>, k: int)
    requires
        dense(entries),
        0 <= k < entries.len(),
    ensures
        lookup(entries, entries[k].0) == k,
        has_key(entries, entries[k].0),
        keys(entries).index_of(entries[k].0) == k,
{
    let key = entries[k].0;
    assert(entries[k].0 == key);
    let found = position(entries, key);
    assert(0 <= found < entries.len() && entries[found].0 == key);
    assert(keys(entries)[found] == keys(entries)[k]);
    assert(found == k);
    lemma_index_of(keys(entries), k);
}

/// A registry holds a key exactly when the key is among its names.
pub proof fn lemma_has_key_contains(entries: Seq<(Seq<char>, u32)>, key: Seq<char>)
    ensures
        has_key(entries, key) <==> keys(entries).contains(key),
{
    if has_key(entries, key) {
        let i = choose|i: int| 0 <= i < entries.len() && (#[trigger] entries[i]).0 == key;
        assert(keys(entries)[i] == key);
    }
    if keys(entries).contains(key) {
        let i = choose|i: int| 0 <= i < keys(entries).len() && keys(entries)[i] == key;
        assert(entries[i].0 == key);
    }
}

/// A dense registry is the one made of its names.
pub proof fn lemma_dense_indexed(entries: Seq<(Seq<char>, u32)>)
    requires
        dense(entries),
    ensures
        entries == indexed(keys(entries)),
{
    assert(entries =~= indexed(keys(entries)));
}

/// Registering a name keeps the names that were there, in their places,
/// and keeps them free of repetition.
pub proof fn lemma_register_grows(names: Seq<Seq<char>>, name: Seq<char>)
    requires
        names.no_duplicates(),
    ensures
        register(names, name).no_duplicates(),
        begins_with(register(names, name), names),
        register(names, name).contains(name),
{
    let after = register(names, name);
    if names.contains(name) {
    } else {
        assert(after[names.len() as int] == name);
        assert forall|i: int, j: int|
            0 <= i < after.len() && 0 <= j < after.len() && i != j implies after[i]
            != after[j] by {
            if i < names.len() {
                assert(names.contains(after[i]));
            }
            if j < names.len() {
                assert(names.contains(after[j]));
            }
        }
    }
}

/// Registering the tokens of a clause keeps the names that were there, in
/// their places, and afterwards every token of the clause is known.
pub proof fn lemma_register_clause_grows(names: Seq<Seq<char>>, tokens: Seq<Seq<char>>)
    requires
        names.no_duplicates(),
    ensures
        register_clause(names, tokens).no_duplicates(),
        begins_with(register_clause(names, tokens), names),
        forall|i: int|
            0 <= i < tokens.len() && names_variable(#[trigger] tokens[i]) ==> register_clause(
                names,
                tokens,
            ).contains(token_name(tokens[i])),
    decreases tokens.len(),
{
    if tokens.len() > 0 {
        let front = tokens.drop_last();
        let before = register_clause(names, front);
        lemma_register_clause_grows(names, front);
        let after = register_clause(names, tokens);
        if names_variable(tokens.last()) {
            lemma_register_grows(before, token_name(tokens.last()));
        }
        assert(begins_with(after, before));
        assert forall|i: int|
            0 <= i < tokens.len() && names_variable(#[trigger] tokens[i]) implies after.contains(
            token_name(tokens[i]),
        ) by {
            if i < front.len() {
                assert(front[i] == tokens[i]);
                let k = choose|k: int|
                    0 <= k < before.len() && before[k] == token_name(tokens[i]);
                assert(after[k] == before[k]);
            }
        }
    }
}

/// The names that a part of a clause registers are how the names of the
/// whole clause begin.
pub proof fn lemma_register_clause_part(names: Seq<Seq<char>>, tokens: Seq<Seq<char>>, upto: int)
    requires
        names.no_duplicates(),
        0 <= upto <= tokens.len(),
    ensures
        begins_with(register_clause(names, tokens), register_clause(names, tokens.take(upto))),
    decreases tokens.len(),
{
    if upto == tokens.len() {
        assert(tokens.take(upto) =~= tokens);
    } else {
        let front = tokens.drop_last();
        lemma_register_clause_part(names, front, upto);
        assert(front.take(upto) =~= tokens.take(upto));
        lemma_register_clause_grows(names, front);
        if names_variable(tokens.last()) {
            lemma_register_grows(register_clause(names, front), token_name(tokens.last()));
        }
    }
}

/// The names that a pile registers are free of repetition, and the names
/// that a part of the pile registers are how they begin.
pub proof fn lemma_register_pile_grows(pile: Seq<Seq<Seq<char>>>, upto: int)
    requires
        0 <= upto <= pile.len(),
    ensures
        register_pile(pile).no_duplicates(),
        register_pile(pile.take(upto)).no_duplicates(),
        begins_with(register_pile(pile), register_pile(pile.take(upto))),
    decreases pile.len(),
{
    if pile.len() == 0 {
        assert(pile.take(upto) =~= pile);
    } else {
        let front = pile.drop_last();
        lemma_register_pile_grows(front, if upto == pile.len() {
            upto - 1
        } else {
            upto
        });
        lemma_register_pile_grows(front, front.len() as int);
        assert(front.take(front.len() as int) =~= front);
        lemma_register_clause_grows(register_pile(front), pile.last());
        if upto == pile.len() {
            assert(pile.take(upto) =~= pile);
        } else {
            assert(front.take(upto) =~= pile.take(upto));
        }
    }
}

/// A clause whose tokens are known stands for the same literals in every
/// registry that begins with the names it knows.
pub proof fn lemma_clause_literals_stable(
    shorter: Seq<Seq<char>>,
    longer: Seq<Seq<char>>,
    tokens: Seq<Seq<char>>,
)
    requires
        longer.no_duplicates(),
        begins_with(longer, shorter),
        tokens_known(indexed(shorter), tokens),
    ensures
        clause_literals(indexed(shorter), tokens) == clause_literals(indexed(longer), tokens),
    decreases tokens.len(),
{
    if tokens.len() > 0 {
        let front = tokens.drop_last();
        assert forall|i: int| 0 <= i < front.len() && names_variable(#[trigger] front[i])
            implies has_key(indexed(shorter), token_name(front[i])) by {
            assert(front[i] == tokens[i]);
        }
        lemma_clause_literals_stable(shorter, longer, front);
        if names_variable(tokens.last()) {
            let name = token_name(tokens.last());
            assert(tokens[tokens.len() - 1] == tokens.last());
            assert(has_key(indexed(shorter), name));
            let in_shorter = position(indexed(shorter), name);
            assert(0 <= in_shorter < shorter.len() && indexed(shorter)[in_shorter].0 == name);
            assert(longer[in_shorter] == shorter[in_shorter]);
            assert(indexed(longer)[in_shorter].0 == name);
            let in_longer = position(indexed(longer), name);
            assert(0 <= in_longer < longer.len() && indexed(longer)[in_longer].0 == name);
            assert(longer[in_longer] == longer[in_shorter]);
            assert(in_longer == in_shorter);
            assert(token_literal(indexed(shorter), tokens.last()) == token_literal(
                indexed(longer),
                tokens.last(),
            ));
        }
    }
}

/// The literals of a clause whose tokens a dense registry knows speak of
/// registered variables only.
pub proof fn lemma_clause_literals_in_range(entries: Seq<(Seq<char>, u32)>, tokens: Seq<Seq<char>>)
    requires
        dense(entries),
        tokens_known(entries, tokens),
    ensures
        crate::state::in_range(clause_literals(entries, tokens), entries.len()),
    decreases tokens.len(),
{
    if tokens.len() > 0 {
        let front = tokens.drop_last();
        assert forall|i: int| 0 <= i < front.len() && names_variable(#[trigger] front[i])
            implies has_key(entries, token_name(front[i])) by {
            assert(front[i] == tokens[i]);
        }
        lemma_clause_literals_in_range(entries, front);
        let inner = clause_literals(entries, front);
        let literals = clause_literals(entries, tokens);
        if names_variable(tokens.last()) {
            let name = token_name(tokens.last());
            assert(tokens[tokens.len() - 1] == tokens.last());
            assert(has_key(entries, name));
            let k = position(entries, name);
            assert(0 <= k < entries.len() && entries[k].1 == k);
            crate::literal::lemma_decode_encode(entries[k].1, is_negated_token(tokens.last()));
            assert forall|i: int| 0 <= i < literals.len() implies crate::literal::spec_variable(
                #[trigger] literals[i],
            ) < entries.len() by {
                if i < inner.len() {
                    assert(literals[i] == inner[i]);
                }
            }
        }
    }
}

/// The index of `name`: the one it has where it is known, else the next
/// free one, which it is given.
pub fn register_variable(variables: &mut IndexMap<String, u32>, name: String) -> (index: u32)
    requires
        dense(registry_entries(*old(variables))),
        register(keys(registry_entries(*old(variables))), name@).len() <= MAX_VARIABLES,
    ensures
        dense(registry_entries(*final(variables))),
        keys(registry_entries(*final(variables))) == register(
            keys(registry_entries(*old(variables))),
            name@,
        ),
        index == lookup(registry_entries(*final(variables)), name@),
        index < registry_entries(*final(variables)).len(),
{
    let ghost before = registry_entries(*variables);
    proof {
        lemma_has_key_contains(before, name@);
    }
    match registry_get(variables, name.as_str()) {
        Some(index) => {
            proof {
                let k = choose|k: int| 0 <= k < before.len() && (#[trigger] before[k]).0 == name@;
                lemma_lookup_dense(before, k);
            }
            index
        },
        None => {
            let index = registry_len(variables) as u32;
            let ghost key = name@;
            registry_insert(variables, name, index);
            proof {
                let after = registry_entries(*variables);
                assert(after == before.push((key, index)));
                assert(keys(after) =~= keys(before).push(key));
                lemma_register_grows(keys(before), key);
                assert(after[before.len() as int].0 == key);
                lemma_lookup_dense(after, before.len() as int);
            }
            index
        },
    }
}

/// The literals of a clause of tokens under a registry, or the position
/// of the first token whose name the registry does not hold.
pub fn encode_tokens(variables: &IndexMap<String, u32>, tokens: &Vec<String>) -> (outcome: Result<
    Vec<u32>,
    FormulaError,
>)
    ensures
        match outcome {
            Ok(literals) => tokens_known(registry_entries(*variables), tokens.deep_view())
                && literals@ == clause_literals(registry_entries(*variables), tokens.deep_view()),
            Err(FormulaError::UnregisteredVariable { token }) => token < tokens.len()
                && names_variable(tokens.deep_view()[token as int]) && !has_key(
                registry_entries(*variables),
                token_name(tokens.deep_view()[token as int]),
            ) && tokens_known(registry_entries(*variables), tokens.deep_view().take(token as int)),
        },
{
    let ghost entries = registry_entries(*variables);
    let ghost all = tokens.deep_view();
    let mut literals: Vec<u32> = Vec::new();
    let mut i: usize = 0;
    while i < tokens.len()
        invariant
            i <= tokens.len(),
            entries == registry_entries(*variables),
            all == tokens.deep_view(),
            tokens_known(entries, all.take(i as int)),
            literals@ == clause_literals(entries, all.take(i as int)),
        decreases tokens.len() - i,
    {
        let token = tokens[i].as_str();
        proof {
            assert(all.take(i + 1).drop_last() =~= all.take(i as int));
            assert(all.take(i + 1).last() == token@);
        }
        if !starts_end_marker(token) {
            let name = name_of_token(token);
            match registry_get(variables, name.as_str()) {
                Some(index) => {
                    literals.push(encode(index, starts_negated(token)));
                },
                None => {
                    return Err(FormulaError::UnregisteredVariable { token: i });
                },
            }
        }
        proof {
            assert forall|k: int|
                0 <= k < all.take(i + 1).len() && names_variable(
                    #[trigger] all.take(i + 1)[k],
                ) implies has_key(entries, token_name(all.take(i + 1)[k])) by {
                if k < i {
                    assert(all.take(i as int)[k] == all.take(i + 1)[k]);
                }
            }
        }
        i += 1;
    }
    proof {
        assert(all.take(tokens.len() as int) =~= all);
    }
    Ok(literals)
}

} // verus!
