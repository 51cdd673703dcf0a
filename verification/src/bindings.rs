//! Bindings of variable names to truth values, and the literals they make
//! true.

use crate::invariants::lemma_same_variable;
use crate::literal::{
    encode, lemma_decode_encode, spec_encode, spec_variable, MAX_VARIABLES,
};
use crate::ordered_map::{
    assignment_entries, assignments_at, assignments_len, has_key, registry_entries, registry_get,
};
use crate::registry::{dense, keys, lemma_has_key_contains, lemma_index_of};
use crate::state::variable_assigned;
use indexmap::IndexMap;
use vstd::prelude::*;

verus! {

/// The literal that the binding of a name to a truth value makes true.
pub open spec fn entry_literal(names: Seq<Seq<char>>, entry: (Seq<char>, bool)) -> u32 {
    spec_encode(names.index_of(entry.0) as u32, !entry.1)
}

/// The literals that a sequence of bindings makes true.
pub open spec fn entry_literals(names: Seq<Seq<char>>, entries: Seq<(Seq<char>, bool)>) -> Seq<
    u32,
> {
    Seq::new(entries.len(), |i: int| entry_literal(names, entries[i]))
}

/// Whether every bound name is a registered one.
pub open spec fn names_known(names: Seq<Seq<char>>, entries: Seq<(Seq<char>, bool)>) -> bool {
    forall|i: int| 0 <= i < entries.len() ==> names.contains((#[trigger] entries[i]).0)
}


/// The binding of the name at position `k` makes a literal over variable
/// `k` true.
pub proof fn lemma_entry_literal(names: Seq<Seq<char>>, k: int, value: bool)
    requires
        names.no_duplicates(),
        names.len() <= MAX_VARIABLES,
        0 <= k < names.len(),
    ensures
        entry_literal(names, (names[k], value)) == spec_encode(k as u32, !value),
        spec_variable(entry_literal(names, (names[k], value))) == k,
{
    lemma_index_of(names, k);
    lemma_decode_encode(k as u32, !value);
}

/// The literals of bindings with one more binding.
pub proof fn lemma_entry_literals_push(
    names: Seq<Seq<char>>,
    entries: Seq<(Seq<char>, bool)>,
    entry: (Seq<char>, bool),
)
    ensures
        entry_literals(names, entries.push(entry)) == entry_literals(names, entries).push(
            entry_literal(names, entry),
        ),
{
    assert(entry_literals(names, entries.push(entry)) =~= entry_literals(names, entries).push(
        entry_literal(names, entry),
    ));
}

/// The literals of bindings without the newest of them.
pub proof fn lemma_entry_literals_take(
    names: Seq<Seq<char>>,
    entries: Seq<(Seq<char>, bool)>,
    count: int,
)
    requires
        0 <= count <= entries.len(),
    ensures
        entry_literals(names, entries.take(count)) == entry_literals(names, entries).take(count),
{
    assert(entry_literals(names, entries.take(count)) =~= entry_literals(names, entries).take(
        count,
    ));
}

/// Bindings of registered names do not bind the name of a variable that
/// their literals give no value.
pub proof fn lemma_key_absent(
    names: Seq<Seq<char>>,
    entries: Seq<(Seq<char>, bool)>,
    variable: u32,
)
    requires
        names.no_duplicates(),
        names.len() <= MAX_VARIABLES,
        names_known(names, entries),
        variable < names.len(),
        !variable_assigned(entry_literals(names, entries), variable),
    ensures
        !has_key(entries, names[variable as int]),
{
    if has_key(entries, names[variable as int]) {
        let i = choose|i: int|
            0 <= i < entries.len() && (#[trigger] entries[i]).0 == names[variable as int];
        lemma_entry_literal(names, variable as int, entries[i].1);
        assert(entry_literals(names, entries)[i] == entry_literal(names, entries[i]));
    }
}

/// Bindings of registered names bind the name of every variable that
/// their literals give a value.
pub proof fn lemma_key_present(
    names: Seq<Seq<char>>,
    entries: Seq<(Seq<char>, bool)>,
    variable: u32,
)
    requires
        names.no_duplicates(),
        names.len() <= MAX_VARIABLES,
        names_known(names, entries),
        variable < names.len(),
        variable_assigned(entry_literals(names, entries), variable),
    ensures
        has_key(entries, names[variable as int]),
{
    let literals = entry_literals(names, entries);
    let i = choose|i: int|
        0 <= i < literals.len() && spec_variable(#[trigger] literals[i]) == variable;
    let key = entries[i].0;
    assert(names.contains(key));
    let k = names.index_of(key);
    assert(0 <= k < names.len() && names[k] == key);
    lemma_decode_encode(k as u32, !entries[i].1);
    assert(literals[i] == entry_literal(names, entries[i]));
}

/// A variable has a value exactly when the trail holds one of its two
/// literals.
pub proof fn lemma_assigned_by_literal(trail: Seq<u32>, variable: u32)
    requires
        variable < MAX_VARIABLES,
    ensures
        variable_assigned(trail, variable) <==> trail.contains(spec_encode(variable, false))
            || trail.contains(spec_encode(variable, true)),
{
    lemma_decode_encode(variable, false);
    lemma_decode_encode(variable, true);
    let plain = spec_encode(variable, false);
    let negated = spec_encode(variable, true);
    if variable_assigned(trail, variable) {
        let i = choose|i: int|
            0 <= i < trail.len() && spec_variable(#[trigger] trail[i]) == variable;
        lemma_same_variable(trail[i], plain);
        lemma_same_variable(negated, plain);
        assert(trail.contains(trail[i]));
    }
    if trail.contains(plain) {
        let i = choose|i: int| 0 <= i < trail.len() && trail[i] == plain;
        assert(spec_variable(trail[i]) == variable);
    }
    if trail.contains(negated) {
        let i = choose|i: int| 0 <= i < trail.len() && trail[i] == negated;
        assert(spec_variable(trail[i]) == variable);
    }
}

/// The literals that the bindings of a map make true, in the map's order.
pub fn literals_of(
    variables: &IndexMap<String, u32>,
    bindings: &IndexMap<String, bool>,
) -> (literals: Vec<u32>)
    requires
        dense(registry_entries(*variables)),
        names_known(keys(registry_entries(*variables)), assignment_entries(*bindings)),
    ensures
        literals@ == entry_literals(
            keys(registry_entries(*variables)),
            assignment_entries(*bindings),
        ),
{
    let ghost registry = registry_entries(*variables);
    let ghost names = keys(registry);
    let ghost entries = assignment_entries(*bindings);
    let count = assignments_len(bindings);
    let mut literals: Vec<u32> = Vec::new();
    let mut i: usize = 0;
    while i < count
        invariant
            i <= count,
            count == entries.len(),
            registry == registry_entries(*variables),
            names == keys(registry),
            entries == assignment_entries(*bindings),
            dense(registry),
            names_known(names, entries),
            literals@ == entry_literals(names, entries).take(i as int),
        decreases count - i,
    {
        let binding = assignments_at(bindings, i).unwrap();
        proof {
            assert(names.contains(entries[i as int].0));
            lemma_has_key_contains(registry, entries[i as int].0);
        }
        let index = registry_get(variables, binding.0.as_str()).unwrap();
        proof {
            let k = names.index_of(entries[i as int].0);
            assert(registry[k].0 == entries[i as int].0);
            assert(index == k);
        }
        literals.push(encode(index, !binding.1));
        assert(entry_literals(names, entries).take(i + 1) =~= entry_literals(names, entries).take(
            i as int,
        ).push(entry_literal(names, entries[i as int])));
        i += 1;
    }
    assert(entry_literals(names, entries).take(count as int) =~= entry_literals(names, entries));
    literals
}

} // verus!
