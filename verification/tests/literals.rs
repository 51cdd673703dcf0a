use cdcl_core::clause::{classify, contains_literal, copy_literals, count_assigned};
use cdcl_core::formula::CNFFormula;
use cdcl_core::literal::{are_complementary, decode, encode, negate, MAX_VARIABLES};
use cdcl_core::tokens::{name_of_token, starts_end_marker, starts_negated, strip_dashes};

#[test]
fn encode_packs_index_and_polarity() {
    assert_eq!(encode(0, false), 0);
    assert_eq!(encode(0, true), 1);
    assert_eq!(encode(1, false), 2);
    assert_eq!(encode(1, true), 3);
    assert_eq!(encode(21, true), 43);
    assert_eq!(encode(MAX_VARIABLES - 1, true), u32::MAX);
}

#[test]
fn decode_unpacks_index_and_polarity() {
    assert_eq!(decode(0), (0, false));
    assert_eq!(decode(1), (0, true));
    assert_eq!(decode(43), (21, true));
    assert_eq!(decode(u32::MAX), (MAX_VARIABLES - 1, true));
}

#[test]
fn decode_inverts_encode() {
    for index in [0u32, 1, 2, 3, 17, 1000, 65_535, MAX_VARIABLES - 2, MAX_VARIABLES - 1] {
        for negated in [false, true] {
            assert_eq!(decode(encode(index, negated)), (index, negated));
        }
    }
}

#[test]
fn encode_inverts_decode() {
    for literal in [0u32, 1, 2, 3, 4, 5, 99, 100, u32::MAX - 1, u32::MAX] {
        let (index, negated) = decode(literal);
        assert_eq!(encode(index, negated), literal);
    }
}

#[test]
fn negate_flips_only_the_polarity() {
    assert_eq!(negate(0), 1);
    assert_eq!(negate(1), 0);
    assert_eq!(negate(42), 43);
    assert_eq!(negate(43), 42);
    for literal in [0u32, 1, 6, 7, 1234, u32::MAX] {
        assert_eq!(decode(negate(literal)).0, decode(literal).0);
        assert_ne!(decode(negate(literal)).1, decode(literal).1);
    }
}

#[test]
fn negate_is_an_involution() {
    for literal in [0u32, 1, 2, 3, 77, 1 << 20, u32::MAX - 1, u32::MAX] {
        assert_eq!(negate(negate(literal)), literal);
        assert!(are_complementary(literal, negate(literal)));
        assert!(are_complementary(negate(literal), literal));
    }
}

#[test]
fn complementary_needs_same_variable_and_opposite_polarity() {
    assert!(are_complementary(4, 5));
    assert!(are_complementary(5, 4));
    assert!(!are_complementary(4, 4));
    assert!(!are_complementary(5, 5));
    assert!(!are_complementary(4, 6));
    assert!(!are_complementary(4, 7));
}

#[test]
fn tokens_are_told_apart_by_their_first_character() {
    assert!(starts_negated("-x1"));
    assert!(starts_negated("-"));
    assert!(!starts_negated("x1"));
    assert!(!starts_negated(""));
    assert!(!starts_negated("0"));
    assert!(starts_end_marker("0"));
    assert!(starts_end_marker("01"));
    assert!(!starts_end_marker("10"));
    assert!(!starts_end_marker("-0"));
    assert!(!starts_end_marker(""));
}

#[test]
fn dashes_are_stripped_from_both_ends() {
    assert_eq!(strip_dashes("-x1"), "x1");
    assert_eq!(strip_dashes("--x1"), "x1");
    assert_eq!(strip_dashes("-x1-"), "x1");
    assert_eq!(strip_dashes("x-1"), "x-1");
    assert_eq!(strip_dashes("-a-b--"), "a-b");
    assert_eq!(strip_dashes("-"), "");
    assert_eq!(strip_dashes("---"), "");
    assert_eq!(strip_dashes(""), "");
    assert_eq!(strip_dashes("-\u{e9}t\u{e9}-"), "\u{e9}t\u{e9}");
}

#[test]
fn a_token_names_its_variable() {
    assert_eq!(name_of_token("x1"), "x1");
    assert_eq!(name_of_token("-x1"), "x1");
    assert_eq!(name_of_token("x1-"), "x1-");
    assert_eq!(name_of_token("-0"), "0");
    assert_eq!(name_of_token("12"), "12");
}

#[test]
fn contains_literal_finds_what_is_there() {
    let literals = vec![4, 9, 2];
    assert!(contains_literal(&literals, 4));
    assert!(contains_literal(&literals, 2));
    assert!(!contains_literal(&literals, 5));
    assert!(!contains_literal(&Vec::new(), 0));
}

#[test]
fn copy_literals_copies() {
    assert_eq!(copy_literals(&vec![3, 1, 3]), vec![3, 1, 3]);
    assert_eq!(copy_literals(&Vec::new()), Vec::<u32>::new());
}

#[test]
fn classify_sorts_the_literals_of_a_clause() {
    // x0 true, x1 false on the trail; x2 and x3 without a value.
    let trail = vec![0, 3];
    let status = classify(&trail, &vec![1, 2, 4, 7, 5]);
    assert!(!status.satisfied);
    assert_eq!(status.free, vec![4, 7, 5]);
    assert_eq!(status.antecedents, vec![0, 3]);

    let status = classify(&trail, &vec![1, 3, 6]);
    assert!(status.satisfied);
    assert_eq!(status.free, vec![6]);
    assert_eq!(status.antecedents, vec![0]);
}

#[test]
fn classify_counts_a_repeated_free_literal_each_time() {
    let status = classify(&Vec::new(), &vec![2, 2]);
    assert!(!status.satisfied);
    assert_eq!(status.free, vec![2, 2]);
    assert!(status.antecedents.is_empty());
}

#[test]
fn classify_of_the_empty_clause() {
    let status = classify(&vec![0], &Vec::new());
    assert!(!status.satisfied);
    assert!(status.free.is_empty());
    assert!(status.antecedents.is_empty());
}

#[test]
fn count_assigned_counts_by_variable() {
    // The level assigned x1 true (2) and x2 false (5).
    let here = vec![2, 5];
    assert_eq!(count_assigned(&vec![3, 4, 0], &here), 2);
    assert_eq!(count_assigned(&vec![0, 1, 6], &here), 0);
    assert_eq!(count_assigned(&vec![2, 2, 3], &here), 3);
    assert_eq!(count_assigned(&Vec::new(), &here), 0);
}

#[test]
fn update_partial_clause_resolves_on_the_pivot() {
    // (x0' + x1') with (x0' + x1): x1 goes, nothing new comes.
    assert_eq!(CNFFormula::update_partial_clause(&vec![1, 3], &vec![1, 2]), vec![1]);
    // (x0 + x1') with (x1 + x2): the pivot goes, x2 comes.
    assert_eq!(CNFFormula::update_partial_clause(&vec![0, 3], &vec![2, 4]), vec![0, 4]);
}

#[test]
fn update_partial_clause_without_a_pivot_joins_the_clauses() {
    assert_eq!(CNFFormula::update_partial_clause(&vec![0, 2], &vec![4, 2, 6]), vec![0, 2, 4, 6]);
    assert_eq!(CNFFormula::update_partial_clause(&Vec::new(), &vec![4, 4]), vec![4]);
    assert_eq!(CNFFormula::update_partial_clause(&vec![5, 5], &Vec::new()), vec![5, 5]);
}

#[test]
fn update_partial_clause_drops_every_contradicted_literal() {
    assert_eq!(
        CNFFormula::update_partial_clause(&vec![0, 2], &vec![1, 3]),
        Vec::<u32>::new()
    );
    assert_eq!(CNFFormula::update_partial_clause(&vec![1], &vec![0]), Vec::<u32>::new());
}
