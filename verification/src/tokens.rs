//! Literal tokens as they appear in an input clause.
//!
//! A token that starts with `-` denotes a negated literal; its variable is
//! named by the token with every leading and trailing `-` removed. A token
//! that starts with `0` ends a clause and names nothing. Any other token
//! names its variable as it stands.

use vstd::prelude::*;
use vstd::string::*;

verus! {

/// Whether a token denotes a negated literal.
pub open spec fn is_negated_token(token: Seq<char>) -> bool {
    token.len() > 0 && token[0] == '-'
}

/// Whether a token is the marker that ends a clause.
pub open spec fn is_end_marker(token: Seq<char>) -> bool {
    token.len() > 0 && token[0] == '0'
}

/// Whether a token refers to a variable.
pub open spec fn names_variable(token: Seq<char>) -> bool {
    !is_end_marker(token)
}

/// How many `-` a text starts with.
pub open spec fn leading_dashes(text: Seq<char>) -> nat
    decreases text.len(),
{
    if text.len() > 0 && text[0] == '-' {
        1 + leading_dashes(text.drop_first())
    } else {
        0
    }
}

/// How many `-` a text ends with.
pub open spec fn trailing_dashes(text: Seq<char>) -> nat
    decreases text.len(),
{
    if text.len() > 0 && text.last() == '-' {
        1 + trailing_dashes(text.drop_last())
    } else {
        0
    }
}

/// A text without the `-` it starts and ends with.
pub open spec fn trim_dashes(text: Seq<char>) -> Seq<char> {
    let start = leading_dashes(text);
    if start == text.len() {
        Seq::empty()
    } else {
        text.subrange(start as int, text.len() - trailing_dashes(text))
    }
}

/// The variable name a token refers to.
pub open spec fn token_name(token: Seq<char>) -> Seq<char> {
    if is_negated_token(token) {
        trim_dashes(token)
    } else {
        token
    }
}

/// A count of leading dashes is told by the dashes before it and the
/// character at it.
pub proof fn lemma_leading_dashes(text: Seq<char>, count: int)
    requires
        0 <= count <= text.len(),
        forall|i: int| 0 <= i < count ==> text[i] == '-',
        count < text.len() ==> text[count] != '-',
    ensures
        leading_dashes(text) == count,
    decreases text.len(),
{
    if count > 0 {
        let rest = text.drop_first();
        assert forall|i: int| 0 <= i < count - 1 implies rest[i] == '-' by {
            assert(rest[i] == text[i + 1]);
        }
        lemma_leading_dashes(rest, count - 1);
    }
}

/// A count of trailing dashes is told by the dashes after it and the
/// character before them.
pub proof fn lemma_trailing_dashes(text: Seq<char>, count: int)
    requires
        0 <= count <= text.len(),
        forall|i: int| text.len() - count <= i < text.len() ==> text[i] == '-',
        count < text.len() ==> text[text.len() - count - 1] != '-',
    ensures
        trailing_dashes(text) == count,
    decreases text.len(),
{
    if count > 0 {
        let rest = text.drop_last();
        assert forall|i: int| rest.len() - (count - 1) <= i < rest.len() implies rest[i]
            == '-' by {
            assert(rest[i] == text[i]);
        }
        lemma_trailing_dashes(rest, count - 1);
    }
}

/// Whether a token denotes a negated literal.
pub fn starts_negated(token: &str) -> (negated: bool)
    ensures
        negated == is_negated_token(token@),
{
    token.unicode_len() > 0 && token.get_char(0) == '-'
}

/// Whether a token is the marker that ends a clause.
pub fn starts_end_marker(token: &str) -> (marker: bool)
    ensures
        marker == is_end_marker(token@),
{
    token.unicode_len() > 0 && token.get_char(0) == '0'
}

/// A text without the `-` it starts and ends with.
pub fn strip_dashes(text: &str) -> (stripped: String)
    ensures
        stripped@ == trim_dashes(text@),
{
    let length = text.unicode_len();
    let mut start: usize = 0;
    while start < length && text.get_char(start) == '-'
        invariant
            length == text@.len(),
            start <= length,
            forall|i: int| 0 <= i < start ==> text@[i] == '-',
        decreases length - start,
    {
        start += 1;
    }
    proof {
        lemma_leading_dashes(text@, start as int);
    }
    if start == length {
        return String::new();
    }
    let mut end: usize = length;
    while end > start && text.get_char(end - 1) == '-'
        invariant
            length == text@.len(),
            start < length,
            start <= end <= length,
            text@[start as int] != '-',
            forall|i: int| end <= i < length ==> text@[i] == '-',
        decreases end,
    {
        end -= 1;
    }
    proof {
        lemma_trailing_dashes(text@, length - end);
    }
    text.substring_char(start, end).to_owned()
}

/// The variable name a token refers to.
pub fn name_of_token(token: &str) -> (name: String)
    ensures
        name@ == token_name(token@),
{
    if starts_negated(token) {
        strip_dashes(token)
    } else {
        token.to_owned()
    }
}

} // verus!
