//! The textual syntax of tag sets and tag expressions, stated on sequences of
//! characters.
//!
//! ```text
//! TagSet     ::= Assignment (',' Assignment)*
//! Assignment ::= Quoted '=' Quoted
//! Logical    ::= Equality (('and' | 'or') Logical)?
//! Equality   ::= Quoted ('==' | '!=') Quoted
//! Quoted     ::= '"' any character but '"' ... '"'
//! ```
//!
//! Blanks (space, tab, line feed, carriage return) may stand before, between
//! and after the tokens. The whole text has to match: nothing may follow the
//! last token but blanks.
use vstd::prelude::*;
use crate::tags::{EqualityOp, LogicalOp};

verus! {

/// An equality node, its operands taken as sequences of characters.
pub struct EqualityModel {
    pub op: EqualityOp,
    pub lhs: Seq<char>,
    pub rhs: Seq<char>,
}

/// A tag expression, its operands taken as sequences of characters.
pub enum LogicalModel {
    Just(EqualityModel),
    Also(EqualityModel, LogicalOp, Box<LogicalModel>),
}

/// The characters that may separate tokens.
pub open spec fn is_blank(c: char) -> bool {
    c == ' ' || c == '\t' || c == '\n' || c == '\r'
}

/// The first position at or after `i` that holds no blank; the length of `s`
/// where only blanks follow.
pub open spec fn skip_blanks(s: Seq<char>, i: int) -> int
    decreases s.len() - i,
{
    if 0 <= i < s.len() && is_blank(s[i]) {
        skip_blanks(s, i + 1)
    } else {
        i
    }
}

/// The first position at or after `i` that holds a double quote; the length
/// of `s` where none follows.
pub open spec fn next_quote(s: Seq<char>, i: int) -> int
    decreases s.len() - i,
{
    if 0 <= i < s.len() && s[i] != '"' {
        next_quote(s, i + 1)
    } else {
        i
    }
}

/// Whether the characters of `word` stand in `s` from position `i` on.
pub open spec fn word_at(s: Seq<char>, i: int, word: Seq<char>) -> bool {
    0 <= i && i + word.len() <= s.len() && s.subrange(i, i + word.len()) == word
}

/// A quoted string that opens at position `i`: the text between the quotes
/// and the position after the closing quote.
pub open spec fn quoted_at(s: Seq<char>, i: int) -> Option<(Seq<char>, int)> {
    if 0 <= i < s.len() && s[i] == '"' && next_quote(s, i + 1) < s.len() {
        Some((s.subrange(i + 1, next_quote(s, i + 1)), next_quote(s, i + 1) + 1))
    } else {
        None
    }
}

/// `==` or `!=` at position `i`, and the position after it.
pub open spec fn equality_op_at(s: Seq<char>, i: int) -> Option<(EqualityOp, int)> {
    if word_at(s, i, seq!['=', '=']) {
        Some((EqualityOp::Equals, i + 2))
    } else if word_at(s, i, seq!['!', '=']) {
        Some((EqualityOp::NotEquals, i + 2))
    } else {
        None
    }
}

/// `and` or `or` at position `i`, and the position after it.
pub open spec fn logical_op_at(s: Seq<char>, i: int) -> Option<(LogicalOp, int)> {
    if word_at(s, i, seq!['a', 'n', 'd']) {
        Some((LogicalOp::And, i + 3))
    } else if word_at(s, i, seq!['o', 'r']) {
        Some((LogicalOp::Or, i + 2))
    } else {
        None
    }
}

/// An equality that opens at position `i`, and the position after its right
/// operand.
pub open spec fn equality_at(s: Seq<char>, i: int) -> Option<(EqualityModel, int)> {
    match quoted_at(s, i) {
        None => None,
        Some((lhs, after_lhs)) => match equality_op_at(s, skip_blanks(s, after_lhs)) {
            None => None,
            Some((op, after_op)) => match quoted_at(s, skip_blanks(s, after_op)) {
                None => None,
                Some((rhs, end)) => Some((EqualityModel { op, lhs, rhs }, end)),
            },
        },
    }
}

/// An assignment that opens at position `i`, and the position after its
/// value.
pub open spec fn assignment_at(s: Seq<char>, i: int) -> Option<((Seq<char>, Seq<char>), int)> {
    match quoted_at(s, i) {
        None => None,
        Some((key, after_key)) => if word_at(s, skip_blanks(s, after_key), seq!['=']) {
            match quoted_at(s, skip_blanks(s, skip_blanks(s, after_key) + 1)) {
                None => None,
                Some((value, end)) => Some(((key, value), end)),
            }
        } else {
            None
        },
    }
}

/// The expression that the text from position `i` to its end spells, if it
/// spells one.
pub open spec fn logical_from(s: Seq<char>, i: int) -> Option<LogicalModel>
    decreases s.len() - i,
    via logical_from_terminates
{
    match equality_at(s, i) {
        None => None,
        Some((head, end)) => if skip_blanks(s, end) >= s.len() {
            Some(LogicalModel::Just(head))
        } else {
            match logical_op_at(s, skip_blanks(s, end)) {
                None => None,
                Some((op, after_op)) => match logical_from(s, skip_blanks(s, after_op)) {
                    None => None,
                    Some(tail) => Some(LogicalModel::Also(head, op, Box::new(tail))),
                },
            }
        },
    }
}

#[via_fn]
proof fn logical_from_terminates(s: Seq<char>, i: int) {
    if let Some((head, end)) = equality_at(s, i) {
        lemma_equality_at_bounds(s, i);
        lemma_skip_blanks_bounds(s, end);
        if let Some((op, after_op)) = logical_op_at(s, skip_blanks(s, end)) {
            lemma_skip_blanks_bounds(s, after_op);
        }
    }
}

/// The assignments that the text from position `i` to its end spells, in the
/// order in which they are written, if it spells a tag set.
pub open spec fn assignments_from(s: Seq<char>, i: int) -> Option<Seq<(Seq<char>, Seq<char>)>>
    decreases s.len() - i,
    via assignments_from_terminates
{
    match assignment_at(s, i) {
        None => None,
        Some((pair, end)) => if skip_blanks(s, end) >= s.len() {
            Some(seq![pair])
        } else if s[skip_blanks(s, end)] == ',' {
            match assignments_from(s, skip_blanks(s, skip_blanks(s, end) + 1)) {
                None => None,
                Some(rest) => Some(seq![pair] + rest),
            }
        } else {
            None
        },
    }
}

#[via_fn]
proof fn assignments_from_terminates(s: Seq<char>, i: int) {
    if let Some((pair, end)) = assignment_at(s, i) {
        lemma_assignment_at_bounds(s, i);
        lemma_skip_blanks_bounds(s, end);
        if skip_blanks(s, end) < s.len() {
            lemma_skip_blanks_bounds(s, skip_blanks(s, end) + 1);
        }
    }
}

/// The expression that a whole text spells, if it spells one.
pub open spec fn parse_logical(s: Seq<char>) -> Option<LogicalModel> {
    logical_from(s, skip_blanks(s, 0))
}

/// The assignments that a whole text spells, if it spells a tag set.
pub open spec fn parse_assignments(s: Seq<char>) -> Option<Seq<(Seq<char>, Seq<char>)>> {
    assignments_from(s, skip_blanks(s, 0))
}

/// The mapping that a sequence of assignments builds, each one inserted in
/// turn: where a key is assigned twice, the later value stays.
pub open spec fn tags_of(pairs: Seq<(Seq<char>, Seq<char>)>) -> Map<Seq<char>, Seq<char>>
    decreases pairs.len(),
{
    if pairs.len() == 0 {
        Map::empty()
    } else {
        tags_of(pairs.drop_last()).insert(pairs.last().0, pairs.last().1)
    }
}

pub proof fn lemma_skip_blanks_bounds(s: Seq<char>, i: int)
    requires
        0 <= i <= s.len(),
    ensures
        i <= skip_blanks(s, i) <= s.len(),
        skip_blanks(s, i) < s.len() ==> !is_blank(s[skip_blanks(s, i)]),
        forall|j: int| i <= j < skip_blanks(s, i) ==> is_blank(#[trigger] s[j]),
    decreases s.len() - i,
{
    if i < s.len() && is_blank(s[i]) {
        lemma_skip_blanks_bounds(s, i + 1);
    }
}

pub proof fn lemma_next_quote_bounds(s: Seq<char>, i: int)
    requires
        0 <= i <= s.len(),
    ensures
        i <= next_quote(s, i) <= s.len(),
        next_quote(s, i) < s.len() ==> s[next_quote(s, i)] == '"',
        forall|j: int| i <= j < next_quote(s, i) ==> #[trigger] s[j] != '"',
    decreases s.len() - i,
{
    if i < s.len() && s[i] != '"' {
        lemma_next_quote_bounds(s, i + 1);
    }
}

pub proof fn lemma_quoted_at_bounds(s: Seq<char>, i: int)
    ensures
        quoted_at(s, i) matches Some((text, end)) ==> 0 <= i && i + 2 <= end <= s.len()
            && text.len() == end - i - 2,
{
    if 0 <= i < s.len() {
        lemma_next_quote_bounds(s, i + 1);
    }
}

pub proof fn lemma_equality_at_bounds(s: Seq<char>, i: int)
    ensures
        equality_at(s, i) matches Some((e, end)) ==> 0 <= i && i + 6 <= end <= s.len(),
{
    lemma_quoted_at_bounds(s, i);
    if let Some((lhs, after_lhs)) = quoted_at(s, i) {
        lemma_skip_blanks_bounds(s, after_lhs);
        if let Some((op, after_op)) = equality_op_at(s, skip_blanks(s, after_lhs)) {
            lemma_skip_blanks_bounds(s, after_op);
            lemma_quoted_at_bounds(s, skip_blanks(s, after_op));
        }
    }
}

pub proof fn lemma_assignment_at_bounds(s: Seq<char>, i: int)
    ensures
        assignment_at(s, i) matches Some((pair, end)) ==> 0 <= i && i + 5 <= end <= s.len(),
{
    lemma_quoted_at_bounds(s, i);
    if let Some((key, after_key)) = quoted_at(s, i) {
        lemma_skip_blanks_bounds(s, after_key);
        if word_at(s, skip_blanks(s, after_key), seq!['=']) {
            lemma_skip_blanks_bounds(s, skip_blanks(s, after_key) + 1);
            lemma_quoted_at_bounds(s, skip_blanks(s, skip_blanks(s, after_key) + 1));
        }
    }
}

/// What `word_at` says of a word of one character.
pub proof fn lemma_word_at_one(s: Seq<char>, i: int, a: char)
    ensures
        word_at(s, i, seq![a]) <==> 0 <= i < s.len() && s[i] == a,
{
    if 0 <= i < s.len() {
        if s[i] == a {
            assert(s.subrange(i, i + 1) =~= seq![a]);
        } else {
            assert(s.subrange(i, i + 1)[0] == s[i]);
        }
    }
}

/// What `word_at` says of a word of two characters.
pub proof fn lemma_word_at_two(s: Seq<char>, i: int, a: char, b: char)
    ensures
        word_at(s, i, seq![a, b]) <==> 0 <= i && i + 2 <= s.len() && s[i] == a && s[i + 1] == b,
{
    if 0 <= i && i + 2 <= s.len() {
        if s[i] == a && s[i + 1] == b {
            assert(s.subrange(i, i + 2) =~= seq![a, b]);
        } else {
            assert(s.subrange(i, i + 2)[0] == s[i]);
            assert(s.subrange(i, i + 2)[1] == s[i + 1]);
        }
    }
}

/// What `word_at` says of a word of three characters.
pub proof fn lemma_word_at_three(s: Seq<char>, i: int, a: char, b: char, c: char)
    ensures
        word_at(s, i, seq![a, b, c]) <==> 0 <= i && i + 3 <= s.len() && s[i] == a && s[i + 1] == b
            && s[i + 2] == c,
{
    if 0 <= i && i + 3 <= s.len() {
        if s[i] == a && s[i + 1] == b && s[i + 2] == c {
            assert(s.subrange(i, i + 3) =~= seq![a, b, c]);
        } else {
            assert(s.subrange(i, i + 3)[0] == s[i]);
            assert(s.subrange(i, i + 3)[1] == s[i + 1]);
            assert(s.subrange(i, i + 3)[2] == s[i + 2]);
        }
    }
}

} // verus!
