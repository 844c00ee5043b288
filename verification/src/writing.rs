//! Tag expressions and tag sets written out as text, and what reading such
//! a text gives back.
use vstd::prelude::*;
use crate::grammar::{
    assignment_at, assignments_from, equality_at, equality_op_at, is_blank, lemma_word_at_one,
    lemma_word_at_three, lemma_word_at_two, logical_from, logical_op_at, next_quote,
    parse_assignments, parse_logical, quoted_at, skip_blanks, word_at, EqualityModel,
    LogicalModel,
};
use crate::tags::{EqualityOp, LogicalOp};

verus! {

/// Whether a text holds no double quote, and so can stand between quotes.
pub open spec fn quote_free(text: Seq<char>) -> bool {
    forall|i: int| 0 <= i < text.len() ==> text[i] != '"'
}

/// A text between double quotes.
pub open spec fn quoted(text: Seq<char>) -> Seq<char> {
    seq!['"'] + text + seq!['"']
}

/// `==` or `!=`.
pub open spec fn equality_op_text(op: EqualityOp) -> Seq<char> {
    match op {
        EqualityOp::Equals => seq!['=', '='],
        EqualityOp::NotEquals => seq!['!', '='],
    }
}

/// `and` or `or`.
pub open spec fn logical_op_text(op: LogicalOp) -> Seq<char> {
    match op {
        LogicalOp::And => seq!['a', 'n', 'd'],
        LogicalOp::Or => seq!['o', 'r'],
    }
}

/// An equality written out, one space between its tokens.
pub open spec fn equality_text(e: EqualityModel) -> Seq<char> {
    quoted(e.lhs) + seq![' '] + equality_op_text(e.op) + seq![' '] + quoted(e.rhs)
}

/// An expression written out, one space between its tokens.
pub open spec fn logical_text(l: LogicalModel) -> Seq<char>
    decreases l,
{
    match l {
        LogicalModel::Just(e) => equality_text(e),
        LogicalModel::Also(e, op, tail) => equality_text(e) + seq![' '] + logical_op_text(op)
            + seq![' '] + logical_text(*tail),
    }
}

/// Whether no operand of an expression holds a double quote.
pub open spec fn writable(l: LogicalModel) -> bool
    decreases l,
{
    match l {
        LogicalModel::Just(e) => quote_free(e.lhs) && quote_free(e.rhs),
        LogicalModel::Also(e, op, tail) => quote_free(e.lhs) && quote_free(e.rhs) && writable(
            *tail,
        ),
    }
}

/// One assignment written out, one space on each side of the sign.
pub open spec fn assignment_text(pair: (Seq<char>, Seq<char>)) -> Seq<char> {
    quoted(pair.0) + seq![' ', '=', ' '] + quoted(pair.1)
}

/// Assignments written out, a comma and a space between each two.
pub open spec fn assignments_text(pairs: Seq<(Seq<char>, Seq<char>)>) -> Seq<char>
    decreases pairs.len(),
{
    if pairs.len() == 0 {
        Seq::empty()
    } else if pairs.len() == 1 {
        assignment_text(pairs[0])
    } else {
        assignment_text(pairs[0]) + seq![',', ' '] + assignments_text(pairs.drop_first())
    }
}

/// Where two texts stand one behind the other, each of them stands there.
proof fn lemma_word_at_parts(s: Seq<char>, i: int, a: Seq<char>, b: Seq<char>)
    requires
        word_at(s, i, a + b),
    ensures
        word_at(s, i, a),
        word_at(s, i + a.len(), b),
{
    let whole = s.subrange(i, i + (a + b).len());
    assert forall|k: int| 0 <= k < a.len() implies s.subrange(i, i + a.len())[k] == a[k] by {
        assert(whole[k] == (a + b)[k]);
    }
    assert(s.subrange(i, i + a.len()) =~= a);
    assert forall|k: int| 0 <= k < b.len() implies s.subrange(i + a.len(), i + a.len() + b.len())[k]
        == b[k] by {
        assert(whole[a.len() + k] == (a + b)[a.len() + k]);
    }
    assert(s.subrange(i + a.len(), i + a.len() + b.len()) =~= b);
}

/// The characters of a text that stands in `s` stand in `s`.
proof fn lemma_word_at_chars(s: Seq<char>, i: int, w: Seq<char>)
    requires
        word_at(s, i, w),
    ensures
        forall|k: int| 0 <= k < w.len() ==> s[i + k] == #[trigger] w[k],
{
    assert forall|k: int| 0 <= k < w.len() implies s[i + k] == #[trigger] w[k] by {
        assert(s.subrange(i, i + w.len())[k] == w[k]);
    }
}

/// The next quote is the first one.
proof fn lemma_next_quote_is(s: Seq<char>, from: int, at: int)
    requires
        0 <= from <= at < s.len(),
        s[at] == '"',
        forall|j: int| from <= j < at ==> s[j] != '"',
    ensures
        next_quote(s, from) == at,
    decreases at - from,
{
    if from < at {
        lemma_next_quote_is(s, from + 1, at);
    }
}

/// A quoted text that stands in `s` is read as its text.
proof fn lemma_quoted_at_text(s: Seq<char>, i: int, text: Seq<char>)
    requires
        quote_free(text),
        word_at(s, i, quoted(text)),
    ensures
        quoted_at(s, i) == Some((text, i + text.len() + 2)),
        s[i] == '"',
{
    lemma_word_at_chars(s, i, quoted(text));
    let q = quoted(text);
    let n = text.len() as int;
    assert(q[0] == '"');
    assert(q[n + 1] == '"');
    assert forall|j: int| i + 1 <= j < i + 1 + text.len() implies s[j] != '"' by {
        assert(q[j - i] == text[j - i - 1]);
        assert(s[i + (j - i)] == q[j - i]);
    }
    assert(s[i + (n + 1)] == q[n + 1]);
    lemma_next_quote_is(s, i + 1, i + 1 + text.len());
    assert forall|k: int| 0 <= k < text.len() implies s.subrange(i + 1, i + 1 + text.len())[k]
        == text[k] by {
        assert(q[k + 1] == text[k]);
        assert(s[i + (k + 1)] == q[k + 1]);
    }
    assert(s.subrange(i + 1, i + 1 + text.len()) =~= text);
}

/// One space before a token is skipped, and no more.
proof fn lemma_skip_one_space(s: Seq<char>, i: int)
    requires
        0 <= i,
        i + 1 < s.len(),
        s[i] == ' ',
        !is_blank(s[i + 1]),
    ensures
        skip_blanks(s, i) == i + 1,
{
    reveal_with_fuel(skip_blanks, 2);
}

/// An equality that stands in `s` is read as itself.
proof fn lemma_equality_at_text(s: Seq<char>, i: int, e: EqualityModel)
    requires
        quote_free(e.lhs),
        quote_free(e.rhs),
        word_at(s, i, equality_text(e)),
    ensures
        equality_at(s, i) == Some((e, i + equality_text(e).len())),
        s[i] == '"',
{
    let lhs = quoted(e.lhs);
    let op = equality_op_text(e.op);
    let rhs = quoted(e.rhs);
    let sp = seq![' '];
    lemma_word_at_parts(s, i, lhs + sp + op + sp, rhs);
    lemma_word_at_parts(s, i, lhs + sp + op, sp);
    lemma_word_at_parts(s, i, lhs + sp, op);
    lemma_word_at_parts(s, i, lhs, sp);
    let a = i + lhs.len();
    lemma_quoted_at_text(s, i, e.lhs);
    lemma_word_at_chars(s, a, sp);
    lemma_word_at_chars(s, a + 1, op);
    assert(sp[0] == ' ');
    assert(op[0] == '=' || op[0] == '!');
    assert(s[a] == ' ' && s[a + 1] == op[0]);
    lemma_skip_one_space(s, a);
    lemma_word_at_two(s, a + 1, '=', '=');
    lemma_word_at_two(s, a + 1, '!', '=');
    assert(op[1] == '=');
    assert(s[a + 1 + 1] == op[1]);
    assert(equality_op_at(s, a + 1) == Some((e.op, a + 3)));
    lemma_word_at_chars(s, a + 3, sp);
    assert(s[a + 3] == ' ');
    lemma_quoted_at_text(s, a + 4, e.rhs);
    lemma_skip_one_space(s, a + 3);
}

/// Reading an expression that was written out, at the end of a text, gives
/// the expression back.
proof fn lemma_logical_from_text(s: Seq<char>, i: int, l: LogicalModel)
    requires
        writable(l),
        word_at(s, i, logical_text(l)),
        i + logical_text(l).len() == s.len(),
    ensures
        logical_from(s, i) == Some(l),
        s[i] == '"',
    decreases l,
{
    match l {
        LogicalModel::Just(e) => {
            lemma_equality_at_text(s, i, e);
        },
        LogicalModel::Also(e, op, tail) => {
            let head = equality_text(e);
            let word = logical_op_text(op);
            let rest = logical_text(*tail);
            let sp = seq![' '];
            lemma_word_at_parts(s, i, head + sp + word + sp, rest);
            lemma_word_at_parts(s, i, head + sp + word, sp);
            lemma_word_at_parts(s, i, head + sp, word);
            lemma_word_at_parts(s, i, head, sp);
            lemma_equality_at_text(s, i, e);
            let a = i + head.len();
            lemma_word_at_chars(s, a, sp);
            lemma_word_at_chars(s, a + 1, word);
            assert(sp[0] == ' ');
            assert(word[0] == 'a' || word[0] == 'o');
            assert(s[a] == ' ' && s[a + 1] == word[0]);
            lemma_skip_one_space(s, a);
            lemma_word_at_three(s, a + 1, 'a', 'n', 'd');
            lemma_word_at_two(s, a + 1, 'o', 'r');
            let c = a + 1 + word.len();
            assert(logical_op_at(s, a + 1) == Some((op, c)));
            lemma_word_at_chars(s, c, sp);
            assert(s[c] == ' ');
            lemma_logical_from_text(s, c + 1, *tail);
            lemma_skip_one_space(s, c);
        },
    }
}

/// Parsing an expression that was written out gives the expression back.
/// An operand with a double quote in it cannot be written.
pub proof fn lemma_parse_logical_of_text(l: LogicalModel)
    requires
        writable(l),
    ensures
        parse_logical(logical_text(l)) == Some(l),
{
    let s = logical_text(l);
    assert(s.subrange(0, s.len() as int) =~= s);
    lemma_logical_from_text(s, 0, l);
}

/// An assignment that stands in `s` is read as itself.
proof fn lemma_assignment_at_text(s: Seq<char>, i: int, pair: (Seq<char>, Seq<char>))
    requires
        quote_free(pair.0),
        quote_free(pair.1),
        word_at(s, i, assignment_text(pair)),
    ensures
        assignment_at(s, i) == Some((pair, i + assignment_text(pair).len())),
        s[i] == '"',
{
    let key = quoted(pair.0);
    let sign = seq![' ', '=', ' '];
    let value = quoted(pair.1);
    lemma_word_at_parts(s, i, key + sign, value);
    lemma_word_at_parts(s, i, key, sign);
    lemma_quoted_at_text(s, i, pair.0);
    let a = i + key.len();
    lemma_word_at_chars(s, a, sign);
    assert(sign[0] == ' ' && sign[1] == '=' && sign[2] == ' ');
    assert(s[a + 0] == sign[0] && s[a + 1] == sign[1] && s[a + 2] == sign[2]);
    lemma_skip_one_space(s, a);
    lemma_word_at_one(s, a + 1, '=');
    lemma_quoted_at_text(s, a + 3, pair.1);
    lemma_skip_one_space(s, a + 2);
}

/// Reading assignments that were written out, at the end of a text, gives
/// the assignments back.
proof fn lemma_assignments_from_text(s: Seq<char>, i: int, pairs: Seq<(Seq<char>, Seq<char>)>)
    requires
        pairs.len() > 0,
        forall|k: int| 0 <= k < pairs.len() ==> quote_free(pairs[k].0) && quote_free(pairs[k].1),
        word_at(s, i, assignments_text(pairs)),
        i + assignments_text(pairs).len() == s.len(),
    ensures
        assignments_from(s, i) == Some(pairs),
        s[i] == '"',
    decreases pairs.len(),
{
    if pairs.len() == 1 {
        lemma_assignment_at_text(s, i, pairs[0]);
        assert(seq![pairs[0]] =~= pairs);
    } else {
        let first = assignment_text(pairs[0]);
        let comma = seq![',', ' '];
        let rest = pairs.drop_first();
        lemma_word_at_parts(s, i, first + comma, assignments_text(rest));
        lemma_word_at_parts(s, i, first, comma);
        lemma_assignment_at_text(s, i, pairs[0]);
        let a = i + first.len();
        lemma_word_at_chars(s, a, comma);
        assert(comma[0] == ',' && comma[1] == ' ');
        assert(s[a + 0] == comma[0] && s[a + 1] == comma[1]);
        assert forall|k: int| 0 <= k < rest.len() implies quote_free(rest[k].0) && quote_free(
            rest[k].1,
        ) by {
            assert(rest[k] == pairs[k + 1]);
        }
        lemma_assignments_from_text(s, a + 2, rest);
        lemma_skip_one_space(s, a + 1);
        assert(seq![pairs[0]] + rest =~= pairs);
    }
}

/// Parsing assignments that were written out gives the assignments back. A
/// key or a value with a double quote in it cannot be written, and a tag
/// set without pairs has no text.
pub proof fn lemma_parse_assignments_of_text(pairs: Seq<(Seq<char>, Seq<char>)>)
    requires
        pairs.len() > 0,
        forall|k: int| 0 <= k < pairs.len() ==> quote_free(pairs[k].0) && quote_free(pairs[k].1),
    ensures
        parse_assignments(assignments_text(pairs)) == Some(pairs),
{
    let s = assignments_text(pairs);
    assert(s.subrange(0, s.len() as int) =~= s);
    lemma_assignments_from_text(s, 0, pairs);
}

} // verus!
