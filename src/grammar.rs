//! The dice notation, as spec functions over characters.
//!
//! Each rule reads the text `s` from position `i` and gives the position
//! after what it read together with what it read, or `None` when the text
//! there does not match. Alternatives are tried in order and the first that
//! matches wins; optional parts are read when they match and skipped when
//! they do not. Whitespace means spaces and tabs.
use vstd::prelude::*;

use crate::generators::{
    ArithOp, ArithTermGenerator, GeneratorModel, HitsModel, PoolGenerator, PoolOp, Relation,
    SuccModel, SuccessOp, TargetOp, TermGenerator,
};

verus! {

pub open spec fn is_space(c: char) -> bool {
    c == ' ' || c == '\t'
}

pub open spec fn is_digit(c: char) -> bool {
    '0' <= c <= '9'
}

pub open spec fn is_dice_letter(c: char) -> bool {
    c == 'd' || c == 'D'
}

/// The character at `i` is `c`.
pub open spec fn at(s: Seq<char>, i: int, c: char) -> bool {
    0 <= i < s.len() && s[i] == c
}

/// The position after the whitespace that starts at `i`.
pub open spec fn skip_spaces(s: Seq<char>, i: int) -> int
    decreases s.len() - i,
{
    if 0 <= i < s.len() && is_space(s[i]) {
        skip_spaces(s, i + 1)
    } else {
        i
    }
}

/// The position after the digits that start at `i`.
pub open spec fn digits_end(s: Seq<char>, i: int) -> int
    decreases s.len() - i,
{
    if 0 <= i < s.len() && is_digit(s[i]) {
        digits_end(s, i + 1)
    } else {
        i
    }
}

/// The position after the dice letters that start at `i`.
pub open spec fn letters_end(s: Seq<char>, i: int) -> int
    decreases s.len() - i,
{
    if 0 <= i < s.len() && is_dice_letter(s[i]) {
        letters_end(s, i + 1)
    } else {
        i
    }
}

/// The position after the `%` signs that start at `i`.
pub open spec fn percents_end(s: Seq<char>, i: int) -> int
    decreases s.len() - i,
{
    if 0 <= i < s.len() && s[i] == '%' {
        percents_end(s, i + 1)
    } else {
        i
    }
}

/// The decimal number written by the digits `s[i..j]`.
pub open spec fn decimal(s: Seq<char>, i: int, j: int) -> int
    decreases j - i,
{
    if j <= i {
        0
    } else {
        decimal(s, i, j - 1) * 10 + (s[j - 1] as int - '0' as int)
    }
}

pub open spec fn pow10(k: nat) -> int
    decreases k,
{
    if k == 0 {
        1
    } else {
        10 * pow10((k - 1) as nat)
    }
}

/// The range written by `k` percent signs: `10^(k+1)`, or 100 where that
/// does not fit an `i32`.
pub open spec fn percent_range(k: int) -> int {
    if 1 <= k <= 8 {
        pow10((k + 1) as nat)
    } else {
        100
    }
}

/// An unsigned number: one digit or more, whose value fits an `i32`.
pub open spec fn number(s: Seq<char>, i: int) -> Option<(int, i32)> {
    let j = digits_end(s, i);
    if j == i || decimal(s, i, j) > i32::MAX {
        None
    } else {
        Some((j, decimal(s, i, j) as i32))
    }
}

/// Whitespace, then a number if digits follow.
pub open spec fn opt_number(s: Seq<char>, i: int) -> Option<(int, Option<i32>)> {
    let j = skip_spaces(s, i);
    if digits_end(s, j) == j {
        Some((j, None))
    } else {
        match number(s, j) {
            Some((k, n)) => Some((k, Some(n))),
            None => None,
        }
    }
}

/// The sides of a die: a number, or a run of `%` signs.
pub open spec fn range_rule(s: Seq<char>, i: int) -> Option<(int, i32)> {
    if digits_end(s, i) > i {
        number(s, i)
    } else {
        let j = percents_end(s, i);
        if j == i {
            None
        } else {
            Some((j, percent_range(j - i) as i32))
        }
    }
}

/// The symbol `a b` at `i`.
pub open spec fn at2(s: Seq<char>, i: int, a: char, b: char) -> bool {
    at(s, i, a) && at(s, i + 1, b)
}

/// The symbol `a b c` at `i`.
pub open spec fn at3(s: Seq<char>, i: int, a: char, b: char, c: char) -> bool {
    at(s, i, a) && at(s, i + 1, b) && at(s, i + 2, c)
}

/// `!!`, `!`, `**` or `*`, each followed by an optional threshold.
pub open spec fn explode_rule(s: Seq<char>, i: int) -> Option<(int, PoolOp)> {
    let (len, kind) = if at2(s, i, '!', '!') {
        (2int, 0int)
    } else if at(s, i, '!') {
        (1, 1)
    } else if at2(s, i, '*', '*') {
        (2, 2)
    } else if at(s, i, '*') {
        (1, 3)
    } else {
        (0, 4)
    };
    if kind == 4 {
        None
    } else {
        match opt_number(s, i + len) {
            Some((j, n)) => Some(
                (
                    j,
                    if kind == 0 {
                        PoolOp::ExplodeUntil(n)
                    } else if kind == 1 {
                        PoolOp::Explode(n)
                    } else if kind == 2 {
                        PoolOp::ExplodeEachUntil(n)
                    } else {
                        PoolOp::ExplodeEach(n)
                    },
                ),
            ),
            None => if kind == 0 {
                explode_after_failed(s, i, 1)
            } else if kind == 2 {
                explode_after_failed(s, i, 3)
            } else {
                None
            },
        }
    }
}

/// The single-symbol alternative tried after its doubled form failed.
pub open spec fn explode_after_failed(s: Seq<char>, i: int, kind: int) -> Option<(int, PoolOp)> {
    match opt_number(s, i + 1) {
        Some((j, n)) => Some(
            (
                j,
                if kind == 1 {
                    PoolOp::Explode(n)
                } else {
                    PoolOp::ExplodeEach(n)
                },
            ),
        ),
        None => None,
    }
}

/// `++` or `--` with whitespace around it, and an optional amount.
pub open spec fn modifier_rule(s: Seq<char>, i: int) -> Option<(int, PoolOp)> {
    let j = skip_spaces(s, i);
    if at2(s, j, '+', '+') || at2(s, j, '-', '-') {
        match opt_number(s, skip_spaces(s, j + 2)) {
            Some((k, n)) => Some(
                (
                    k,
                    if s[j] == '+' {
                        PoolOp::AddEach(n)
                    } else {
                        PoolOp::SubEach(n)
                    },
                ),
            ),
            None => None,
        }
    } else {
        None
    }
}

/// `~n`, `^n` or `` `n ``: keep the middle, high or low `n` dice.
pub open spec fn take_rule(s: Seq<char>, i: int) -> Option<(int, PoolOp)> {
    if at(s, i, '~') || at(s, i, '^') || at(s, i, '`') {
        match number(s, i + 1) {
            Some((j, n)) => Some(
                (
                    j,
                    if s[i] == '~' {
                        PoolOp::TakeMid(n)
                    } else if s[i] == '^' {
                        PoolOp::TakeHigh(n)
                    } else {
                        PoolOp::TakeLow(n)
                    },
                ),
            ),
            None => None,
        }
    } else {
        None
    }
}

/// `ADV`, `DIS` or `Y`, with whitespace around it.
pub open spec fn command_rule(s: Seq<char>, i: int) -> Option<(int, PoolOp)> {
    let j = skip_spaces(s, i);
    if at3(s, j, 'A', 'D', 'V') {
        Some((skip_spaces(s, j + 3), PoolOp::Advantage))
    } else if at3(s, j, 'D', 'I', 'S') {
        Some((skip_spaces(s, j + 3), PoolOp::Disadvantage))
    } else if at(s, j, 'Y') {
        Some((skip_spaces(s, j + 1), PoolOp::BestGroup))
    } else {
        None
    }
}

/// Any pool operator.
pub open spec fn pool_op_rule(s: Seq<char>, i: int) -> Option<(int, PoolOp)> {
    if explode_rule(s, i) is Some {
        explode_rule(s, i)
    } else if modifier_rule(s, i) is Some {
        modifier_rule(s, i)
    } else if take_rule(s, i) is Some {
        take_rule(s, i)
    } else {
        command_rule(s, i)
    }
}

/// A pool: an optional count (1 if absent), dice letters, a range and an
/// optional operator.
pub open spec fn pool_rule(s: Seq<char>, i: int) -> Option<(int, TermGenerator)> {
    let counted = if digits_end(s, i) > i {
        number(s, i)
    } else {
        Some((i, 1i32))
    };
    match counted {
        None => None,
        Some((j, count)) => {
            let k = letters_end(s, j);
            if k == j {
                None
            } else {
                match range_rule(s, k) {
                    None => None,
                    Some((m, range)) => match pool_op_rule(s, m) {
                        Some((e, op)) => Some(
                            (e, TermGenerator::Pool(PoolGenerator { count, range, op: Some(op) })),
                        ),
                        None => Some(
                            (m, TermGenerator::Pool(PoolGenerator { count, range, op: None })),
                        ),
                    },
                }
            }
        },
    }
}

/// A term: a pool, else whitespace and a constant.
pub open spec fn term_rule(s: Seq<char>, i: int) -> Option<(int, TermGenerator)> {
    if pool_rule(s, i) is Some {
        pool_rule(s, i)
    } else {
        match number(s, skip_spaces(s, i)) {
            Some((j, n)) => Some((j, TermGenerator::Constant(n))),
            None => None,
        }
    }
}

/// A term with how it joins the expression: whitespace and a term (an
/// implicit addition), else `+` or `-` with whitespace around it and a term.
pub open spec fn arith_term_rule(s: Seq<char>, i: int) -> Option<(int, ArithTermGenerator)> {
    let j = skip_spaces(s, i);
    match term_rule(s, j) {
        Some((k, t)) => Some((k, ArithTermGenerator { op: ArithOp::ImplicitAdd, term: t })),
        None => if at(s, j, '+') || at(s, j, '-') {
            match term_rule(s, skip_spaces(s, j + 1)) {
                Some((k, t)) => Some(
                    (
                        k,
                        ArithTermGenerator {
                            op: if s[j] == '+' {
                                ArithOp::Add
                            } else {
                                ArithOp::Sub
                            },
                            term: t,
                        },
                    ),
                ),
                None => None,
            }
        } else {
            None
        },
    }
}

/// As many terms as follow each other from `i`.
pub open spec fn terms_rule(s: Seq<char>, i: int) -> (int, Seq<ArithTermGenerator>)
    decreases s.len() - i,
{
    match arith_term_rule(s, i) {
        Some((j, t)) => if i < j <= s.len() {
            let (k, rest) = terms_rule(s, j);
            (k, seq![t] + rest)
        } else {
            (i, Seq::empty())
        },
        None => (i, Seq::empty()),
    }
}

/// An expression: one term or more.
pub open spec fn expr_rule(s: Seq<char>, i: int) -> Option<(int, Seq<ArithTermGenerator>)> {
    let (j, terms) = terms_rule(s, i);
    if terms.len() == 0 {
        None
    } else {
        Some((j, terms))
    }
}

/// An expression in parentheses, with whitespace around them, else a bare
/// expression.
pub open spec fn paren_rule(s: Seq<char>, i: int) -> Option<(int, Seq<ArithTermGenerator>)> {
    let j = skip_spaces(s, i);
    let inner = if at(s, j, '(') {
        match expr_rule(s, skip_spaces(s, j + 1)) {
            Some((k, e)) => {
                let m = skip_spaces(s, k);
                if at(s, m, ')') {
                    Some((skip_spaces(s, m + 1), e))
                } else {
                    None
                }
            },
            None => None,
        }
    } else {
        None
    };
    if inner is Some {
        inner
    } else {
        expr_rule(s, i)
    }
}

/// A number between the delimiters `open` and `close`, with whitespace before
/// `open` and inside them.
pub open spec fn bracketed(s: Seq<char>, i: int, open: char, close: char) -> Option<(int, i32)> {
    let j = skip_spaces(s, i);
    if at(s, j, open) {
        match number(s, skip_spaces(s, j + 1)) {
            Some((k, n)) => {
                let m = skip_spaces(s, k);
                if at(s, m, close) {
                    Some((m + 1, n))
                } else {
                    None
                }
            },
            None => None,
        }
    } else {
        None
    }
}

/// `[n]` or `(n)`.
pub open spec fn target_rule(s: Seq<char>, i: int) -> Option<(int, TargetOp)> {
    match bracketed(s, i, '[', ']') {
        Some((j, n)) => Some((j, TargetOp::TargetHigh(n))),
        None => match bracketed(s, i, '(', ')') {
            Some((j, n)) => Some((j, TargetOp::TargetLow(n))),
            None => None,
        },
    }
}

pub open spec fn hits_rule(s: Seq<char>, i: int) -> Option<(int, HitsModel)> {
    match paren_rule(s, i) {
        None => None,
        Some((j, terms)) => match target_rule(s, j) {
            Some((k, op)) => Some((k, HitsModel { terms, op: Some(op) })),
            None => Some((j, HitsModel { terms, op: None })),
        },
    }
}

/// `{n}`.
pub open spec fn success_rule(s: Seq<char>, i: int) -> Option<(int, SuccessOp)> {
    match bracketed(s, i, '{', '}') {
        Some((j, n)) => Some((j, SuccessOp::TargetSucc(n))),
        None => None,
    }
}

/// `{n, m}`, with whitespace inside the braces.
pub open spec fn success_next_rule(s: Seq<char>, i: int) -> Option<(int, SuccessOp)> {
    if at(s, i, '{') {
        match number(s, skip_spaces(s, i + 1)) {
            Some((j, n)) => {
                let k = skip_spaces(s, j);
                if at(s, k, ',') {
                    match number(s, skip_spaces(s, k + 1)) {
                        Some((m, step)) => {
                            let e = skip_spaces(s, m);
                            if at(s, e, '}') {
                                Some((e + 1, SuccessOp::TargetSuccNext(n, step)))
                            } else {
                                None
                            }
                        },
                        None => None,
                    }
                } else {
                    None
                }
            },
            None => None,
        }
    } else {
        None
    }
}

pub open spec fn succ_rule(s: Seq<char>, i: int) -> Option<(int, SuccModel)> {
    match hits_rule(s, i) {
        None => None,
        Some((j, hits)) => {
            let op = if success_rule(s, j) is Some {
                success_rule(s, j)
            } else {
                success_next_rule(s, j)
            };
            match op {
                Some((k, o)) => Some((k, SuccModel { hits, op: Some(o) })),
                None => Some((j, SuccModel { hits, op: None })),
            }
        },
    }
}

/// The symbol of a relation, and its length.
pub open spec fn relation_at(s: Seq<char>, j: int, rel: Relation) -> int {
    match rel {
        Relation::CMP => if at3(s, j, '<', '=', '>') { 3 } else { 0 },
        Relation::GE => if at2(s, j, '>', '=') { 2 } else { 0 },
        Relation::LE => if at2(s, j, '<', '=') { 2 } else { 0 },
        Relation::GT => if at(s, j, '>') { 1 } else { 0 },
        Relation::LT => if at(s, j, '<') { 1 } else { 0 },
        Relation::EQ => if at(s, j, '=') { 1 } else { 0 },
    }
}

/// One alternative of a comparison: the relation's symbol with whitespace
/// around it, then the right-hand side.
pub open spec fn compare_with(s: Seq<char>, i: int, rel: Relation) -> Option<(int, (Relation, SuccModel))> {
    let j = skip_spaces(s, i);
    let n = relation_at(s, j, rel);
    if n == 0 {
        None
    } else {
        match succ_rule(s, skip_spaces(s, j + n)) {
            Some((k, rhs)) => Some((k, (rel, rhs))),
            None => None,
        }
    }
}

/// A comparison; the relations are tried as `<=>`, `>=`, `<=`, `>`, `<`, `=`.
pub open spec fn comparison_rule(s: Seq<char>, i: int) -> Option<(int, (Relation, SuccModel))> {
    if compare_with(s, i, Relation::CMP) is Some {
        compare_with(s, i, Relation::CMP)
    } else if compare_with(s, i, Relation::GE) is Some {
        compare_with(s, i, Relation::GE)
    } else if compare_with(s, i, Relation::LE) is Some {
        compare_with(s, i, Relation::LE)
    } else if compare_with(s, i, Relation::GT) is Some {
        compare_with(s, i, Relation::GT)
    } else if compare_with(s, i, Relation::LT) is Some {
        compare_with(s, i, Relation::LT)
    } else {
        compare_with(s, i, Relation::EQ)
    }
}

pub open spec fn generator_rule(s: Seq<char>, i: int) -> Option<(int, GeneratorModel)> {
    match succ_rule(s, i) {
        None => None,
        Some((j, succ)) => match comparison_rule(s, j) {
            Some((k, c)) => Some((k, GeneratorModel { succ, op: Some(c) })),
            None => Some((j, GeneratorModel { succ, op: None })),
        },
    }
}

} // verus!
