//! Parsers for the dice notation. Each reads a character buffer from a
//! position and returns what the matching rule of `grammar` gives.
use vstd::prelude::*;

use crate::generators::{
    ArithOp, ArithTermGenerator, ComparisonOp, ExprGenerator, Generator, HitsGenerator,
    PoolGenerator, PoolOp, Relation, SuccGenerator, SuccessOp, TargetOp, TermGenerator,
};
use crate::grammar::{
    arith_term_rule, at, at2, at3, bracketed, command_rule, compare_with, comparison_rule, decimal,
    digits_end, explode_after_failed, explode_rule, expr_rule, generator_rule, hits_rule, is_digit,
    letters_end, modifier_rule, number, opt_number, paren_rule, percents_end, pool_op_rule,
    pool_rule, pow10, range_rule, relation_at, skip_spaces, succ_rule, success_next_rule,
    success_rule, take_rule, target_rule, term_rule, terms_rule,
};

verus! {

/// A rule's result with positions widened to `int` and the value viewed.
pub open spec fn lifted_view<T: View>(r: Option<(usize, T)>) -> Option<(int, T::V)> {
    match r {
        Some((j, v)) => Some((j as int, v@)),
        None => None,
    }
}

/// A rule's result with positions widened to `int`.
pub open spec fn lifted<T>(r: Option<(usize, T)>) -> Option<(int, T)> {
    match r {
        Some((j, v)) => Some((j as int, v)),
        None => None,
    }
}

fn char_at(s: &Vec<char>, i: usize, c: char) -> (r: bool)
    ensures
        r == at(s@, i as int, c),
{
    i < s.len() && s[i] == c
}

fn skip_ws(s: &Vec<char>, i: usize) -> (j: usize)
    requires
        i <= s@.len() < usize::MAX,
    ensures
        j == skip_spaces(s@, i as int),
        i <= j <= s@.len(),
{
    let mut j = i;
    while j < s.len() && (s[j] == ' ' || s[j] == '\t')
        invariant
            i <= j <= s@.len(),
            skip_spaces(s@, i as int) == skip_spaces(s@, j as int),
        decreases s@.len() - j,
    {
        j = j + 1;
    }
    j
}

fn end_of_digits(s: &Vec<char>, i: usize) -> (j: usize)
    requires
        i <= s@.len() < usize::MAX,
    ensures
        j == digits_end(s@, i as int),
        i <= j <= s@.len(),
{
    let mut j = i;
    while j < s.len() && '0' <= s[j] && s[j] <= '9'
        invariant
            i <= j <= s@.len(),
            digits_end(s@, i as int) == digits_end(s@, j as int),
        decreases s@.len() - j,
    {
        j = j + 1;
    }
    j
}

fn end_of_letters(s: &Vec<char>, i: usize) -> (j: usize)
    requires
        i <= s@.len() < usize::MAX,
    ensures
        j == letters_end(s@, i as int),
        i <= j <= s@.len(),
{
    let mut j = i;
    while j < s.len() && (s[j] == 'd' || s[j] == 'D')
        invariant
            i <= j <= s@.len(),
            letters_end(s@, i as int) == letters_end(s@, j as int),
        decreases s@.len() - j,
    {
        j = j + 1;
    }
    j
}

fn end_of_percents(s: &Vec<char>, i: usize) -> (j: usize)
    requires
        i <= s@.len() < usize::MAX,
    ensures
        j == percents_end(s@, i as int),
        i <= j <= s@.len(),
{
    let mut j = i;
    while j < s.len() && s[j] == '%'
        invariant
            i <= j <= s@.len(),
            percents_end(s@, i as int) == percents_end(s@, j as int),
        decreases s@.len() - j,
    {
        j = j + 1;
    }
    j
}

proof fn lemma_digits_end_digits(s: Seq<char>, i: int, k: int)
    requires
        0 <= i <= k < digits_end(s, i),
    ensures
        is_digit(s[k]),
        k < s.len(),
    decreases k - i,
{
    if i < k {
        lemma_digits_end_digits(s, i + 1, k);
    }
}

/// Reads an unsigned number that fits an `i32`.
fn read_number(s: &Vec<char>, i: usize) -> (r: Option<(usize, i32)>)
    requires
        i <= s@.len() < usize::MAX,
    ensures
        lifted(r) == number(s@, i as int),
        r matches Some((j, _)) ==> i < j <= s@.len(),
{
    let end = end_of_digits(s, i);
    if end == i {
        return None;
    }
    let mut value: i64 = 0;
    let mut over = false;
    let mut k = i;
    while k < end
        invariant
            i <= k <= end,
            end == digits_end(s@, i as int),
            end <= s@.len(),
            !over ==> value == decimal(s@, i as int, k as int) && 0 <= value <= i32::MAX,
            over ==> decimal(s@, i as int, k as int) > i32::MAX,
        decreases end - k,
    {
        proof {
            lemma_digits_end_digits(s@, i as int, k as int);
        }
        let d = (s[k] as u32 - '0' as u32) as i64;
        if !over {
            value = value * 10 + d;
            if value > i32::MAX as i64 {
                over = true;
            }
        }
        k = k + 1;
    }
    if over {
        None
    } else {
        Some((end, value as i32))
    }
}

fn read_opt_number(s: &Vec<char>, i: usize) -> (r: Option<(usize, Option<i32>)>)
    requires
        i <= s@.len() < usize::MAX,
    ensures
        lifted(r) == opt_number(s@, i as int),
        r matches Some((j, _)) ==> i <= j <= s@.len(),
{
    let j = skip_ws(s, i);
    if end_of_digits(s, j) == j {
        Some((j, None))
    } else {
        match read_number(s, j) {
            Some((k, n)) => Some((k, Some(n))),
            None => None,
        }
    }
}

fn read_range(s: &Vec<char>, i: usize) -> (r: Option<(usize, i32)>)
    requires
        i <= s@.len() < usize::MAX,
    ensures
        lifted(r) == range_rule(s@, i as int),
        r matches Some((j, _)) ==> i < j <= s@.len(),
{
    if end_of_digits(s, i) > i {
        read_number(s, i)
    } else {
        let j = end_of_percents(s, i);
        if j == i {
            None
        } else {
            let k = j - i;
            proof {
                reveal_with_fuel(pow10, 10);
            }
            let p: i32 = if k == 1 {
                100
            } else if k == 2 {
                1000
            } else if k == 3 {
                10_000
            } else if k == 4 {
                100_000
            } else if k == 5 {
                1_000_000
            } else if k == 6 {
                10_000_000
            } else if k == 7 {
                100_000_000
            } else if k == 8 {
                1_000_000_000
            } else {
                100
            };
            Some((j, p))
        }
    }
}


fn read_explode(s: &Vec<char>, i: usize) -> (r: Option<(usize, PoolOp)>)
    requires
        i <= s@.len() < usize::MAX,
    ensures
        lifted(r) == explode_rule(s@, i as int),
        r matches Some((j, _)) ==> i <= j <= s@.len(),
{
    let (len, kind): (usize, u8) = if char_at(s, i, '!') && char_at(s, i + 1, '!') {
        (2, 0)
    } else if char_at(s, i, '!') {
        (1, 1)
    } else if char_at(s, i, '*') && char_at(s, i + 1, '*') {
        (2, 2)
    } else if char_at(s, i, '*') {
        (1, 3)
    } else {
        (0, 4)
    };
    if kind == 4 {
        return None;
    }
    match read_opt_number(s, i + len) {
        Some((j, n)) => Some(
            (
                j,
                if kind == 0 {
                    PoolOp::ExplodeUntil(n)
                } else if kind == 1 {
                    PoolOp::Explode(n)
                } else if kind == 2 {
                    PoolOp::ExplodeEachUntil(n)
                } else {
                    PoolOp::ExplodeEach(n)
                },
            ),
        ),
        None => if kind == 0 || kind == 2 {
            match read_opt_number(s, i + 1) {
                Some((j, n)) => Some(
                    (
                        j,
                        if kind == 0 {
                            PoolOp::Explode(n)
                        } else {
                            PoolOp::ExplodeEach(n)
                        },
                    ),
                ),
                None => None,
            }
        } else {
            None
        },
    }
}

fn read_modifier(s: &Vec<char>, i: usize) -> (r: Option<(usize, PoolOp)>)
    requires
        i <= s@.len() < usize::MAX,
    ensures
        lifted(r) == modifier_rule(s@, i as int),
        r matches Some((j, _)) ==> i <= j <= s@.len(),
{
    let j = skip_ws(s, i);
    if (char_at(s, j, '+') && char_at(s, j + 1, '+')) || (char_at(s, j, '-') && char_at(s, j + 1, '-')) {
        let k = skip_ws(s, j + 2);
        match read_opt_number(s, k) {
            Some((e, n)) => Some(
                (
                    e,
                    if s[j] == '+' {
                        PoolOp::AddEach(n)
                    } else {
                        PoolOp::SubEach(n)
                    },
                ),
            ),
            None => None,
        }
    } else {
        None
    }
}

fn read_take(s: &Vec<char>, i: usize) -> (r: Option<(usize, PoolOp)>)
    requires
        i <= s@.len() < usize::MAX,
    ensures
        lifted(r) == take_rule(s@, i as int),
        r matches Some((j, _)) ==> i <= j <= s@.len(),
{
    if char_at(s, i, '~') || char_at(s, i, '^') || char_at(s, i, '`') {
        match read_number(s, i + 1) {
            Some((j, n)) => Some(
                (
                    j,
                    if s[i] == '~' {
                        PoolOp::TakeMid(n)
                    } else if s[i] == '^' {
                        PoolOp::TakeHigh(n)
                    } else {
                        PoolOp::TakeLow(n)
                    },
                ),
            ),
            None => None,
        }
    } else {
        None
    }
}

fn read_command(s: &Vec<char>, i: usize) -> (r: Option<(usize, PoolOp)>)
    requires
        i <= s@.len() < usize::MAX,
    ensures
        lifted(r) == command_rule(s@, i as int),
        r matches Some((j, _)) ==> i <= j <= s@.len(),
{
    let j = skip_ws(s, i);
    if char_at(s, j, 'A') && char_at(s, j + 1, 'D') && char_at(s, j + 2, 'V') {
        Some((skip_ws(s, j + 3), PoolOp::Advantage))
    } else if char_at(s, j, 'D') && char_at(s, j + 1, 'I') && char_at(s, j + 2, 'S') {
        Some((skip_ws(s, j + 3), PoolOp::Disadvantage))
    } else if char_at(s, j, 'Y') {
        Some((skip_ws(s, j + 1), PoolOp::BestGroup))
    } else {
        None
    }
}

fn read_pool_op(s: &Vec<char>, i: usize) -> (r: Option<(usize, PoolOp)>)
    requires
        i <= s@.len() < usize::MAX,
    ensures
        lifted(r) == pool_op_rule(s@, i as int),
        r matches Some((j, _)) ==> i <= j <= s@.len(),
{
    let e = read_explode(s, i);
    if e.is_some() {
        return e;
    }
    let m = read_modifier(s, i);
    if m.is_some() {
        return m;
    }
    let t = read_take(s, i);
    if t.is_some() {
        return t;
    }
    read_command(s, i)
}

fn read_pool(s: &Vec<char>, i: usize) -> (r: Option<(usize, TermGenerator)>)
    requires
        i <= s@.len() < usize::MAX,
    ensures
        lifted(r) == pool_rule(s@, i as int),
        r matches Some((j, _)) ==> i < j <= s@.len(),
{
    let counted = if end_of_digits(s, i) > i {
        read_number(s, i)
    } else {
        Some((i, 1i32))
    };
    match counted {
        None => None,
        Some((j, count)) => {
            let k = end_of_letters(s, j);
            if k == j {
                return None;
            }
            match read_range(s, k) {
                None => None,
                Some((m, range)) => match read_pool_op(s, m) {
                    Some((e, op)) => Some(
                        (e, TermGenerator::Pool(PoolGenerator { count, range, op: Some(op) })),
                    ),
                    None => Some((m, TermGenerator::Pool(PoolGenerator { count, range, op: None }))),
                },
            }
        },
    }
}

fn read_term(s: &Vec<char>, i: usize) -> (r: Option<(usize, TermGenerator)>)
    requires
        i <= s@.len() < usize::MAX,
    ensures
        lifted(r) == term_rule(s@, i as int),
        r matches Some((j, _)) ==> i < j <= s@.len(),
{
    let p = read_pool(s, i);
    if p.is_some() {
        return p;
    }
    match read_number(s, skip_ws(s, i)) {
        Some((j, n)) => Some((j, TermGenerator::Constant(n))),
        None => None,
    }
}

fn read_arith_term(s: &Vec<char>, i: usize) -> (r: Option<(usize, ArithTermGenerator)>)
    requires
        i <= s@.len() < usize::MAX,
    ensures
        lifted(r) == arith_term_rule(s@, i as int),
        r matches Some((j, _)) ==> i < j <= s@.len(),
{
    let j = skip_ws(s, i);
    match read_term(s, j) {
        Some((k, t)) => Some((k, ArithTermGenerator { op: ArithOp::ImplicitAdd, term: t })),
        None => if char_at(s, j, '+') || char_at(s, j, '-') {
            match read_term(s, skip_ws(s, j + 1)) {
                Some((k, t)) => Some(
                    (
                        k,
                        ArithTermGenerator {
                            op: if s[j] == '+' {
                                ArithOp::Add
                            } else {
                                ArithOp::Sub
                            },
                            term: t,
                        },
                    ),
                ),
                None => None,
            }
        } else {
            None
        },
    }
}

fn read_terms(s: &Vec<char>, i: usize) -> (r: (usize, Vec<ArithTermGenerator>))
    requires
        i <= s@.len() < usize::MAX,
    ensures
        (r.0 as int, r.1@) == terms_rule(s@, i as int),
        i <= r.0 <= s@.len(),
{
    let mut terms: Vec<ArithTermGenerator> = Vec::new();
    let mut j = i;
    loop
        invariant
            i <= j <= s@.len() < usize::MAX,
            terms_rule(s@, i as int) == (terms_rule(s@, j as int).0, terms@ + terms_rule(s@, j as int).1),
        ensures
            i <= j <= s@.len(),
            terms_rule(s@, i as int) == (j as int, terms@),
        decreases s@.len() - j,
    {
        match read_arith_term(s, j) {
            Some((k, t)) => {
                let ghost rest = terms_rule(s@, k as int).1;
                proof {
                    assert(terms_rule(s@, j as int) == (terms_rule(s@, k as int).0, seq![t] + rest));
                    assert(terms@ + (seq![t] + rest) =~= terms@.push(t) + rest);
                }
                terms.push(t);
                j = k;
            },
            None => {
                assert(terms_rule(s@, j as int) == (j as int, Seq::<ArithTermGenerator>::empty()));
                assert(terms@ + Seq::<ArithTermGenerator>::empty() =~= terms@);
                break ;
            },
        }
    }
    (j, terms)
}

fn read_expr(s: &Vec<char>, i: usize) -> (r: Option<(usize, ExprGenerator)>)
    requires
        i <= s@.len() < usize::MAX,
    ensures
        lifted_view(r) == expr_rule(s@, i as int),
        r matches Some((j, _)) ==> i <= j <= s@.len(),
{
    let (j, terms) = read_terms(s, i);
    if terms.len() == 0 {
        None
    } else {
        Some((j, ExprGenerator { terms }))
    }
}

fn read_paren(s: &Vec<char>, i: usize) -> (r: Option<(usize, ExprGenerator)>)
    requires
        i <= s@.len() < usize::MAX,
    ensures
        lifted_view(r) == paren_rule(s@, i as int),
        r matches Some((j, _)) ==> i <= j <= s@.len(),
{
    let j = skip_ws(s, i);
    if char_at(s, j, '(') {
        match read_expr(s, skip_ws(s, j + 1)) {
            Some((k, e)) => {
                let m = skip_ws(s, k);
                if char_at(s, m, ')') {
                    return Some((skip_ws(s, m + 1), e));
                }
            },
            None => {},
        }
    }
    read_expr(s, i)
}

fn read_bracketed(s: &Vec<char>, i: usize, open: char, close: char) -> (r: Option<(usize, i32)>)
    requires
        i <= s@.len() < usize::MAX,
    ensures
        lifted(r) == bracketed(s@, i as int, open, close),
        r matches Some((j, _)) ==> i <= j <= s@.len(),
{
    let j = skip_ws(s, i);
    if char_at(s, j, open) {
        match read_number(s, skip_ws(s, j + 1)) {
            Some((k, n)) => {
                let m = skip_ws(s, k);
                if char_at(s, m, close) {
                    Some((m + 1, n))
                } else {
                    None
                }
            },
            None => None,
        }
    } else {
        None
    }
}

fn read_target(s: &Vec<char>, i: usize) -> (r: Option<(usize, TargetOp)>)
    requires
        i <= s@.len() < usize::MAX,
    ensures
        lifted(r) == target_rule(s@, i as int),
        r matches Some((j, _)) ==> i <= j <= s@.len(),
{
    match read_bracketed(s, i, '[', ']') {
        Some((j, n)) => Some((j, TargetOp::TargetHigh(n))),
        None => match read_bracketed(s, i, '(', ')') {
            Some((j, n)) => Some((j, TargetOp::TargetLow(n))),
            None => None,
        },
    }
}

fn read_hits(s: &Vec<char>, i: usize) -> (r: Option<(usize, HitsGenerator)>)
    requires
        i <= s@.len() < usize::MAX,
    ensures
        lifted_view(r) == hits_rule(s@, i as int),
        r matches Some((j, _)) ==> i <= j <= s@.len(),
{
    match read_paren(s, i) {
        None => None,
        Some((j, expr)) => match read_target(s, j) {
            Some((k, op)) => Some((k, HitsGenerator { expr, op: Some(op) })),
            None => Some((j, HitsGenerator { expr, op: None })),
        },
    }
}

fn read_success(s: &Vec<char>, i: usize) -> (r: Option<(usize, SuccessOp)>)
    requires
        i <= s@.len() < usize::MAX,
    ensures
        lifted(r) == success_rule(s@, i as int),
        r matches Some((j, _)) ==> i <= j <= s@.len(),
{
    match read_bracketed(s, i, '{', '}') {
        Some((j, n)) => Some((j, SuccessOp::TargetSucc(n))),
        None => None,
    }
}

fn read_success_next(s: &Vec<char>, i: usize) -> (r: Option<(usize, SuccessOp)>)
    requires
        i <= s@.len() < usize::MAX,
    ensures
        lifted(r) == success_next_rule(s@, i as int),
        r matches Some((j, _)) ==> i <= j <= s@.len(),
{
    if !char_at(s, i, '{') {
        return None;
    }
    match read_number(s, skip_ws(s, i + 1)) {
        Some((j, n)) => {
            let k = skip_ws(s, j);
            if !char_at(s, k, ',') {
                return None;
            }
            match read_number(s, skip_ws(s, k + 1)) {
                Some((m, step)) => {
                    let e = skip_ws(s, m);
                    if char_at(s, e, '}') {
                        Some((e + 1, SuccessOp::TargetSuccNext(n, step)))
                    } else {
                        None
                    }
                },
                None => None,
            }
        },
        None => None,
    }
}

fn read_succ(s: &Vec<char>, i: usize) -> (r: Option<(usize, SuccGenerator)>)
    requires
        i <= s@.len() < usize::MAX,
    ensures
        lifted_view(r) == succ_rule(s@, i as int),
        r matches Some((j, _)) ==> i <= j <= s@.len(),
{
    match read_hits(s, i) {
        None => None,
        Some((j, hits)) => {
            let op = match read_success(s, j) {
                Some(o) => Some(o),
                None => read_success_next(s, j),
            };
            match op {
                Some((k, o)) => Some((k, SuccGenerator { hits, op: Some(o) })),
                None => Some((j, SuccGenerator { hits, op: None })),
            }
        },
    }
}

fn relation_len(s: &Vec<char>, j: usize, rel: Relation) -> (n: usize)
    requires
        j <= s@.len() < usize::MAX,
    ensures
        n == relation_at(s@, j as int, rel),
        j + n <= s@.len(),
{
    match rel {
        Relation::CMP => if char_at(s, j, '<') && char_at(s, j + 1, '=') && char_at(s, j + 2, '>') {
            3
        } else {
            0
        },
        Relation::GE => if char_at(s, j, '>') && char_at(s, j + 1, '=') {
            2
        } else {
            0
        },
        Relation::LE => if char_at(s, j, '<') && char_at(s, j + 1, '=') {
            2
        } else {
            0
        },
        Relation::GT => if char_at(s, j, '>') {
            1
        } else {
            0
        },
        Relation::LT => if char_at(s, j, '<') {
            1
        } else {
            0
        },
        Relation::EQ => if char_at(s, j, '=') {
            1
        } else {
            0
        },
    }
}

fn read_compare_with(s: &Vec<char>, i: usize, rel: Relation) -> (r: Option<(usize, ComparisonOp)>)
    requires
        i <= s@.len() < usize::MAX,
    ensures
        lifted_view(r) == compare_with(s@, i as int, rel),
        r matches Some((j, _)) ==> i <= j <= s@.len(),
{
    let j = skip_ws(s, i);
    let n = relation_len(s, j, rel);
    if n == 0 {
        return None;
    }
    match read_succ(s, skip_ws(s, j + n)) {
        Some((k, rhs)) => Some(
            (
                k,
                match rel {
                    Relation::GT => ComparisonOp::GT(rhs),
                    Relation::GE => ComparisonOp::GE(rhs),
                    Relation::LT => ComparisonOp::LT(rhs),
                    Relation::LE => ComparisonOp::LE(rhs),
                    Relation::EQ => ComparisonOp::EQ(rhs),
                    Relation::CMP => ComparisonOp::CMP(rhs),
                },
            ),
        ),
        None => None,
    }
}

fn read_comparison(s: &Vec<char>, i: usize) -> (r: Option<(usize, ComparisonOp)>)
    requires
        i <= s@.len() < usize::MAX,
    ensures
        lifted_view(r) == comparison_rule(s@, i as int),
        r matches Some((j, _)) ==> i <= j <= s@.len(),
{
    let c = read_compare_with(s, i, Relation::CMP);
    if c.is_some() {
        return c;
    }
    let c = read_compare_with(s, i, Relation::GE);
    if c.is_some() {
        return c;
    }
    let c = read_compare_with(s, i, Relation::LE);
    if c.is_some() {
        return c;
    }
    let c = read_compare_with(s, i, Relation::GT);
    if c.is_some() {
        return c;
    }
    let c = read_compare_with(s, i, Relation::LT);
    if c.is_some() {
        return c;
    }
    read_compare_with(s, i, Relation::EQ)
}

fn read_generator(s: &Vec<char>, i: usize) -> (r: Option<(usize, Generator)>)
    requires
        i <= s@.len() < usize::MAX,
    ensures
        lifted_view(r) == generator_rule(s@, i as int),
        r matches Some((j, _)) ==> i <= j <= s@.len(),
{
    match read_succ(s, i) {
        None => None,
        Some((j, succ)) => match read_comparison(s, j) {
            Some((k, c)) => Some((k, Generator { succ, op: Some(c) })),
            None => Some((j, Generator { succ, op: None })),
        },
    }
}


/// The characters of `input`, in order.
pub fn chars_of(input: &str) -> (r: Vec<char>)
    ensures
        r@ == input@,
{
    let n = input.unicode_len();
    let mut r: Vec<char> = Vec::new();
    let mut i: usize = 0;
    while i < n
        invariant
            n == input@.len(),
            i <= n,
            r@ == input@.subrange(0, i as int),
        decreases n - i,
    {
        r.push(input.get_char(i));
        i = i + 1;
        assert(r@ =~= input@.subrange(0, i as int));
    }
    assert(input@.subrange(0, i as int) =~= input@);
    r
}

/// What a parser of this module returns for `input`, given what its rule
/// reads from the start: the rest of the input and the value read, or the
/// whole input when the rule does not match.
pub open spec fn parsed_as<T, V>(
    input: &str,
    rule: Option<(int, V)>,
    r: Result<(&str, T), &str>,
    view: spec_fn(T) -> V,
) -> bool {
    match rule {
        Some((j, v)) => 0 <= j <= input@.len() && (r matches Ok((rest, t)) && view(t) == v
            && rest@ == input@.subrange(j, input@.len() as int)),
        None => r matches Err(e) && e@ == input@,
    }
}

/// Splits `input` after `j` characters.
fn rest_after<'a>(input: &'a str, j: usize) -> (r: &'a str)
    requires
        j <= input@.len(),
    ensures
        r@ == input@.subrange(j as int, input@.len() as int),
{
    input.substring_char(j, input.unicode_len())
}

/// Parses a whole generator: a success generator and an optional
/// comparison.
pub fn generator_parser(input: &str) -> (r: Result<(&str, Generator), &str>)
    requires
        input@.len() < usize::MAX,
    ensures
        parsed_as(input, generator_rule(input@, 0), r, |g: Generator| g@),
{
    let s = chars_of(input);
    match read_generator(&s, 0) {
        Some((j, g)) => Ok((rest_after(input, j), g)),
        None => Err(input),
    }
}

/// Parses hits with an optional success operator.
pub fn succ_gen_parser(input: &str) -> (r: Result<(&str, SuccGenerator), &str>)
    requires
        input@.len() < usize::MAX,
    ensures
        parsed_as(input, succ_rule(input@, 0), r, |g: SuccGenerator| g@),
{
    let s = chars_of(input);
    match read_succ(&s, 0) {
        Some((j, g)) => Ok((rest_after(input, j), g)),
        None => Err(input),
    }
}

/// Parses an expression, in parentheses or not, with an optional target.
pub fn hits_parser(input: &str) -> (r: Result<(&str, HitsGenerator), &str>)
    requires
        input@.len() < usize::MAX,
    ensures
        parsed_as(input, hits_rule(input@, 0), r, |g: HitsGenerator| g@),
{
    let s = chars_of(input);
    match read_hits(&s, 0) {
        Some((j, g)) => Ok((rest_after(input, j), g)),
        None => Err(input),
    }
}

/// Parses one term or more.
pub fn expr_parser(input: &str) -> (r: Result<(&str, ExprGenerator), &str>)
    requires
        input@.len() < usize::MAX,
    ensures
        parsed_as(input, expr_rule(input@, 0), r, |g: ExprGenerator| g@),
{
    let s = chars_of(input);
    match read_expr(&s, 0) {
        Some((j, g)) => Ok((rest_after(input, j), g)),
        None => Err(input),
    }
}

/// Parses a pool or a constant.
pub fn term_parser(input: &str) -> (r: Result<(&str, TermGenerator), &str>)
    requires
        input@.len() < usize::MAX,
    ensures
        parsed_as(input, term_rule(input@, 0), r, |t: TermGenerator| t),
{
    let s = chars_of(input);
    match read_term(&s, 0) {
        Some((j, t)) => Ok((rest_after(input, j), t)),
        None => Err(input),
    }
}

/// Parses the sides of a die: digits, or `%` signs (`%` is 100, `%%` is
/// 1000, and so on).
pub fn range_parser(input: &str) -> (r: Result<(&str, i32), &str>)
    requires
        input@.len() < usize::MAX,
    ensures
        parsed_as(input, range_rule(input@, 0), r, |n: i32| n),
{
    let s = chars_of(input);
    match read_range(&s, 0) {
        Some((j, n)) => Ok((rest_after(input, j), n)),
        None => Err(input),
    }
}

/// Parses `[n]` or `(n)`.
pub fn tgt_op_parser(input: &str) -> (r: Result<(&str, TargetOp), &str>)
    requires
        input@.len() < usize::MAX,
    ensures
        parsed_as(input, target_rule(input@, 0), r, |t: TargetOp| t),
{
    let s = chars_of(input);
    match read_target(&s, 0) {
        Some((j, t)) => Ok((rest_after(input, j), t)),
        None => Err(input),
    }
}

/// Parses `{n}`.
pub fn succ_op_parser(input: &str) -> (r: Result<(&str, SuccessOp), &str>)
    requires
        input@.len() < usize::MAX,
    ensures
        parsed_as(input, success_rule(input@, 0), r, |t: SuccessOp| t),
{
    let s = chars_of(input);
    match read_success(&s, 0) {
        Some((j, t)) => Ok((rest_after(input, j), t)),
        None => Err(input),
    }
}

/// Parses `{n, m}`.
pub fn succ_next_op_parser(input: &str) -> (r: Result<(&str, SuccessOp), &str>)
    requires
        input@.len() < usize::MAX,
    ensures
        parsed_as(input, success_next_rule(input@, 0), r, |t: SuccessOp| t),
{
    let s = chars_of(input);
    match read_success_next(&s, 0) {
        Some((j, t)) => Ok((rest_after(input, j), t)),
        None => Err(input),
    }
}

/// Parses a pool operator.
pub fn pool_op_parser(input: &str) -> (r: Result<(&str, PoolOp), &str>)
    requires
        input@.len() < usize::MAX,
    ensures
        parsed_as(input, pool_op_rule(input@, 0), r, |t: PoolOp| t),
{
    let s = chars_of(input);
    match read_pool_op(&s, 0) {
        Some((j, t)) => Ok((rest_after(input, j), t)),
        None => Err(input),
    }
}

/// Parses whitespace and, if digits follow, a number.
pub fn optional_num_parser(input: &str) -> (r: Result<(&str, Option<i32>), &str>)
    requires
        input@.len() < usize::MAX,
    ensures
        parsed_as(input, opt_number(input@, 0), r, |t: Option<i32>| t),
{
    let s = chars_of(input);
    match read_opt_number(&s, 0) {
        Some((j, t)) => Ok((rest_after(input, j), t)),
        None => Err(input),
    }
}

} // verus!
