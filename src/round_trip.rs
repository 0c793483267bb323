//! Rendered text parses back: the grammar reads the canonical text of a tree
//! as the same tree, up to implicit additions after the first term, which
//! are written (and so read back) as explicit additions.
use vstd::prelude::*;

use crate::generators::{
    ArithOp, ArithTermGenerator, GeneratorModel, HitsModel, PoolGenerator, PoolOp, Relation,
    SuccModel, SuccessOp, TargetOp, TermGenerator,
};
use crate::grammar::{
    arith_term_rule, at, bracketed, command_rule, compare_with, comparison_rule, decimal,
    digits_end, explode_rule, generator_rule, hits_rule, is_digit, is_space, letters_end,
    modifier_rule, number, opt_number, paren_rule, pool_op_rule, pool_rule, range_rule,
    relation_at, skip_spaces, succ_rule, success_next_rule, success_rule, take_rule,
    target_rule, term_rule, terms_rule, expr_rule,
};
use crate::render::{
    arith_term_text, digit_char, generator_text, hits_text, int_text, nat_text, opt_text,
    pool_op_text, pool_text, succ_text, success_text, target_text, term_text, terms_text,
};

verus! {

/// `t` stands in `s` from position `i` on.
pub open spec fn text_at(s: Seq<char>, i: int, t: Seq<char>) -> bool {
    0 <= i && i + t.len() <= s.len() && s.subrange(i, i + t.len()) == t
}

proof fn lemma_text_at_index(s: Seq<char>, i: int, t: Seq<char>, k: int)
    requires
        text_at(s, i, t),
        0 <= k < t.len(),
    ensures
        s[i + k] == t[k],
{
    assert(s.subrange(i, i + t.len())[k] == s[i + k]);
}

proof fn lemma_text_at_split(s: Seq<char>, i: int, a: Seq<char>, b: Seq<char>)
    requires
        text_at(s, i, a + b),
    ensures
        text_at(s, i, a),
        text_at(s, i + a.len(), b),
{
    assert forall|k: int| 0 <= k < a.len() implies s.subrange(i, i + a.len())[k] == a[k] by {
        lemma_text_at_index(s, i, a + b, k);
    }
    assert(s.subrange(i, i + a.len()) =~= a);
    assert forall|k: int| 0 <= k < b.len() implies s.subrange(i + a.len(), i + a.len() + b.len())[k]
        == b[k] by {
        lemma_text_at_index(s, i, a + b, a.len() + k);
    }
    assert(s.subrange(i + a.len(), i + a.len() + b.len()) =~= b);
}

proof fn lemma_nat_text_digits(n: nat)
    ensures
        nat_text(n).len() >= 1,
        forall|k: int| 0 <= k < nat_text(n).len() ==> is_digit(#[trigger] nat_text(n)[k]),
    decreases n,
{
    if n >= 10 {
        lemma_nat_text_digits(n / 10);
    }
}

proof fn lemma_digits_end_at(s: Seq<char>, i: int, k: int)
    requires
        0 <= i <= k <= s.len(),
        forall|m: int| i <= m < k ==> is_digit(#[trigger] s[m]),
        k == s.len() || !is_digit(s[k]),
    ensures
        digits_end(s, i) == k,
    decreases k - i,
{
    if i < k {
        lemma_digits_end_at(s, i + 1, k);
    }
}

proof fn lemma_decimal_of_text(s: Seq<char>, i: int, n: nat)
    requires
        text_at(s, i, nat_text(n)),
    ensures
        decimal(s, i, i + nat_text(n).len()) == n,
    decreases n,
{
    let t = nat_text(n);
    let d = (n % 10) as int;
    if n < 10 {
        lemma_text_at_index(s, i, t, 0);
        assert(decimal(s, i, i) == 0);
    } else {
        let head = nat_text(n / 10);
        assert(t == head + seq![digit_char(d)]);
        lemma_text_at_split(s, i, head, seq![digit_char(d)]);
        lemma_decimal_of_text(s, i, n / 10);
        lemma_text_at_index(s, i + head.len(), seq![digit_char(d)], 0);
    }
}

/// A number written by the renderer, followed by no digit, reads back.
proof fn lemma_read_number(s: Seq<char>, i: int, n: int)
    requires
        0 <= n <= i32::MAX,
        text_at(s, i, int_text(n)),
        i + int_text(n).len() == s.len() || !is_digit(s[i + int_text(n).len()]),
    ensures
        number(s, i) == Some((i + int_text(n).len(), n as i32)),
{
    let t = nat_text(n as nat);
    lemma_nat_text_digits(n as nat);
    assert forall|m: int| i <= m < i + t.len() implies is_digit(#[trigger] s[m]) by {
        lemma_text_at_index(s, i, t, m - i);
    }
    lemma_digits_end_at(s, i, i + t.len());
    lemma_decimal_of_text(s, i, n as nat);
}


pub open spec fn is_relation_char(c: char) -> bool {
    c == '>' || c == '<' || c == '='
}

/// What may follow a success generator in rendered text: the end, or a
/// space and a relation.
pub open spec fn succ_follow(s: Seq<char>, p: int) -> bool {
    p == s.len() || (0 <= p && p + 1 < s.len() && s[p] == ' ' && is_relation_char(s[p + 1]))
}

/// What may follow hits: that, or a success operator.
pub open spec fn hits_follow(s: Seq<char>, p: int) -> bool {
    succ_follow(s, p) || (0 <= p < s.len() && s[p] == '{')
}

/// What may follow an expression: that, or a target.
pub open spec fn expr_follow(s: Seq<char>, p: int) -> bool {
    hits_follow(s, p) || (0 <= p < s.len() && (s[p] == '[' || s[p] == '('))
}

/// What may follow a term: that, or the next term's ` + ` or ` - `.
pub open spec fn term_follow(s: Seq<char>, p: int) -> bool {
    expr_follow(s, p) || (0 <= p && p + 2 < s.len() && s[p] == ' ' && (s[p + 1] == '+' || s[p + 1]
        == '-') && s[p + 2] == ' ')
}

/// `e` lies between `p` and the end of the whitespace at `p`.
pub open spec fn within_spaces(s: Seq<char>, p: int, e: int) -> bool {
    p <= e <= skip_spaces(s, p)
}

proof fn lemma_skip_bounds(s: Seq<char>, p: int)
    requires
        0 <= p <= s.len(),
    ensures
        p <= skip_spaces(s, p) <= s.len(),
        skip_spaces(s, skip_spaces(s, p)) == skip_spaces(s, p),
    decreases s.len() - p,
{
    if p < s.len() && is_space(s[p]) {
        lemma_skip_bounds(s, p + 1);
    }
}

/// Under a term's follow context the whitespace is at most one space.
proof fn lemma_follow(s: Seq<char>, p: int)
    requires
        term_follow(s, p),
    ensures
        0 <= p <= s.len(),
        skip_spaces(s, p) == if p < s.len() && s[p] == ' ' {
            p + 1
        } else {
            p
        },
        within_spaces(s, p, p),
{
    if p < s.len() && s[p] == ' ' {
        assert(skip_spaces(s, p + 1) == p + 1);
    }
}

/// Positions within the whitespace of a follow context skip to the same
/// place.
proof fn lemma_within(s: Seq<char>, p: int, e: int)
    requires
        term_follow(s, p),
        within_spaces(s, p, e),
    ensures
        skip_spaces(s, e) == skip_spaces(s, p),
        e == p || (e == p + 1 && s[p] == ' '),
        e <= s.len(),
{
    lemma_follow(s, p);
}

pub open spec fn writable_opt(n: Option<i32>) -> bool {
    match n {
        Some(k) => k >= 0,
        None => true,
    }
}

/// An operator whose numbers are not negative.
pub open spec fn writable_op(op: PoolOp) -> bool {
    match op {
        PoolOp::Explode(n) => writable_opt(n),
        PoolOp::ExplodeUntil(n) => writable_opt(n),
        PoolOp::ExplodeEach(n) => writable_opt(n),
        PoolOp::ExplodeEachUntil(n) => writable_opt(n),
        PoolOp::AddEach(n) => writable_opt(n),
        PoolOp::SubEach(n) => writable_opt(n),
        PoolOp::TakeMid(k) => k >= 0,
        PoolOp::TakeLow(k) => k >= 0,
        PoolOp::TakeHigh(k) => k >= 0,
        _ => true,
    }
}

/// A term whose numbers are not negative.
pub open spec fn writable_term(t: TermGenerator) -> bool {
    match t {
        TermGenerator::Pool(p) => p.count >= 0 && p.range >= 0 && match p.op {
            Some(op) => writable_op(op),
            None => true,
        },
        TermGenerator::Constant(n) => n >= 0,
    }
}

proof fn lemma_read_opt_number(s: Seq<char>, i: int, n: Option<i32>)
    requires
        writable_opt(n),
        text_at(s, i, opt_text(n)),
        term_follow(s, i + opt_text(n).len()),
    ensures
        opt_number(s, i) matches Some((e, m)) && m == n && within_spaces(
            s,
            i + opt_text(n).len(),
            e,
        ),
{
    match n {
        Some(k) => {
            lemma_nat_text_digits(k as nat);
            lemma_text_at_index(s, i, opt_text(n), 0);
            lemma_read_number(s, i, k as int);
            lemma_skip_bounds(s, i + opt_text(n).len());
        },
        None => {
            lemma_follow(s, i);
            lemma_skip_bounds(s, i);
        },
    }
}

/// No pool operator starts where a term's follow context does.
proof fn lemma_no_pool_op(s: Seq<char>, p: int)
    requires
        term_follow(s, p),
    ensures
        pool_op_rule(s, p) is None,
{
    lemma_follow(s, p);
    if p < s.len() && s[p] == ' ' {
        assert(skip_spaces(s, p + 1) == p + 1);
    }
}

#[verifier::spinoff_prover]
#[verifier::rlimit(60)]
proof fn lemma_read_pool_op(s: Seq<char>, i: int, op: PoolOp)
    requires
        writable_op(op),
        text_at(s, i, pool_op_text(op)),
        term_follow(s, i + pool_op_text(op).len()),
    ensures
        pool_op_rule(s, i) matches Some((e, o)) && o == op && within_spaces(
            s,
            i + pool_op_text(op).len(),
            e,
        ),
{
    let t = pool_op_text(op);
    let p = i + t.len();
    lemma_text_at_index(s, i, t, 0);
    if t.len() > 1 {
        lemma_text_at_index(s, i, t, 1);
    }
    if t.len() > 2 {
        lemma_text_at_index(s, i, t, 2);
    }
    if t.len() > 3 {
        lemma_text_at_index(s, i, t, 3);
    }
    lemma_follow(s, p);
    lemma_skip_bounds(s, p);
    match op {
        PoolOp::Explode(n) => {
            lemma_text_at_split(s, i, seq!['!'], opt_text(n));
            lemma_read_opt_number(s, i + 1, n);
            if n is Some {
                lemma_nat_text_digits(n->Some_0 as nat);
            }
        },
        PoolOp::ExplodeUntil(n) => {
            lemma_text_at_split(s, i, seq!['!', '!'], opt_text(n));
            lemma_read_opt_number(s, i + 2, n);
        },
        PoolOp::ExplodeEach(n) => {
            lemma_text_at_split(s, i, seq!['*'], opt_text(n));
            lemma_read_opt_number(s, i + 1, n);
            if n is Some {
                lemma_nat_text_digits(n->Some_0 as nat);
            }
        },
        PoolOp::ExplodeEachUntil(n) => {
            lemma_text_at_split(s, i, seq!['*', '*'], opt_text(n));
            lemma_read_opt_number(s, i + 2, n);
        },
        PoolOp::AddEach(n) | PoolOp::SubEach(n) => {
            let sym = if op is AddEach {
                seq!['+', '+']
            } else {
                seq!['-', '-']
            };
            assert(t == sym + opt_text(n));
            lemma_text_at_split(s, i, sym, opt_text(n));
            lemma_read_opt_number(s, i + 2, n);
            assert(skip_spaces(s, i) == i);
            if n is Some {
                lemma_nat_text_digits(n->Some_0 as nat);
                assert(skip_spaces(s, i + 2) == i + 2);
            } else {
                lemma_skip_bounds(s, i + 2);
            }
        },
        PoolOp::TakeMid(k) | PoolOp::TakeLow(k) | PoolOp::TakeHigh(k) => {
            let sym = if op is TakeMid {
                seq!['~']
            } else if op is TakeLow {
                seq!['`']
            } else {
                seq!['^']
            };
            assert(t == sym + int_text(k as int));
            lemma_text_at_split(s, i, sym, int_text(k as int));
            lemma_nat_text_digits(k as nat);
            lemma_read_number(s, i + 1, k as int);
            assert(skip_spaces(s, i) == i);
        },
        PoolOp::Disadvantage | PoolOp::Advantage => {
            assert(skip_spaces(s, i + 1) == i + 1);
            assert(skip_spaces(s, i) == i + 1);
        },
        PoolOp::BestGroup => {
            assert(skip_spaces(s, i) == i);
        },
    }
}


proof fn lemma_op_text_not_digit(op: PoolOp)
    ensures
        pool_op_text(op).len() >= 1,
        !is_digit(pool_op_text(op)[0]),
{
}

proof fn lemma_term_text_first(t: TermGenerator)
    requires
        writable_term(t),
    ensures
        term_text(t).len() >= 1,
        is_digit(term_text(t)[0]),
{
    match t {
        TermGenerator::Pool(p) => {
            lemma_nat_text_digits(p.count as nat);
        },
        TermGenerator::Constant(n) => {
            lemma_nat_text_digits(n as nat);
        },
    }
}

#[verifier::spinoff_prover]
#[verifier::rlimit(60)]
proof fn lemma_read_pool(s: Seq<char>, i: int, pg: PoolGenerator)
    requires
        writable_term(TermGenerator::Pool(pg)),
        text_at(s, i, pool_text(pg)),
        term_follow(s, i + pool_text(pg).len()),
    ensures
        pool_rule(s, i) matches Some((e, t)) && t == TermGenerator::Pool(pg) && within_spaces(
            s,
            i + pool_text(pg).len(),
            e,
        ),
{
    let ct = int_text(pg.count as int);
    let rt = int_text(pg.range as int);
    let ot = match pg.op {
        Some(o) => pool_op_text(o),
        None => Seq::<char>::empty(),
    };
    assert(pool_text(pg) == ct + seq!['d'] + rt + ot);
    lemma_text_at_split(s, i, ct + seq!['d'] + rt, ot);
    lemma_text_at_split(s, i, ct + seq!['d'], rt);
    lemma_text_at_split(s, i, ct, seq!['d']);
    let k = i + ct.len() + 1;
    let m = k + rt.len();
    lemma_text_at_index(s, i + ct.len(), seq!['d'], 0);
    lemma_nat_text_digits(pg.count as nat);
    lemma_nat_text_digits(pg.range as nat);
    lemma_read_number(s, i, pg.count as int);
    lemma_text_at_index(s, k, rt, 0);
    assert(letters_end(s, k) == k);
    assert(letters_end(s, k - 1) == k);
    lemma_follow(s, m + ot.len());
    match pg.op {
        Some(o) => {
            lemma_op_text_not_digit(o);
            lemma_text_at_index(s, m, ot, 0);
            lemma_read_number(s, k, pg.range as int);
            lemma_read_pool_op(s, m, o);
        },
        None => {
            lemma_read_number(s, k, pg.range as int);
            lemma_no_pool_op(s, m);
        },
    }
}

#[verifier::spinoff_prover]
#[verifier::rlimit(60)]
proof fn lemma_read_term(s: Seq<char>, i: int, t: TermGenerator)
    requires
        writable_term(t),
        text_at(s, i, term_text(t)),
        term_follow(s, i + term_text(t).len()),
    ensures
        term_rule(s, i) matches Some((e, r)) && r == t && within_spaces(s, i + term_text(t).len(), e),
{
    match t {
        TermGenerator::Pool(pg) => {
            lemma_read_pool(s, i, pg);
        },
        TermGenerator::Constant(n) => {
            let p = i + term_text(t).len();
            lemma_follow(s, p);
            lemma_term_text_first(t);
            lemma_text_at_index(s, i, term_text(t), 0);
            lemma_read_number(s, i, n as int);
            assert(letters_end(s, p) == p);
            assert(skip_spaces(s, i) == i);
        },
    }
}

/// How a term reads back: an implicit addition after the first term is
/// written as, and so read as, an addition.
pub open spec fn read_back_term(t: ArithTermGenerator, first: bool) -> ArithTermGenerator {
    if !first && t.op == ArithOp::ImplicitAdd {
        ArithTermGenerator { op: ArithOp::Add, ..t }
    } else {
        t
    }
}

#[verifier::spinoff_prover]
#[verifier::rlimit(60)]
proof fn lemma_read_arith_term(s: Seq<char>, p: int, e0: int, t: ArithTermGenerator, first: bool)
    requires
        writable_term(t.term),
        text_at(s, p, arith_term_text(t, first)),
        term_follow(s, p + arith_term_text(t, first).len()),
        within_spaces(s, p, e0),
    ensures
        arith_term_rule(s, e0) matches Some((e, r)) && r == read_back_term(t, first) && within_spaces(
            s,
            p + arith_term_text(t, first).len(),
            e,
        ) && e0 < e,
{
    let tt = term_text(t.term);
    let text = arith_term_text(t, first);
    let q = p + text.len();
    lemma_term_text_first(t.term);
    lemma_follow(s, q);
    if first && t.op == ArithOp::ImplicitAdd {
        assert(text =~= tt);
        lemma_text_at_index(s, p, tt, 0);
        assert(skip_spaces(s, p) == p);
        lemma_read_term(s, p, t.term);
    } else {
        let sym = if t.op == ArithOp::Sub {
            seq![' ', '-', ' ']
        } else {
            seq![' ', '+', ' ']
        };
        assert(text == sym + tt);
        lemma_text_at_split(s, p, sym, tt);
        lemma_text_at_index(s, p, sym, 0);
        lemma_text_at_index(s, p, sym, 1);
        lemma_text_at_index(s, p, sym, 2);
        lemma_text_at_index(s, p + 3, tt, 0);
        assert(skip_spaces(s, p + 1) == p + 1);
        assert(skip_spaces(s, p) == p + 1);
        assert(skip_spaces(s, e0) == p + 1);
        assert(digits_end(s, p + 1) == p + 1);
        assert(letters_end(s, p + 1) == p + 1);
        assert(term_rule(s, p + 1) is None);
        assert(skip_spaces(s, p + 3) == p + 3);
        assert(skip_spaces(s, p + 2) == p + 3);
        lemma_read_term(s, p + 3, t.term);
    }
}


/// The text of terms that all follow a first one.
pub open spec fn later_terms_text(ts: Seq<ArithTermGenerator>) -> Seq<char>
    decreases ts.len(),
{
    if ts.len() == 0 {
        Seq::empty()
    } else {
        arith_term_text(ts[0], false) + later_terms_text(ts.drop_first())
    }
}

proof fn lemma_later_push(ts: Seq<ArithTermGenerator>, t: ArithTermGenerator)
    ensures
        later_terms_text(ts.push(t)) == later_terms_text(ts) + arith_term_text(t, false),
    decreases ts.len(),
{
    if ts.len() == 0 {
        assert(ts.push(t).drop_first() =~= Seq::<ArithTermGenerator>::empty());
        assert(later_terms_text(Seq::<ArithTermGenerator>::empty()) == Seq::<char>::empty());
        assert(ts.push(t)[0] == t);
        assert(later_terms_text(ts) == Seq::<char>::empty());
        assert(later_terms_text(ts.push(t)) =~= arith_term_text(t, false));
    } else {
        assert(ts.push(t).drop_first() =~= ts.drop_first().push(t));
        lemma_later_push(ts.drop_first(), t);
        assert(later_terms_text(ts.push(t)) =~= later_terms_text(ts) + arith_term_text(t, false));
    }
}

proof fn lemma_terms_text_front(ts: Seq<ArithTermGenerator>)
    requires
        ts.len() >= 1,
    ensures
        terms_text(ts) == arith_term_text(ts[0], true) + later_terms_text(ts.drop_first()),
    decreases ts.len(),
{
    if ts.len() == 1 {
        assert(ts.drop_last() =~= Seq::<ArithTermGenerator>::empty());
        assert(ts.drop_first() =~= Seq::<ArithTermGenerator>::empty());
        assert(later_terms_text(Seq::<ArithTermGenerator>::empty()) == Seq::<char>::empty());
        assert(terms_text(Seq::<ArithTermGenerator>::empty()) == Seq::<char>::empty());
        assert(ts.last() == ts[0]);
        assert(terms_text(ts) =~= arith_term_text(ts[0], true) + later_terms_text(ts.drop_first()));
    } else {
        let init = ts.drop_last();
        lemma_terms_text_front(init);
        assert(ts.drop_first() =~= init.drop_first().push(ts.last()));
        lemma_later_push(init.drop_first(), ts.last());
        assert(init[0] == ts[0]);
        assert(terms_text(ts) =~= arith_term_text(ts[0], true) + later_terms_text(ts.drop_first()));
    }
}

/// Terms whose numbers are not negative.
pub open spec fn writable_terms(ts: Seq<ArithTermGenerator>) -> bool {
    forall|k: int| 0 <= k < ts.len() ==> writable_term(#[trigger] ts[k].term)
}

/// How terms read back when they all follow a first one.
pub open spec fn read_back_later(ts: Seq<ArithTermGenerator>) -> Seq<ArithTermGenerator> {
    Seq::new(ts.len(), |k: int| read_back_term(ts[k], false))
}

/// How the terms of an expression read back.
pub open spec fn read_back_terms(ts: Seq<ArithTermGenerator>) -> Seq<ArithTermGenerator> {
    Seq::new(ts.len(), |k: int| read_back_term(ts[k], k == 0))
}

/// No term starts where an expression's follow context does.
proof fn lemma_no_term(s: Seq<char>, p: int, e0: int)
    requires
        expr_follow(s, p),
        within_spaces(s, p, e0),
    ensures
        arith_term_rule(s, e0) is None,
{
    lemma_follow(s, p);
    lemma_within(s, p, e0);
    let j = skip_spaces(s, p);
    assert(skip_spaces(s, j) == j);
    assert(digits_end(s, j) == j);
    assert(letters_end(s, j) == j);
}

#[verifier::spinoff_prover]
#[verifier::rlimit(60)]
proof fn lemma_read_later(s: Seq<char>, p: int, e0: int, ts: Seq<ArithTermGenerator>)
    requires
        writable_terms(ts),
        text_at(s, p, later_terms_text(ts)),
        expr_follow(s, p + later_terms_text(ts).len()),
        within_spaces(s, p, e0),
    ensures
        terms_rule(s, e0).1 == read_back_later(ts),
        within_spaces(s, p + later_terms_text(ts).len(), terms_rule(s, e0).0),
    decreases ts.len(),
{
    if ts.len() == 0 {
        lemma_no_term(s, p, e0);
        assert(read_back_later(ts) =~= Seq::<ArithTermGenerator>::empty());
    } else {
        let rest = ts.drop_first();
        let a = arith_term_text(ts[0], false);
        let b = later_terms_text(rest);
        lemma_text_at_split(s, p, a, b);
        let q = p + a.len();
        if rest.len() > 0 {
            let c = arith_term_text(rest[0], false);
            let d = later_terms_text(rest.drop_first());
            lemma_text_at_split(s, q, c, d);
            assert(c == arith_term_text(rest[0], false));
            let sym = if rest[0].op == ArithOp::Sub {
                seq![' ', '-', ' ']
            } else {
                seq![' ', '+', ' ']
            };
            assert(c == sym + term_text(rest[0].term));
            lemma_text_at_split(s, q, sym, term_text(rest[0].term));
            lemma_text_at_index(s, q, sym, 0);
            lemma_text_at_index(s, q, sym, 1);
            lemma_text_at_index(s, q, sym, 2);
            lemma_term_text_first(rest[0].term);
            lemma_text_at_index(s, q + 3, term_text(rest[0].term), 0);
            assert(term_follow(s, q));
        }
        assert(writable_term(ts[0].term));
        lemma_read_arith_term(s, p, e0, ts[0], false);
        let e1 = arith_term_rule(s, e0)->Some_0.0;
        lemma_follow(s, q);
        lemma_within(s, q, e1);
        assert(writable_terms(rest)) by {
            assert forall|k: int| 0 <= k < rest.len() implies writable_term(#[trigger] rest[k].term) by {
                assert(rest[k] == ts[k + 1]);
            }
        }
        lemma_read_later(s, q, e1, rest);
        assert(read_back_later(ts) =~= seq![read_back_term(ts[0], false)] + read_back_later(rest));
    }
}

#[verifier::spinoff_prover]
#[verifier::rlimit(60)]
proof fn lemma_read_expr(s: Seq<char>, p: int, e0: int, ts: Seq<ArithTermGenerator>)
    requires
        ts.len() >= 1,
        writable_terms(ts),
        text_at(s, p, terms_text(ts)),
        expr_follow(s, p + terms_text(ts).len()),
        within_spaces(s, p, e0),
    ensures
        expr_rule(s, e0) matches Some((e, r)) && r == read_back_terms(ts) && within_spaces(
            s,
            p + terms_text(ts).len(),
            e,
        ),
{
    lemma_terms_text_front(ts);
    let rest = ts.drop_first();
    let a = arith_term_text(ts[0], true);
    let b = later_terms_text(rest);
    lemma_text_at_split(s, p, a, b);
    let q = p + a.len();
    if rest.len() > 0 {
        let c = arith_term_text(rest[0], false);
        let d = later_terms_text(rest.drop_first());
        lemma_text_at_split(s, q, c, d);
        let sym = if rest[0].op == ArithOp::Sub {
            seq![' ', '-', ' ']
        } else {
            seq![' ', '+', ' ']
        };
        assert(c == sym + term_text(rest[0].term));
        lemma_text_at_split(s, q, sym, term_text(rest[0].term));
        lemma_text_at_index(s, q, sym, 0);
        lemma_text_at_index(s, q, sym, 1);
        lemma_text_at_index(s, q, sym, 2);
        lemma_term_text_first(rest[0].term);
        lemma_text_at_index(s, q + 3, term_text(rest[0].term), 0);
        assert(term_follow(s, q));
    }
    assert(writable_term(ts[0].term));
    lemma_read_arith_term(s, p, e0, ts[0], true);
    let e1 = arith_term_rule(s, e0)->Some_0.0;
    lemma_follow(s, q);
    lemma_within(s, q, e1);
    assert(writable_terms(rest)) by {
        assert forall|k: int| 0 <= k < rest.len() implies writable_term(#[trigger] rest[k].term) by {
            assert(rest[k] == ts[k + 1]);
        }
    }
    lemma_read_later(s, q, e1, rest);
    assert(read_back_terms(ts) =~= seq![read_back_term(ts[0], true)] + read_back_later(rest));
}


/// Hits whose expression has a term and whose numbers are not negative.
pub open spec fn writable_hits(h: HitsModel) -> bool {
    &&& h.terms.len() >= 1
    &&& writable_terms(h.terms)
    &&& match h.op {
        Some(TargetOp::TargetHigh(n)) => n >= 0,
        Some(TargetOp::TargetLow(n)) => n >= 0,
        None => true,
    }
}

pub open spec fn writable_succ(sm: SuccModel) -> bool {
    &&& writable_hits(sm.hits)
    &&& match sm.op {
        Some(SuccessOp::TargetSucc(n)) => n >= 0,
        Some(SuccessOp::TargetSuccNext(n, m)) => n >= 0 && m >= 0,
        None => true,
    }
}

/// A tree that its canonical text writes out in full: every expression has
/// a term and no number is negative.
pub open spec fn writable(g: GeneratorModel) -> bool {
    &&& writable_succ(g.succ)
    &&& match g.op {
        Some((_, rhs)) => writable_succ(rhs),
        None => true,
    }
}

pub open spec fn read_back_hits(h: HitsModel) -> HitsModel {
    HitsModel { terms: read_back_terms(h.terms), op: h.op }
}

pub open spec fn read_back_succ(sm: SuccModel) -> SuccModel {
    SuccModel { hits: read_back_hits(sm.hits), op: sm.op }
}

/// The tree that the canonical text of `g` reads back as.
pub open spec fn read_back(g: GeneratorModel) -> GeneratorModel {
    GeneratorModel {
        succ: read_back_succ(g.succ),
        op: match g.op {
            Some((r, rhs)) => Some((r, read_back_succ(rhs))),
            None => None,
        },
    }
}

/// The text of an expression starts with a digit, or with a space and a
/// sign; either way no parenthesis follows the whitespace.
#[verifier::spinoff_prover]
#[verifier::rlimit(60)]
proof fn lemma_terms_start(s: Seq<char>, p: int, e0: int, ts: Seq<ArithTermGenerator>)
    requires
        ts.len() >= 1,
        writable_terms(ts),
        text_at(s, p, terms_text(ts)),
        within_spaces(s, p, e0),
    ensures
        skip_spaces(s, e0) == skip_spaces(s, p),
        skip_spaces(s, p) < s.len(),
        s[skip_spaces(s, p)] != '(',
{
    lemma_terms_text_front(ts);
    let a = arith_term_text(ts[0], true);
    lemma_text_at_split(s, p, a, later_terms_text(ts.drop_first()));
    assert(writable_term(ts[0].term));
    lemma_term_text_first(ts[0].term);
    if ts[0].op == ArithOp::ImplicitAdd {
        assert(a =~= term_text(ts[0].term));
        lemma_text_at_index(s, p, a, 0);
    } else {
        let sym = if ts[0].op == ArithOp::Sub {
            seq![' ', '-', ' ']
        } else {
            seq![' ', '+', ' ']
        };
        assert(a == sym + term_text(ts[0].term));
        lemma_text_at_split(s, p, sym, term_text(ts[0].term));
        lemma_text_at_index(s, p, sym, 0);
        lemma_text_at_index(s, p, sym, 1);
        assert(skip_spaces(s, p + 1) == p + 1);
    }
}

/// A number in delimiters, as the renderer writes it, reads back.
#[verifier::spinoff_prover]
#[verifier::rlimit(60)]
proof fn lemma_read_bracketed(s: Seq<char>, i: int, open: char, close: char, n: int)
    requires
        0 <= n <= i32::MAX,
        !is_space(open),
        !is_digit(close),
        !is_space(close),
        text_at(s, i, seq![open] + int_text(n) + seq![close]),
    ensures
        bracketed(s, i, open, close) == Some((i + int_text(n).len() + 2, n as i32)),
{
    let t = int_text(n);
    lemma_text_at_split(s, i, seq![open] + t, seq![close]);
    lemma_text_at_split(s, i, seq![open], t);
    lemma_text_at_index(s, i, seq![open], 0);
    lemma_text_at_index(s, i + 1 + t.len(), seq![close], 0);
    lemma_nat_text_digits(n as nat);
    lemma_text_at_index(s, i + 1, t, 0);
    lemma_read_number(s, i + 1, n);
    assert(skip_spaces(s, i) == i);
    assert(skip_spaces(s, i + 1) == i + 1);
    assert(skip_spaces(s, i + 1 + t.len()) == i + 1 + t.len());
}

#[verifier::spinoff_prover]
#[verifier::rlimit(60)]
proof fn lemma_read_hits(s: Seq<char>, p: int, e0: int, h: HitsModel)
    requires
        writable_hits(h),
        text_at(s, p, hits_text(h)),
        hits_follow(s, p + hits_text(h).len()),
        within_spaces(s, p, e0),
    ensures
        hits_rule(s, e0) matches Some((e, r)) && r == read_back_hits(h) && within_spaces(
            s,
            p + hits_text(h).len(),
            e,
        ),
{
    let tt = terms_text(h.terms);
    let ot = match h.op {
        Some(op) => target_text(op),
        None => Seq::<char>::empty(),
    };
    assert(hits_text(h) == tt + ot);
    lemma_text_at_split(s, p, tt, ot);
    let pe = p + tt.len();
    lemma_terms_start(s, p, e0, h.terms);
    match h.op {
        Some(op) => {
            let (open, close, n) = match op {
                TargetOp::TargetHigh(n) => ('[', ']', n),
                TargetOp::TargetLow(n) => ('(', ')', n),
            };
            assert(ot == seq![open] + int_text(n as int) + seq![close]);
            lemma_text_at_index(s, pe, ot, 0);
            assert(expr_follow(s, pe));
            lemma_read_expr(s, p, e0, h.terms);
            lemma_follow(s, pe);
            lemma_read_bracketed(s, pe, open, close, n as int);
            if open == '(' {
                assert(bracketed(s, pe, '[', ']') is None);
            }
            lemma_skip_bounds(s, p + hits_text(h).len());
        },
        None => {
            lemma_read_expr(s, p, e0, h.terms);
            let e1 = expr_rule(s, e0)->Some_0.0;
            lemma_follow(s, pe);
            lemma_within(s, pe, e1);
        },
    }
}

#[verifier::spinoff_prover]
#[verifier::rlimit(60)]
proof fn lemma_read_succ(s: Seq<char>, p: int, e0: int, sm: SuccModel)
    requires
        writable_succ(sm),
        text_at(s, p, succ_text(sm)),
        succ_follow(s, p + succ_text(sm).len()),
        within_spaces(s, p, e0),
    ensures
        succ_rule(s, e0) matches Some((e, r)) && r == read_back_succ(sm) && within_spaces(
            s,
            p + succ_text(sm).len(),
            e,
        ),
{
    let ht = hits_text(sm.hits);
    let ot = match sm.op {
        Some(op) => success_text(op),
        None => Seq::<char>::empty(),
    };
    assert(succ_text(sm) == ht + ot);
    lemma_text_at_split(s, p, ht, ot);
    let ph = p + ht.len();
    match sm.op {
        Some(op) => {
            lemma_text_at_index(s, ph, ot, 0);
            lemma_read_hits(s, p, e0, sm.hits);
            lemma_follow(s, ph);
            lemma_skip_bounds(s, p + succ_text(sm).len());
            match op {
                SuccessOp::TargetSucc(n) => {
                    lemma_read_bracketed(s, ph, '{', '}', n as int);
                },
                SuccessOp::TargetSuccNext(n, m) => {
                    let nt = int_text(n as int);
                    let mt = int_text(m as int);
                    assert(ot == seq!['{'] + nt + seq![',', ' '] + mt + seq!['}']);
                    lemma_text_at_split(s, ph, seq!['{'] + nt + seq![',', ' '] + mt, seq!['}']);
                    lemma_text_at_split(s, ph, seq!['{'] + nt + seq![',', ' '], mt);
                    lemma_text_at_split(s, ph, seq!['{'] + nt, seq![',', ' ']);
                    lemma_text_at_split(s, ph, seq!['{'], nt);
                    let k = ph + 1 + nt.len();
                    let k2 = k + 2 + mt.len();
                    lemma_text_at_index(s, k, seq![',', ' '], 0);
                    lemma_text_at_index(s, k, seq![',', ' '], 1);
                    lemma_text_at_index(s, k2, seq!['}'], 0);
                    lemma_nat_text_digits(n as nat);
                    lemma_nat_text_digits(m as nat);
                    lemma_text_at_index(s, ph + 1, nt, 0);
                    lemma_text_at_index(s, k + 2, mt, 0);
                    lemma_read_number(s, ph + 1, n as int);
                    lemma_read_number(s, k + 2, m as int);
                    assert(skip_spaces(s, ph) == ph);
                    assert(skip_spaces(s, ph + 1) == ph + 1);
                    assert(skip_spaces(s, k) == k);
                    assert(skip_spaces(s, k + 2) == k + 2);
                    assert(skip_spaces(s, k + 1) == k + 2);
                    assert(skip_spaces(s, k2) == k2);
                    assert(success_rule(s, ph) is None);
                },
            }
        },
        None => {
            lemma_read_hits(s, p, e0, sm.hits);
            let e1 = hits_rule(s, e0)->Some_0.0;
            lemma_follow(s, ph);
            lemma_within(s, ph, e1);
        },
    }
}

/// Which alternative of a comparison matches the rendered relation.
#[verifier::spinoff_prover]
#[verifier::rlimit(60)]
proof fn lemma_relation_matches(s: Seq<char>, j: int, rel: Relation)
    requires
        text_at(s, j, crate::render::relation_text(rel) + seq![' ']),
    ensures
        relation_at(s, j, rel) == crate::render::relation_text(rel).len(),
        rel != Relation::CMP ==> relation_at(s, j, Relation::CMP) == 0,
        rel != Relation::CMP && rel != Relation::GE ==> relation_at(s, j, Relation::GE) == 0,
        rel == Relation::GT || rel == Relation::LT || rel == Relation::EQ ==> relation_at(s, j, Relation::LE) == 0,
        rel == Relation::LT || rel == Relation::EQ ==> relation_at(s, j, Relation::GT) == 0,
        rel == Relation::EQ ==> relation_at(s, j, Relation::LT) == 0,
{
    let t = crate::render::relation_text(rel) + seq![' '];
    lemma_text_at_index(s, j, t, 0);
    lemma_text_at_index(s, j, t, 1);
    if t.len() > 2 {
        lemma_text_at_index(s, j, t, 2);
    }
    if t.len() > 3 {
        lemma_text_at_index(s, j, t, 3);
    }
}

#[verifier::spinoff_prover]
#[verifier::rlimit(60)]
proof fn lemma_read_comparison(s: Seq<char>, p: int, e: int, rel: Relation, rhs: SuccModel)
    requires
        writable_succ(rhs),
        text_at(
            s,
            p,
            seq![' '] + crate::render::relation_text(rel) + seq![' '] + succ_text(rhs),
        ),
        p + 2 + crate::render::relation_text(rel).len() + succ_text(rhs).len() == s.len(),
        e == p || e == p + 1,
    ensures
        comparison_rule(s, e) == Some((s.len() as int, (rel, read_back_succ(rhs)))),
{
    let rt = crate::render::relation_text(rel);
    lemma_text_at_split(s, p, seq![' '] + rt + seq![' '], succ_text(rhs));
    lemma_text_at_split(s, p, seq![' '] + rt, seq![' ']);
    lemma_text_at_split(s, p, seq![' '], rt);
    let j = p + 1;
    let n = rt.len() as int;
    let pr = j + n + 1;
    lemma_text_at_index(s, p, seq![' '], 0);
    lemma_text_at_index(s, j, rt, 0);
    lemma_text_at_index(s, j + n, seq![' '], 0);
    assert(text_at(s, j, rt + seq![' '])) by {
        assert(s.subrange(j, j + n + 1) =~= s.subrange(j, j + n) + s.subrange(j + n, j + n + 1));
    }
    lemma_relation_matches(s, j, rel);
    assert(skip_spaces(s, j) == j);
    assert(skip_spaces(s, e) == j);
    lemma_skip_bounds(s, pr);
    assert(skip_spaces(s, j + n) == skip_spaces(s, pr));
    lemma_skip_bounds(s, s.len() as int);
    lemma_read_succ(s, pr, skip_spaces(s, j + n), rhs);
    assert(compare_with(s, e, rel) == Some((s.len() as int, (rel, read_back_succ(rhs)))));
}

#[verifier::spinoff_prover]
#[verifier::rlimit(60)]
proof fn lemma_read_plain(s: Seq<char>, sm: SuccModel)
    requires
        writable_succ(sm),
        s == succ_text(sm),
    ensures
        succ_rule(s, 0) matches Some((e, r)) && r == read_back_succ(sm) && e == s.len()
            && comparison_rule(s, e) is None,
{
    assert(s.subrange(0, s.len() as int) =~= s);
    lemma_skip_bounds(s, s.len() as int);
    lemma_skip_bounds(s, 0);
    lemma_read_succ(s, 0, 0, sm);
    lemma_follow(s, s.len() as int);
}

#[verifier::spinoff_prover]
#[verifier::rlimit(60)]
proof fn lemma_compared_shape(s: Seq<char>, lhs: SuccModel, rel: Relation, rhs: SuccModel)
    requires
        s == succ_text(lhs) + (seq![' '] + (crate::render::relation_text(rel) + seq![' '] + succ_text(rhs))),
    ensures
        text_at(s, 0, succ_text(lhs)),
        text_at(
            s,
            succ_text(lhs).len() as int,
            seq![' '] + crate::render::relation_text(rel) + seq![' '] + succ_text(rhs),
        ),
        succ_text(lhs).len() + 2 + crate::render::relation_text(rel).len() + succ_text(rhs).len()
            == s.len(),
        succ_follow(s, succ_text(lhs).len() as int),
{
    let sl = succ_text(lhs);
    let rt = crate::render::relation_text(rel);
    let tail = seq![' '] + rt + seq![' '] + succ_text(rhs);
    assert(s =~= sl + tail);
    assert(s.subrange(0, s.len() as int) =~= s);
    lemma_text_at_split(s, 0, sl, tail);
    let p = sl.len() as int;
    lemma_text_at_index(s, p, tail, 0);
    lemma_text_at_index(s, p, tail, 1);
}

#[verifier::spinoff_prover]
#[verifier::rlimit(60)]
proof fn lemma_read_compared(s: Seq<char>, lhs: SuccModel, rel: Relation, rhs: SuccModel)
    requires
        writable_succ(lhs),
        writable_succ(rhs),
        text_at(s, 0, succ_text(lhs)),
        text_at(
            s,
            succ_text(lhs).len() as int,
            seq![' '] + crate::render::relation_text(rel) + seq![' '] + succ_text(rhs),
        ),
        succ_text(lhs).len() + 2 + crate::render::relation_text(rel).len() + succ_text(rhs).len()
            == s.len(),
        succ_follow(s, succ_text(lhs).len() as int),
    ensures
        succ_rule(s, 0) matches Some((e, r)) && r == read_back_succ(lhs) && comparison_rule(s, e)
            == Some((s.len() as int, (rel, read_back_succ(rhs)))),
{
    let p = succ_text(lhs).len() as int;
    lemma_skip_bounds(s, 0);
    lemma_read_succ(s, 0, 0, lhs);
    let e = succ_rule(s, 0)->Some_0.0;
    lemma_follow(s, p);
    lemma_within(s, p, e);
    lemma_read_comparison(s, p, e, rel, rhs);
}

/// The canonical text of a tree reads back, in full, as the same tree but
/// for implicit additions after an expression's first term: those are
/// written, and so read back, as additions, which roll alike.
pub proof fn lemma_round_trip(g: GeneratorModel)
    requires
        writable(g),
    ensures
        generator_rule(generator_text(g), 0) == Some((generator_text(g).len() as int, read_back(g))),
{
    let s = generator_text(g);
    match g.op {
        None => {
            assert(s =~= succ_text(g.succ));
            lemma_read_plain(s, g.succ);
        },
        Some((rel, rhs)) => {
            assert(s =~= succ_text(g.succ) + (seq![' '] + (crate::render::relation_text(rel) + seq![' ']
                + succ_text(rhs))));
            lemma_compared_shape(s, g.succ, rel, rhs);
            lemma_read_compared(s, g.succ, rel, rhs);
        },
    }
}


/// A term reads back as one that rolls alike: reading back changes at most
/// an implicit addition into an addition.
pub proof fn lemma_read_back_rolls_alike(t: ArithTermGenerator, first: bool, s: Seq<crate::results::Value>)
    ensures
        read_back_term(t, first).produces(s) == t.produces(s),
        read_back_term(t, first).term == t.term,
        (read_back_term(t, first).op == ArithOp::Sub) == (t.op == ArithOp::Sub),
{
}

} // verus!
