//! Canonical text of trees, values, pools and results.
use vstd::prelude::*;

use crate::generators::{
    ArithOp, ArithTermGenerator, ComparisonOp, ExprGenerator, Generator, GeneratorModel,
    HitsGenerator, HitsModel, PoolGenerator, PoolOp, Relation, SuccGenerator, SuccModel,
    SuccessOp, TargetOp, TermGenerator,
};
use crate::results::{Pool, Results, Value};

verus! {

pub open spec fn digit_char(d: int) -> char {
    if d == 0 {
        '0'
    } else if d == 1 {
        '1'
    } else if d == 2 {
        '2'
    } else if d == 3 {
        '3'
    } else if d == 4 {
        '4'
    } else if d == 5 {
        '5'
    } else if d == 6 {
        '6'
    } else if d == 7 {
        '7'
    } else if d == 8 {
        '8'
    } else {
        '9'
    }
}

/// Decimal digits of a natural number, most significant first.
pub open spec fn nat_text(n: nat) -> Seq<char>
    decreases n,
{
    if n < 10 {
        seq![digit_char(n as int)]
    } else {
        nat_text(n / 10).push(digit_char((n % 10) as int))
    }
}

/// Decimal text of an integer, with a leading `-` when negative.
pub open spec fn int_text(n: int) -> Seq<char> {
    if n < 0 {
        seq!['-'] + nat_text((-n) as nat)
    } else {
        nat_text(n as nat)
    }
}

fn digit_str(d: u128) -> (r: &'static str)
    requires
        d < 10,
    ensures
        r@ == seq![digit_char(d as int)],
{
    proof {
        reveal_strlit("0");
        reveal_strlit("1");
        reveal_strlit("2");
        reveal_strlit("3");
        reveal_strlit("4");
        reveal_strlit("5");
        reveal_strlit("6");
        reveal_strlit("7");
        reveal_strlit("8");
        reveal_strlit("9");
    }
    let r = if d == 0 {
        "0"
    } else if d == 1 {
        "1"
    } else if d == 2 {
        "2"
    } else if d == 3 {
        "3"
    } else if d == 4 {
        "4"
    } else if d == 5 {
        "5"
    } else if d == 6 {
        "6"
    } else if d == 7 {
        "7"
    } else if d == 8 {
        "8"
    } else {
        "9"
    };
    assert(r@ =~= seq![digit_char(d as int)]);
    r
}

fn push_nat(out: &mut String, n: u128)
    ensures
        final(out)@ == old(out)@ + nat_text(n as nat),
    decreases n,
{
    if n >= 10 {
        push_nat(out, n / 10);
    }
    out.append(digit_str(n % 10));
    assert(final(out)@ =~= old(out)@ + nat_text(n as nat));
}

/// Appends the decimal text of `n`.
fn push_int(out: &mut String, n: i128)
    ensures
        final(out)@ == old(out)@ + int_text(n as int),
{
    if n < 0 {
        proof {
            reveal_strlit("-");
        }
        out.append("-");
        push_nat(out, (-(n + 1)) as u128 + 1);
        assert(final(out)@ =~= old(out)@ + int_text(n as int));
    } else {
        push_nat(out, n as u128);
    }
}

/// Appends a piece of fixed text.
fn push(out: &mut String, piece: &str)
    ensures
        final(out)@ == old(out)@ + piece@,
{
    out.append(piece);
}

/// The threshold or amount of an operator, when there is one.
pub open spec fn opt_text(n: Option<i32>) -> Seq<char> {
    match n {
        Some(k) => int_text(k as int),
        None => Seq::empty(),
    }
}

pub open spec fn pool_op_text(op: PoolOp) -> Seq<char> {
    match op {
        PoolOp::Explode(n) => seq!['!'] + opt_text(n),
        PoolOp::ExplodeUntil(n) => seq!['!', '!'] + opt_text(n),
        PoolOp::ExplodeEach(n) => seq!['*'] + opt_text(n),
        PoolOp::ExplodeEachUntil(n) => seq!['*', '*'] + opt_text(n),
        PoolOp::AddEach(n) => seq!['+', '+'] + opt_text(n),
        PoolOp::SubEach(n) => seq!['-', '-'] + opt_text(n),
        PoolOp::TakeMid(n) => seq!['~'] + int_text(n as int),
        PoolOp::TakeLow(n) => seq!['`'] + int_text(n as int),
        PoolOp::TakeHigh(n) => seq!['^'] + int_text(n as int),
        PoolOp::Disadvantage => seq![' ', 'D', 'I', 'S'],
        PoolOp::Advantage => seq![' ', 'A', 'D', 'V'],
        PoolOp::BestGroup => seq!['Y'],
    }
}

pub open spec fn pool_text(p: PoolGenerator) -> Seq<char> {
    int_text(p.count as int) + seq!['d'] + int_text(p.range as int) + match p.op {
        Some(op) => pool_op_text(op),
        None => Seq::empty(),
    }
}

pub open spec fn term_text(t: TermGenerator) -> Seq<char> {
    match t {
        TermGenerator::Pool(p) => pool_text(p),
        TermGenerator::Constant(n) => int_text(n as int),
    }
}

/// How a term joins the expression; an implicit addition shows only on the
/// first term, and as ` + ` after it.
pub open spec fn arith_op_text(op: ArithOp, first: bool) -> Seq<char> {
    match op {
        ArithOp::ImplicitAdd => if first {
            Seq::empty()
        } else {
            seq![' ', '+', ' ']
        },
        ArithOp::Add => seq![' ', '+', ' '],
        ArithOp::Sub => seq![' ', '-', ' '],
    }
}

pub open spec fn arith_term_text(t: ArithTermGenerator, first: bool) -> Seq<char> {
    arith_op_text(t.op, first) + term_text(t.term)
}

pub open spec fn terms_text(terms: Seq<ArithTermGenerator>) -> Seq<char>
    decreases terms.len(),
{
    if terms.len() == 0 {
        Seq::empty()
    } else {
        terms_text(terms.drop_last()) + arith_term_text(terms.last(), terms.len() == 1)
    }
}

pub open spec fn target_text(op: TargetOp) -> Seq<char> {
    match op {
        TargetOp::TargetHigh(n) => seq!['['] + int_text(n as int) + seq![']'],
        TargetOp::TargetLow(n) => seq!['('] + int_text(n as int) + seq![')'],
    }
}

pub open spec fn hits_text(h: HitsModel) -> Seq<char> {
    terms_text(h.terms) + match h.op {
        Some(op) => target_text(op),
        None => Seq::empty(),
    }
}

pub open spec fn success_text(op: SuccessOp) -> Seq<char> {
    match op {
        SuccessOp::TargetSucc(n) => seq!['{'] + int_text(n as int) + seq!['}'],
        SuccessOp::TargetSuccNext(n, m) => seq!['{'] + int_text(n as int) + seq![',', ' '] + int_text(
            m as int,
        ) + seq!['}'],
    }
}

pub open spec fn succ_text(s: SuccModel) -> Seq<char> {
    hits_text(s.hits) + match s.op {
        Some(op) => success_text(op),
        None => Seq::empty(),
    }
}

pub open spec fn relation_text(r: Relation) -> Seq<char> {
    match r {
        Relation::GT => seq!['>'],
        Relation::GE => seq!['>', '='],
        Relation::LT => seq!['<'],
        Relation::LE => seq!['<', '='],
        Relation::EQ => seq!['='],
        Relation::CMP => seq!['<', '=', '>'],
    }
}

pub open spec fn comparison_text(c: (Relation, SuccModel)) -> Seq<char> {
    relation_text(c.0) + seq![' '] + succ_text(c.1)
}

pub open spec fn generator_text(g: GeneratorModel) -> Seq<char> {
    succ_text(g.succ) + match g.op {
        Some(c) => seq![' '] + comparison_text(c),
        None => Seq::empty(),
    }
}

fn push_opt(out: &mut String, n: Option<i32>)
    ensures
        final(out)@ == old(out)@ + opt_text(n),
{
    match n {
        Some(k) => push_int(out, k as i128),
        None => {
            assert(old(out)@ + opt_text(n) =~= old(out)@);
        },
    }
}

fn push_pool_op(out: &mut String, op: &PoolOp)
    ensures
        final(out)@ == old(out)@ + pool_op_text(*op),
{
    proof {
        reveal_strlit("!");
        reveal_strlit("!!");
        reveal_strlit("*");
        reveal_strlit("**");
        reveal_strlit("++");
        reveal_strlit("--");
        reveal_strlit("~");
        reveal_strlit("`");
        reveal_strlit("^");
        reveal_strlit(" DIS");
        reveal_strlit(" ADV");
        reveal_strlit("Y");
    }
    let ghost start = out@;
    match op {
        PoolOp::Explode(n) => {
            push(out, "!");
            push_opt(out, *n);
        },
        PoolOp::ExplodeUntil(n) => {
            push(out, "!!");
            push_opt(out, *n);
        },
        PoolOp::ExplodeEach(n) => {
            push(out, "*");
            push_opt(out, *n);
        },
        PoolOp::ExplodeEachUntil(n) => {
            push(out, "**");
            push_opt(out, *n);
        },
        PoolOp::AddEach(n) => {
            push(out, "++");
            push_opt(out, *n);
        },
        PoolOp::SubEach(n) => {
            push(out, "--");
            push_opt(out, *n);
        },
        PoolOp::TakeMid(n) => {
            push(out, "~");
            push_int(out, *n as i128);
        },
        PoolOp::TakeLow(n) => {
            push(out, "`");
            push_int(out, *n as i128);
        },
        PoolOp::TakeHigh(n) => {
            push(out, "^");
            push_int(out, *n as i128);
        },
        PoolOp::Disadvantage => push(out, " DIS"),
        PoolOp::Advantage => push(out, " ADV"),
        PoolOp::BestGroup => push(out, "Y"),
    }
    assert(out@ =~= start + pool_op_text(*op));
}

fn push_term(out: &mut String, t: &TermGenerator)
    ensures
        final(out)@ == old(out)@ + term_text(*t),
{
    let ghost start = out@;
    match t {
        TermGenerator::Pool(p) => {
            proof {
                reveal_strlit("d");
            }
            push_int(out, p.count as i128);
            push(out, "d");
            push_int(out, p.range as i128);
            match &p.op {
                Some(op) => push_pool_op(out, op),
                None => {},
            }
        },
        TermGenerator::Constant(n) => push_int(out, *n as i128),
    }
    assert(out@ =~= start + term_text(*t));
}

fn push_terms(out: &mut String, terms: &Vec<ArithTermGenerator>)
    ensures
        final(out)@ == old(out)@ + terms_text(terms@),
{
    proof {
        reveal_strlit(" + ");
        reveal_strlit(" - ");
    }
    let ghost start = out@;
    let mut i: usize = 0;
    while i < terms.len()
        invariant
            i <= terms@.len(),
            out@ == start + terms_text(terms@.subrange(0, i as int)),
        decreases terms@.len() - i,
    {
        proof {
            reveal_strlit(" + ");
            reveal_strlit(" - ");
        }
        let t = terms[i];
        let ghost before = out@;
        match t.op {
            ArithOp::ImplicitAdd => if i > 0 {
                push(out, " + ");
            },
            ArithOp::Add => push(out, " + "),
            ArithOp::Sub => push(out, " - "),
        }
        let ghost mid = out@;
        assert(mid =~= before + arith_op_text(t.op, i == 0));
        push_term(out, &t.term);
        proof {
            let pre = terms@.subrange(0, i as int);
            let next = terms@.subrange(0, i + 1);
            assert(next.drop_last() =~= pre);
            assert(out@ =~= before + arith_term_text(t, i == 0));
            assert(out@ =~= start + terms_text(next));
        }
        i = i + 1;
    }
    assert(terms@.subrange(0, i as int) =~= terms@);
}

fn push_target(out: &mut String, op: TargetOp)
    ensures
        final(out)@ == old(out)@ + target_text(op),
{
    proof {
        reveal_strlit("[");
        reveal_strlit("]");
        reveal_strlit("(");
        reveal_strlit(")");
    }
    let ghost start = out@;
    match op {
        TargetOp::TargetHigh(n) => {
            push(out, "[");
            push_int(out, n as i128);
            push(out, "]");
        },
        TargetOp::TargetLow(n) => {
            push(out, "(");
            push_int(out, n as i128);
            push(out, ")");
        },
    }
    assert(out@ =~= start + target_text(op));
}

fn push_success(out: &mut String, op: SuccessOp)
    ensures
        final(out)@ == old(out)@ + success_text(op),
{
    proof {
        reveal_strlit("{");
        reveal_strlit("}");
        reveal_strlit(", ");
    }
    let ghost start = out@;
    match op {
        SuccessOp::TargetSucc(n) => {
            push(out, "{");
            push_int(out, n as i128);
            push(out, "}");
        },
        SuccessOp::TargetSuccNext(n, m) => {
            push(out, "{");
            push_int(out, n as i128);
            push(out, ", ");
            push_int(out, m as i128);
            push(out, "}");
        },
    }
    assert(out@ =~= start + success_text(op));
}

fn push_succ(out: &mut String, s: &SuccGenerator)
    ensures
        final(out)@ == old(out)@ + succ_text(s@),
{
    let ghost start = out@;
    push_terms(out, &s.hits.expr.terms);
    match s.hits.op {
        Some(op) => push_target(out, op),
        None => {},
    }
    let ghost mid = out@;
    assert(mid =~= start + hits_text(s.hits@));
    match s.op {
        Some(op) => push_success(out, op),
        None => {},
    }
    assert(out@ =~= start + succ_text(s@));
}

impl PoolOp {
    pub fn to_string(&self) -> (r: String)
        ensures
            r@ == pool_op_text(*self),
    {
        let mut out = String::new();
        push_pool_op(&mut out, self);
        assert(out@ =~= pool_op_text(*self));
        out
    }
}

impl PoolGenerator {
    pub fn to_string(&self) -> (r: String)
        ensures
            r@ == pool_text(*self),
    {
        let mut out = String::new();
        push_term(&mut out, &TermGenerator::Pool(*self));
        assert(out@ =~= pool_text(*self));
        out
    }
}

impl TermGenerator {
    pub fn to_string(&self) -> (r: String)
        ensures
            r@ == term_text(*self),
    {
        let mut out = String::new();
        push_term(&mut out, self);
        assert(out@ =~= term_text(*self));
        out
    }
}

impl ExprGenerator {
    pub fn to_string(&self) -> (r: String)
        ensures
            r@ == terms_text(self@),
    {
        let mut out = String::new();
        push_terms(&mut out, &self.terms);
        assert(out@ =~= terms_text(self@));
        out
    }
}

impl SuccGenerator {
    pub fn to_string(&self) -> (r: String)
        ensures
            r@ == succ_text(self@),
    {
        let mut out = String::new();
        push_succ(&mut out, self);
        assert(out@ =~= succ_text(self@));
        out
    }
}

impl Generator {
    /// The canonical text of the tree, which the parser reads back.
    pub fn to_string(&self) -> (r: String)
        ensures
            r@ == generator_text(self@),
    {
        proof {
            reveal_strlit(" ");
            reveal_strlit(">");
            reveal_strlit(">=");
            reveal_strlit("<");
            reveal_strlit("<=");
            reveal_strlit("=");
            reveal_strlit("<=>");
        }
        let mut out = String::new();
        push_succ(&mut out, &self.succ);
        let ghost mid = out@;
        match &self.op {
            Some(c) => {
                push(&mut out, " ");
                let rhs = match c {
                    ComparisonOp::GT(s) => {
                        push(&mut out, ">");
                        s
                    },
                    ComparisonOp::GE(s) => {
                        push(&mut out, ">=");
                        s
                    },
                    ComparisonOp::LT(s) => {
                        push(&mut out, "<");
                        s
                    },
                    ComparisonOp::LE(s) => {
                        push(&mut out, "<=");
                        s
                    },
                    ComparisonOp::EQ(s) => {
                        push(&mut out, "=");
                        s
                    },
                    ComparisonOp::CMP(s) => {
                        push(&mut out, "<=>");
                        s
                    },
                };
                push(&mut out, " ");
                push_succ(&mut out, rhs);
            },
            None => {},
        }
        assert(out@ =~= generator_text(self@));
        out
    }
}


/// A value: what it adds when kept, marked `*` when it is a bonus die; its
/// face and modifier marked `-` when discarded.
pub open spec fn value_text(v: Value) -> Seq<char> {
    if v.keep {
        int_text(v.contribution()) + if v.bonus {
            seq!['*']
        } else {
            Seq::empty()
        }
    } else {
        int_text(v.value + v.add) + if v.bonus {
            seq!['*', '-']
        } else {
            seq!['-']
        }
    }
}

/// Values separated by `, `.
pub open spec fn values_text(s: Seq<Value>) -> Seq<char>
    decreases s.len(),
{
    if s.len() == 0 {
        Seq::empty()
    } else if s.len() == 1 {
        value_text(s[0])
    } else {
        values_text(s.drop_last()) + seq![',', ' '] + value_text(s.last())
    }
}

/// A pool: its values, then ` = ` and its sum, then the outcome set in
/// place of the sum in braces, if any.
pub open spec fn outcome_text(p: Pool) -> Seq<char> {
    values_text(p.values@) + seq![' ', '=', ' '] + int_text(p.spec_sum()) + match p.value {
        Some(v) => seq![' ', '{'] + int_text(v as int) + seq!['}'],
        None => Seq::empty(),
    }
}

/// Results: the left pool, and with a comparison ` <> `, the right pool,
/// ` = ` and the final outcome.
pub open spec fn results_text(r: Results) -> Seq<char> {
    outcome_text(r.lhs) + match r.rhs {
        Some(p) => seq![' ', '<', '>', ' '] + outcome_text(p) + seq![' ', '=', ' '] + int_text(r.outcome()),
        None => Seq::empty(),
    }
}

fn push_value(out: &mut String, v: &Value)
    ensures
        final(out)@ == old(out)@ + value_text(*v),
{
    proof {
        reveal_strlit("*");
        reveal_strlit("*-");
        reveal_strlit("-");
    }
    let ghost start = out@;
    if v.keep {
        push_int(out, v.sum() as i128);
        if v.bonus {
            push(out, "*");
        }
    } else {
        push_int(out, v.value as i128 + v.add as i128);
        if v.bonus {
            push(out, "*-");
        } else {
            push(out, "-");
        }
    }
    assert(out@ =~= start + value_text(*v));
}

fn push_pool(out: &mut String, p: &Pool)
    ensures
        final(out)@ == old(out)@ + outcome_text(*p),
{
    let ghost start = out@;
    let mut i: usize = 0;
    while i < p.values.len()
        invariant
            i <= p.values@.len(),
            out@ == start + values_text(p.values@.subrange(0, i as int)),
        decreases p.values@.len() - i,
    {
        proof {
            reveal_strlit(", ");
        }
        let ghost before = out@;
        if i > 0 {
            push(out, ", ");
        }
        push_value(out, &p.values[i]);
        proof {
            let next = p.values@.subrange(0, i + 1);
            assert(next.drop_last() =~= p.values@.subrange(0, i as int));
            if i == 0 {
                assert(out@ =~= start + values_text(next));
            } else {
                assert(out@ =~= start + values_text(next));
            }
        }
        i = i + 1;
    }
    assert(p.values@.subrange(0, i as int) =~= p.values@);
    proof {
        reveal_strlit(" = ");
        reveal_strlit(" {");
        reveal_strlit("}");
    }
    let sum = p.sum();
    let ghost mid = out@;
    push(out, " = ");
    push_int(out, sum);
    match p.value {
        Some(v) => {
            push(out, " {");
            push_int(out, v);
            push(out, "}");
        },
        None => {},
    }
    assert(out@ =~= start + outcome_text(*p));
}

impl Value {
    pub fn to_string(&self) -> (r: String)
        ensures
            r@ == value_text(*self),
    {
        let mut out = String::new();
        push_value(&mut out, self);
        assert(out@ =~= value_text(*self));
        out
    }
}

impl Pool {
    pub fn to_string(&self) -> (r: String)
        ensures
            r@ == outcome_text(*self),
    {
        let mut out = String::new();
        push_pool(&mut out, self);
        assert(out@ =~= outcome_text(*self));
        out
    }
}

impl Results {
    pub fn to_string(&self) -> (r: String)
        ensures
            r@ == results_text(*self),
    {
        proof {
            reveal_strlit(" <> ");
            reveal_strlit(" = ");
        }
        let mut out = String::new();
        push_pool(&mut out, &self.lhs);
        let ghost mid = out@;
        match &self.rhs {
            Some(p) => {
                push(&mut out, " <> ");
                push_pool(&mut out, p);
                push(&mut out, " = ");
                push_int(&mut out, self.sum());
            },
            None => {},
        }
        assert(out@ =~= results_text(*self));
        out
    }
}

} // verus!
