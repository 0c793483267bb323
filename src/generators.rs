//! The generator tree that the parser builds, and its evaluation.
use vstd::prelude::*;

use crate::dice::{
    Dice, after_draws, drawn_from, follows_script, lemma_after_draws_add, lemma_after_draws_drawn,
    lemma_drawn_from, lemma_follows_concat,
};
use crate::pool_ops::{all_applied, last_applied, rolled};
use crate::results::{
    Pool, Results, Value, dice_in, kept_count, lemma_dice_in_all, lemma_dice_in_bounds,
    lemma_dice_in_concat, lemma_dice_in_same, range_of, sum_of,
};
use crate::laws::{lemma_all_keeps_rolled, lemma_until_all_rolled};

verus! {

/// An expression with its optional target, as a mathematical value.
pub struct HitsModel {
    pub terms: Seq<ArithTermGenerator>,
    pub op: Option<TargetOp>,
}

/// A success generator as a mathematical value.
pub struct SuccModel {
    pub hits: HitsModel,
    pub op: Option<SuccessOp>,
}

/// The relation of a comparison.
#[derive(Debug, PartialEq, Eq, Clone, Copy, Structural)]
pub enum Relation {
    GT,
    GE,
    LT,
    LE,
    EQ,
    CMP,
}

/// A whole tree as a mathematical value.
pub struct GeneratorModel {
    pub succ: SuccModel,
    pub op: Option<(Relation, SuccModel)>,
}

impl View for ExprGenerator {
    type V = Seq<ArithTermGenerator>;

    open spec fn view(&self) -> Seq<ArithTermGenerator> {
        self.terms@
    }
}

impl View for HitsGenerator {
    type V = HitsModel;

    open spec fn view(&self) -> HitsModel {
        HitsModel { terms: self.expr@, op: self.op }
    }
}

impl View for SuccGenerator {
    type V = SuccModel;

    open spec fn view(&self) -> SuccModel {
        SuccModel { hits: self.hits@, op: self.op }
    }
}

impl View for ComparisonOp {
    type V = (Relation, SuccModel);

    open spec fn view(&self) -> (Relation, SuccModel) {
        match self {
            ComparisonOp::GT(s) => (Relation::GT, s@),
            ComparisonOp::GE(s) => (Relation::GE, s@),
            ComparisonOp::LT(s) => (Relation::LT, s@),
            ComparisonOp::LE(s) => (Relation::LE, s@),
            ComparisonOp::EQ(s) => (Relation::EQ, s@),
            ComparisonOp::CMP(s) => (Relation::CMP, s@),
        }
    }
}

impl View for Generator {
    type V = GeneratorModel;

    open spec fn view(&self) -> GeneratorModel {
        GeneratorModel {
            succ: self.succ@,
            op: match self.op {
                Some(c) => Some(c@),
                None => None,
            },
        }
    }
}

/// Root of a tree: a success generator, optionally compared with another.
#[derive(Debug, PartialEq)]
pub struct Generator {
    pub succ: SuccGenerator,
    pub op: Option<ComparisonOp>,
}

/// A comparison between the left side and the success generator it holds.
#[derive(Debug, PartialEq)]
pub enum ComparisonOp {
    GT(SuccGenerator),
    GE(SuccGenerator),
    LT(SuccGenerator),
    LE(SuccGenerator),
    EQ(SuccGenerator),
    CMP(SuccGenerator),
}

/// Hits, optionally turned into degrees of success.
#[derive(Debug, PartialEq)]
pub struct SuccGenerator {
    pub hits: HitsGenerator,
    pub op: Option<SuccessOp>,
}

/// `{n}`: one degree of success at `n` and one more per point above it;
/// `{n, m}`: one degree at `n` and one more per `m` points above it.
#[derive(Debug, PartialEq, Eq, Clone, Copy, Structural)]
pub enum SuccessOp {
    TargetSucc(i32),
    TargetSuccNext(i32, i32),
}

/// An expression, optionally with a per-value target.
#[derive(Debug, PartialEq)]
pub struct HitsGenerator {
    pub expr: ExprGenerator,
    pub op: Option<TargetOp>,
}

/// `[n]`: a value hits when its magnitude is at least `n`;
/// `(n)`: when it is at most `n`.
#[derive(Debug, PartialEq, Eq, Clone, Copy, Structural)]
pub enum TargetOp {
    TargetHigh(i32),
    TargetLow(i32),
}

/// A sum of terms, rolled into one flat pool.
#[derive(Debug, PartialEq)]
pub struct ExprGenerator {
    pub terms: Vec<ArithTermGenerator>,
}

/// How a term joins the expression.
#[derive(Debug, PartialEq, Eq, Clone, Copy, Structural)]
pub enum ArithOp {
    ImplicitAdd,
    Add,
    Sub,
}

#[derive(Debug, PartialEq, Eq, Clone, Copy, Structural)]
pub struct ArithTermGenerator {
    pub op: ArithOp,
    pub term: TermGenerator,
}

#[derive(Debug, PartialEq, Eq, Clone, Copy, Structural)]
pub enum TermGenerator {
    Pool(PoolGenerator),
    Constant(i32),
}

/// `count` dice of `range` sides, with an optional operator.
#[derive(Debug, PartialEq, Eq, Clone, Copy, Structural)]
pub struct PoolGenerator {
    pub count: i32,
    pub range: i32,
    pub op: Option<PoolOp>,
}

/// Operators on a pool of dice. The explode-each and add/sub-each operators
/// act on each die as it is rolled; the others act once on the whole pool.
#[derive(Debug, PartialEq, Eq, Clone, Copy, Structural)]
pub enum PoolOp {
    Explode(Option<i32>),
    ExplodeUntil(Option<i32>),
    ExplodeEach(Option<i32>),
    ExplodeEachUntil(Option<i32>),
    AddEach(Option<i32>),
    SubEach(Option<i32>),
    TakeMid(i32),
    TakeLow(i32),
    TakeHigh(i32),
    Disadvantage,
    Advantage,
    BestGroup,
}


/// Rolled dice of `range` sides, fresh and kept, add up to between one and
/// `range` points each.
pub proof fn lemma_rolled_totals(s: Seq<Value>, range: int)
    requires
        rolled(s, range, false),
    ensures
        kept_count(s) == s.len(),
        s.len() <= sum_of(s) <= s.len() * range,
    decreases s.len(),
{
    if s.len() > 0 {
        let t = s.drop_last();
        assert forall|i: int| 0 <= i < t.len() implies #[trigger] t[i] == Value::fresh(t[i].value, range as i32, false)
            && 1 <= t[i].value <= range by {
            assert(t[i] == s[i]);
        }
        lemma_rolled_totals(t, range);
        assert(s[s.len() - 1] == s.last());
        assert((s.len() - 1) * range + range == s.len() * range) by (nonlinear_arith);
    }
}

/// An operator that sorts the pool, so that its values no longer stand in
/// the order they were rolled.
pub open spec fn reorders(op: PoolOp) -> bool {
    op is TakeLow || op is TakeHigh || op is TakeMid || op is BestGroup
}

/// `new` keeps the faces and sides of the values of `old` in place, and the
/// values after them follow the script from where `old` left it.
proof fn lemma_follows_extended(d: Seq<i32>, old: Seq<Value>, new: Seq<Value>)
    requires
        follows_script(d, old),
        new.len() >= old.len(),
        forall|i: int|
            0 <= i < old.len() ==> (#[trigger] new[i]).value == old[i].value && new[i].range == old[i].range,
        follows_script(after_draws(d, old.len() as int), new.subrange(old.len() as int, new.len() as int)),
    ensures
        follows_script(d, new),
{
    let n = old.len() as int;
    let tail = new.subrange(n, new.len() as int);
    assert forall|j: int|
        0 <= j < new.len() && j < d.len() && 1 <= d[j] <= new[j].range implies #[trigger] new[j].value
        == d[j] by {
        if j < n {
            assert(old[j].range == new[j].range);
        } else {
            assert(tail[j - n] == new[j]);
            assert(after_draws(d, n)[j - n] == d[j]);
        }
    }
}

/// A per-value operator keeps the faces and sides of the values it found.
proof fn lemma_last_keeps_faces(op: PoolOp, old: Seq<Value>, new: Seq<Value>)
    requires
        last_applied(op, old, new),
    ensures
        new.len() >= old.len(),
        forall|i: int|
            0 <= i < old.len() ==> (#[trigger] new[i]).value == old[i].value && new[i].range == old[i].range,
{
    if old.len() > 0 && new != old {
        let n = old.len() as int;
        assert forall|i: int| 0 <= i < n implies (#[trigger] new[i]).value == old[i].value && new[i].range
            == old[i].range by {
            if op is ExplodeEach || op is ExplodeEachUntil {
                assert(new.subrange(0, n)[i] == new[i]);
            }
        }
    }
}

/// A whole-pool operator that does not sort keeps the faces and sides of the
/// values it found.
proof fn lemma_all_keeps_faces(op: PoolOp, old: Seq<Value>, new: Seq<Value>)
    requires
        all_applied(op, old, new),
        !reorders(op),
    ensures
        new.len() >= old.len(),
        forall|i: int|
            0 <= i < old.len() ==> (#[trigger] new[i]).value == old[i].value && new[i].range == old[i].range,
{
    let n = old.len() as int;
    if n > 0 && new != old {
        if op is Explode || op is ExplodeUntil {
            assert forall|i: int| 0 <= i < n implies (#[trigger] new[i]).value == old[i].value
                && new[i].range == old[i].range by {
                assert(new.subrange(0, n)[i] == new[i]);
            }
        }
    }
}

/// A die of the pool: no constant, and `range` sides.
pub open spec fn is_die(v: Value, range: int) -> bool {
    !v.constant && v.range == range
}

proof fn lemma_range_of_dice(s: Seq<Value>, range: int)
    requires
        s.len() > 0,
        range >= 1,
        forall|k: int| 0 <= k < s.len() ==> is_die(#[trigger] s[k], range),
    ensures
        range_of(s) == range,
    decreases s.len(),
{
    let t = s.drop_last();
    assert(is_die(s[s.len() - 1], range));
    if t.len() > 0 {
        assert forall|k: int| 0 <= k < t.len() implies is_die(#[trigger] t[k], range) by {
            assert(t[k] == s[k]);
        }
        lemma_range_of_dice(t, range);
    } else {
        assert(range_of(t) == 0);
    }
}

/// A per-value operator keeps a pool made of dice of `range` sides so.
proof fn lemma_last_keeps_dice(op: PoolOp, old: Seq<Value>, new: Seq<Value>, range: int)
    requires
        old.len() > 0,
        forall|k: int| 0 <= k < old.len() ==> is_die(#[trigger] old[k], range),
        last_applied(op, old, new),
    ensures
        forall|k: int| 0 <= k < new.len() ==> is_die(#[trigger] new[k], range),
{
    let n = old.len() as int;
    assert(is_die(old[n - 1], range));
    match op {
        PoolOp::ExplodeEach(_) | PoolOp::ExplodeEachUntil(_) => {
            if new != old {
                let tail = new.subrange(n, new.len() as int);
                if op is ExplodeEachUntil {
                    lemma_until_all_rolled(
                        tail,
                        n,
                        1,
                        crate::pool_ops::threshold(op->ExplodeEachUntil_0, range),
                        range,
                    );
                }
                assert forall|k: int| 0 <= k < new.len() implies is_die(#[trigger] new[k], range) by {
                    if k < n {
                        assert(new.subrange(0, n)[k] == new[k]);
                    } else {
                        assert(tail[k - n] == new[k]);
                    }
                }
            }
        },
        _ => {},
    }
}

/// The faces handed out for one pool: `faces.len()` dice of `range` sides.
pub open spec fn faces_in_range(faces: Seq<i32>, range: int) -> bool {
    forall|i: int| 0 <= i < faces.len() ==> 1 <= #[trigger] faces[i] <= range
}

/// The pool built from `faces`, one die after the other: each die is
/// appended and the operator's per-value part applied to it, as `steps`
/// records; the whole-pool part is applied to the last step.
pub open spec fn pool_steps(op: Option<PoolOp>, range: int, faces: Seq<i32>, steps: Seq<Seq<Value>>) -> bool {
    &&& steps.len() == faces.len() + 1
    &&& steps[0] == Seq::<Value>::empty()
    &&& forall|i: int|
        0 <= i < faces.len() ==> {
            let rolled_one = #[trigger] steps[i].push(Value::fresh(faces[i], range as i32, false));
            match op {
                Some(o) => last_applied(o, rolled_one, steps[i + 1]),
                None => steps[i + 1] == rolled_one,
            }
        }
}

impl PoolGenerator {
    /// A pool generator that can be rolled: when it rolls dice, they have
    /// sides and its operator can be applied to them.
    pub open spec fn is_valid(self) -> bool {
        self.dice_count() > 0 ==> {
            &&& self.range >= 1
            &&& match self.op {
                Some(o) => o.is_valid_for(self.range as int),
                None => true,
            }
        }
    }

    /// The number of dice rolled: `count`, or none if it is negative.
    pub open spec fn dice_count(self) -> int {
        if self.count < 0 {
            0
        } else {
            self.count as int
        }
    }

    /// `s` is a possible outcome: some faces in range, rolled one by one
    /// with the per-value operator, then the whole-pool operator.
    pub open spec fn produces(self, s: Seq<Value>) -> bool {
        exists|faces: Seq<i32>, steps: Seq<Seq<Value>>|
            {
                &&& faces.len() == self.dice_count()
                &&& faces_in_range(faces, self.range as int)
                &&& pool_steps(self.op, self.range as int, faces, steps)
                &&& match self.op {
                    Some(o) => all_applied(o, steps[faces.len() as int], s),
                    None => s == steps[faces.len() as int],
                }
            }
    }

    /// Rolls `count` dice of `range` sides. Each die gets the operator's
    /// per-value part as soon as it is rolled; the whole-pool part runs once
    /// all are rolled. Without an operator the pool holds exactly `count`
    /// fresh kept dice, whose sum lies between `count` and `count * range`.
    pub fn generate(&self, dice: &mut Dice) -> (r: Pool)
        requires
            self.is_valid(),
            old(dice).wf(),
        ensures
            final(dice).wf(),
            r.value == None::<i128>,
            self.produces(r.values@),
            final(dice).pending() == after_draws(old(dice).pending(), r.values@.len() as int),
            dice_in(r.values@) == r.values@.len(),
            !(self.op matches Some(o) && reorders(o)) ==> follows_script(old(dice).pending(), r.values@),
            match self.op {
                Some(o) => reorders(o) ==> (exists|pre: Seq<Value>|
                    follows_script(old(dice).pending(), pre) && all_applied(o, pre, r.values@)),
                None => true,
            },
            self.op is None ==> {
                &&& follows_script(old(dice).pending(), r.values@)
                &&& rolled(r.values@, self.range as int, false)
                &&& r.values@.len() == self.dice_count()
                &&& kept_count(r.values@) == self.dice_count()
                &&& self.dice_count() <= sum_of(r.values@) <= self.dice_count() * self.range
            },
    {
        let mut pool = Pool::new();
        let ghost d0 = dice.pending();
        proof {
            lemma_after_draws_add(d0, 0, 0);
        }
        let ghost mut faces: Seq<i32> = Seq::empty();
        let ghost mut steps: Seq<Seq<Value>> = seq![Seq::<Value>::empty()];
        let mut i: i32 = 0;
        while i < self.count
            invariant
                self.is_valid(),
                dice.wf(),
                0 <= i,
                i <= self.count || self.count < 0 && i == 0,
                pool.value == None::<i128>,
                faces.len() == i,
                faces_in_range(faces, self.range as int),
                pool_steps(self.op, self.range as int, faces, steps),
                pool.values@ == steps[i as int],
                self.op is None ==> rolled(pool.values@, self.range as int, false) && pool.values@.len() == i,
                d0 == old(dice).pending(),
                dice.pending() == after_draws(d0, pool.values@.len() as int),
                follows_script(d0, pool.values@),
                forall|k: int| 0 <= k < pool.values@.len() ==> is_die(#[trigger] pool.values@[k], self.range as int),
            decreases self.count - i,
        {
            let ghost before = pool.values@;
            let v = Value::random(dice, self.range, false);
            let ghost rolled_one = pool.values@.push(v);
            pool.values.push(v);
            proof {
                lemma_after_draws_add(d0, before.len() as int, 1);
                lemma_follows_concat(d0, before, seq![v]);
                assert(pool.values@ =~= before + seq![v]);
            }
            let ghost mid = pool.values@;
            let ghost dmid = dice.pending();
            if let Some(op) = &self.op {
                op.apply_last(&mut pool, dice);
                proof {
                    lemma_after_draws_add(d0, mid.len() as int, pool.values@.len() - mid.len());
                    lemma_last_keeps_dice(*op, mid, pool.values@, self.range as int);
                    lemma_last_keeps_faces(*op, mid, pool.values@);
                    lemma_follows_extended(d0, mid, pool.values@);
                }
            }
            proof {
                let old_steps = steps;
                faces = faces.push(v.value);
                steps = steps.push(pool.values@);
                assert forall|k: int| 0 <= k < faces.len() implies {
                    let r1 = #[trigger] steps[k].push(Value::fresh(faces[k], self.range as i32, false));
                    match self.op {
                        Some(o) => last_applied(o, r1, steps[k + 1]),
                        None => steps[k + 1] == r1,
                    }
                } by {
                    if k < i {
                        assert(steps[k] == old_steps[k]);
                        assert(steps[k + 1] == old_steps[k + 1]);
                    } else {
                        assert(steps[k] == old_steps[k]);
                        assert(v == Value::fresh(faces[k], self.range as i32, false));
                    }
                }
                if self.op is None {
                    assert forall|k: int| 0 <= k < pool.values@.len() implies {
                        &&& #[trigger] pool.values@[k] == Value::fresh(pool.values@[k].value, self.range as i32, false)
                        &&& 1 <= pool.values@[k].value <= self.range
                    } by {
                        if k < i {
                            assert(pool.values@[k] == steps[i as int][k]);
                        }
                    }
                }
            }
            i = i + 1;
        }
        let ghost before_all = pool.values@;
        if let Some(op) = &self.op {
            proof {
                if before_all.len() > 0 {
                    lemma_range_of_dice(before_all, self.range as int);
                }
            }
            op.apply_all(&mut pool, dice);
            proof {
                lemma_after_draws_add(d0, before_all.len() as int, pool.values@.len() - before_all.len());
                assert forall|k: int| 0 <= k < before_all.len() implies !(#[trigger] before_all[k]).constant by {
                    assert(is_die(before_all[k], self.range as int));
                }
                lemma_all_keeps_rolled(*op, before_all, pool.values@);
                if !reorders(*op) {
                    lemma_all_keeps_faces(*op, before_all, pool.values@);
                    lemma_follows_extended(d0, before_all, pool.values@);
                }
            }
        }
        proof {
            if self.op is None {
                assert forall|k: int| 0 <= k < pool.values@.len() implies !(#[trigger] pool.values@[k]).constant by {
                    assert(is_die(pool.values@[k], self.range as int));
                }
            }
            lemma_dice_in_all(pool.values@);
        }
        proof {
            assert(faces.len() == self.dice_count());
            if self.op is None {
                lemma_rolled_totals(pool.values@, self.range as int);
            }
        }
        pool
    }
}


/// A constant term's value.
pub open spec fn constant_value(n: i32) -> Value {
    Value { constant: true, ..Value::fresh(n, n, false) }
}

impl TermGenerator {
    pub open spec fn is_valid(self) -> bool {
        match self {
            TermGenerator::Pool(pg) => pg.is_valid(),
            TermGenerator::Constant(_) => true,
        }
    }

    pub open spec fn produces(self, s: Seq<Value>) -> bool {
        match self {
            TermGenerator::Pool(pg) => pg.produces(s),
            TermGenerator::Constant(n) => s == seq![constant_value(n)],
        }
    }

    /// Rolls the pool, or yields the constant as a one-value pool; a
    /// constant makes no draw.
    pub fn generate(&self, dice: &mut Dice) -> (r: Pool)
        requires
            self.is_valid(),
            old(dice).wf(),
        ensures
            final(dice).wf(),
            r.value == None::<i128>,
            self.produces(r.values@),
            drawn_from(old(dice).pending(), final(dice).pending()),
            final(dice).pending() == after_draws(old(dice).pending(), dice_in(r.values@)),
            self is Constant ==> final(dice).pending() == old(dice).pending(),
    {
        proof {
            lemma_after_draws_add(dice.pending(), 0, 0);
        }
        let ghost d0 = dice.pending();
        let r = self.generate_term(dice);
        proof {
            lemma_dice_in_bounds(r.values@);
            lemma_after_draws_drawn(d0, dice_in(r.values@));
        }
        r
    }

    fn generate_term(&self, dice: &mut Dice) -> (r: Pool)
        requires
            self.is_valid(),
            old(dice).wf(),
        ensures
            final(dice).wf(),
            r.value == None::<i128>,
            self.produces(r.values@),
            self is Constant ==> final(dice).pending() == old(dice).pending(),
            final(dice).pending() == after_draws(old(dice).pending(), dice_in(r.values@)),
    {
        proof {
            lemma_after_draws_add(dice.pending(), 0, 0);
        }
        match self {
            TermGenerator::Pool(pg) => pg.generate(dice),
            TermGenerator::Constant(n) => {
                let v = Value::constant(*n);
                let r = Pool::new_with_values(vec![v]);
                assert(r.values@ =~= seq![constant_value(*n)]);
                assert(r.values@.drop_last() =~= Seq::<Value>::empty());
                assert(dice_in(Seq::<Value>::empty()) == 0);
                r
            },
        }
    }
}

/// The values of a subtracted term: every one marked as a penalty.
pub open spec fn penalized(s: Seq<Value>) -> Seq<Value> {
    Seq::new(s.len(), |i: int| Value { penalty: true, ..s[i] })
}

impl ArithTermGenerator {
    pub open spec fn is_valid(self) -> bool {
        self.term.is_valid()
    }

    pub open spec fn produces(self, s: Seq<Value>) -> bool {
        exists|t: Seq<Value>|
            self.term.produces(t) && s == if self.op == ArithOp::Sub {
                penalized(t)
            } else {
                t
            }
    }

    /// Rolls the term; a subtracted term has all its values marked as
    /// penalties, so that they count negatively.
    pub fn generate(&self, dice: &mut Dice) -> (r: Pool)
        requires
            self.is_valid(),
            old(dice).wf(),
        ensures
            final(dice).wf(),
            r.value == None::<i128>,
            self.produces(r.values@),
            drawn_from(old(dice).pending(), final(dice).pending()),
            final(dice).pending() == after_draws(old(dice).pending(), dice_in(r.values@)),
            self.term is Constant ==> final(dice).pending() == old(dice).pending(),
    {
        let mut pool = self.term.generate(dice);
        let ghost t = pool.values@;
        match self.op {
            ArithOp::Sub => {
                let mut i: usize = 0;
                while i < pool.values.len()
                    invariant
                        i <= pool.values@.len(),
                        pool.values@.len() == t.len(),
                        pool.value == None::<i128>,
                        forall|k: int| 0 <= k < i ==> #[trigger] pool.values@[k] == penalized(t)[k],
                        forall|k: int| i <= k < t.len() ==> #[trigger] pool.values@[k] == t[k],
                    decreases t.len() - i,
                {
                    let mut v = pool.values[i];
                    v.mark_penalty();
                    pool.values.set(i, v);
                    i = i + 1;
                }
                assert(pool.values@ =~= penalized(t));
                proof {
                    lemma_dice_in_same(penalized(t), t);
                }
            },
            _ => {},
        }
        pool
    }
}

/// The concatenation of `parts`, in order.
pub open spec fn concat_all(parts: Seq<Seq<Value>>) -> Seq<Value>
    decreases parts.len(),
{
    if parts.len() == 0 {
        Seq::empty()
    } else {
        concat_all(parts.drop_last()) + parts.last()
    }
}

impl ExprGenerator {
    pub open spec fn is_valid(self) -> bool {
        forall|i: int| 0 <= i < self.terms@.len() ==> (#[trigger] self.terms@[i]).is_valid()
    }

    /// `s` is a possible outcome: one outcome of each term, concatenated.
    pub open spec fn produces(self, s: Seq<Value>) -> bool {
        exists|parts: Seq<Seq<Value>>|
            {
                &&& parts.len() == self.terms@.len()
                &&& forall|i: int| 0 <= i < parts.len() ==> self.terms@[i].produces(#[trigger] parts[i])
                &&& s == concat_all(parts)
            }
    }

    /// Rolls every term and puts their values into one pool, in order.
    pub fn generate(&self, dice: &mut Dice) -> (r: Pool)
        requires
            self.is_valid(),
            old(dice).wf(),
        ensures
            final(dice).wf(),
            drawn_from(old(dice).pending(), final(dice).pending()),
            final(dice).pending() == after_draws(old(dice).pending(), dice_in(r.values@)),
            r.value == None::<i128>,
            self.produces(r.values@),
    {
        let mut pool = Pool::new();
        let ghost d0 = dice.pending();
        proof {
            lemma_after_draws_add(d0, 0, 0);
            lemma_after_draws_drawn(d0, 0);
        }
        let ghost mut parts: Seq<Seq<Value>> = Seq::empty();
        let mut i: usize = 0;
        while i < self.terms.len()
            invariant
                self.is_valid(),
                dice.wf(),
                i <= self.terms@.len(),
                pool.value == None::<i128>,
                parts.len() == i,
                forall|k: int| 0 <= k < i ==> self.terms@[k].produces(#[trigger] parts[k]),
                pool.values@ == concat_all(parts),
                d0 == old(dice).pending(),
                drawn_from(d0, dice.pending()),
                dice.pending() == after_draws(d0, dice_in(pool.values@)),
            decreases self.terms@.len() - i,
        {
            let ghost before = dice.pending();
            let ghost sofar = pool.values@;
            let mut part = self.terms[i].generate(dice);
            proof {
                lemma_drawn_from(d0, before, dice.pending());
                lemma_dice_in_bounds(sofar);
                lemma_dice_in_bounds(part.values@);
                lemma_after_draws_add(d0, dice_in(sofar), dice_in(part.values@));
                lemma_dice_in_concat(sofar, part.values@);
                let old_parts = parts;
                parts = parts.push(part.values@);
                assert(parts.drop_last() =~= old_parts);
                assert forall|k: int| 0 <= k < i + 1 implies self.terms@[k].produces(#[trigger] parts[k]) by {
                    if k < i {
                        assert(parts[k] == old_parts[k]);
                    }
                }
            }
            pool.values.append(&mut part.values);
            i = i + 1;
        }
        pool
    }
}

/// The values `s` after a target test: each one's hit is whether the
/// magnitude of its contribution reaches (`[n]`) or stays within (`(n)`) the
/// target.
pub open spec fn targeted_by(s: Seq<Value>, op: Option<TargetOp>) -> Seq<Value> {
    match op {
        None => s,
        Some(TargetOp::TargetHigh(n)) => Seq::new(
            s.len(),
            |i: int| Value { hit: abs(s[i].contribution()) >= n, targeted: true, ..s[i] },
        ),
        Some(TargetOp::TargetLow(n)) => Seq::new(
            s.len(),
            |i: int| Value { hit: abs(s[i].contribution()) <= n, targeted: true, ..s[i] },
        ),
    }
}

pub open spec fn abs(x: int) -> int {
    if x < 0 {
        -x
    } else {
        x
    }
}

impl HitsGenerator {
    pub open spec fn is_valid(self) -> bool {
        self.expr.is_valid()
    }

    pub open spec fn produces(self, s: Seq<Value>) -> bool {
        exists|t: Seq<Value>| self.expr.produces(t) && s == targeted_by(t, self.op)
    }

    /// Rolls the expression; with a target, every value records whether it
    /// met it and from then on counts as a hit (its sign) or as nothing.
    pub fn generate(&self, dice: &mut Dice) -> (r: Pool)
        requires
            self.is_valid(),
            old(dice).wf(),
        ensures
            final(dice).wf(),
            drawn_from(old(dice).pending(), final(dice).pending()),
            final(dice).pending() == after_draws(old(dice).pending(), dice_in(r.values@)),
            r.value == None::<i128>,
            self.produces(r.values@),
    {
        let mut pool = self.expr.generate(dice);
        let ghost t = pool.values@;
        match self.op {
            Some(op) => {
                let mut i: usize = 0;
                while i < pool.values.len()
                    invariant
                        i <= pool.values@.len(),
                        pool.values@.len() == t.len(),
                        pool.value == None::<i128>,
                        forall|k: int| 0 <= k < i ==> #[trigger] pool.values@[k] == targeted_by(t, Some(op))[k],
                        forall|k: int| i <= k < t.len() ==> #[trigger] pool.values@[k] == t[k],
                    decreases t.len() - i,
                {
                    let mut v = pool.values[i];
                    let c = v.sum();
                    let m = if c < 0 {
                        -c
                    } else {
                        c
                    };
                    let hit = match op {
                        TargetOp::TargetHigh(n) => m >= n as i64,
                        TargetOp::TargetLow(n) => m <= n as i64,
                    };
                    v.set_hit(hit);
                    pool.values.set(i, v);
                    i = i + 1;
                }
                assert(pool.values@ =~= targeted_by(t, Some(op)));
                proof {
                    lemma_dice_in_same(targeted_by(t, Some(op)), t);
                }
            },
            None => {},
        }
        pool
    }
}

/// The quotient of a non-negative `a` by `b`, rounded toward zero, as
/// integer division rounds it.
pub open spec fn toward_zero(a: int, b: int) -> int {
    if b > 0 {
        a / b
    } else {
        -(a / (-b))
    }
}

proof fn lemma_toward_zero(a: int, b: int)
    requires
        a >= 0,
        b != 0,
    ensures
        b > 0 ==> 0 <= a / b <= a,
        b < 0 ==> 0 <= a / (-b) <= a,
{
    if b > 0 {
        assert(0 <= a / b <= a) by (nonlinear_arith)
            requires a >= 0, b > 0;
    } else {
        assert(0 <= a / (-b) <= a) by (nonlinear_arith)
            requires a >= 0, b < 0;
    }
}

/// The outcome that a success operator puts in place of the sum `sum`.
pub open spec fn success_value(op: SuccessOp, sum: int) -> int {
    match op {
        SuccessOp::TargetSucc(n) => if sum >= n {
            sum - n + 1
        } else {
            0
        },
        SuccessOp::TargetSuccNext(n, m) => if sum >= n {
            toward_zero(sum - n, m as int) + 1
        } else {
            0
        },
    }
}

impl SuccGenerator {
    pub open spec fn is_valid(self) -> bool {
        &&& self.hits.is_valid()
        &&& match self.op {
            Some(SuccessOp::TargetSuccNext(_, m)) => m != 0,
            _ => true,
        }
    }

    pub open spec fn produces(self, p: Pool) -> bool {
        &&& self.hits.produces(p.values@)
        &&& match self.op {
            Some(op) => p.value matches Some(v) && v as int == success_value(op, sum_of(p.values@)),
            None => p.value is None,
        }
    }

    /// Rolls the hits; with a success operator the pool's outcome becomes the
    /// degrees of success of its sum.
    pub fn generate(&self, dice: &mut Dice) -> (r: Pool)
        requires
            self.is_valid(),
            old(dice).wf(),
        ensures
            final(dice).wf(),
            drawn_from(old(dice).pending(), final(dice).pending()),
            final(dice).pending() == after_draws(old(dice).pending(), dice_in(r.values@)),
            self.produces(r),
    {
        let mut pool = self.hits.generate(dice);
        match self.op {
            Some(SuccessOp::TargetSucc(n)) => {
                let sum = pool.sum();
                if sum >= n as i128 {
                    pool.set_value(sum - n as i128 + 1);
                } else {
                    pool.set_value(0);
                }
            },
            Some(SuccessOp::TargetSuccNext(n, m)) => {
                let sum = pool.sum();
                if sum >= n as i128 {
                    let d = sum - n as i128;
                    let q = if m > 0 {
                        d / (m as i128)
                    } else {
                        -(d / (-(m as i128)))
                    };
                    proof {
                        lemma_toward_zero(d as int, m as int);
                    }
                    pool.set_value(q + 1);
                } else {
                    pool.set_value(0);
                }
            },
            None => {},
        }
        pool
    }
}

/// The result of comparing the outcomes `l` and `r`.
pub open spec fn compared(op: &ComparisonOp, l: int, r: int) -> int {
    match op {
        ComparisonOp::GT(_) => if l > r { 1 } else { 0 },
        ComparisonOp::GE(_) => if l >= r { 1 } else { 0 },
        ComparisonOp::LT(_) => if l < r { 1 } else { 0 },
        ComparisonOp::LE(_) => if l <= r { 1 } else { 0 },
        ComparisonOp::EQ(_) => if l == r { 1 } else { 0 },
        ComparisonOp::CMP(_) => if l < r { -1 } else if l > r { 1 } else { 0 },
    }
}

impl ComparisonOp {
    /// The right-hand side.
    pub open spec fn rhs(&self) -> &SuccGenerator {
        match self {
            ComparisonOp::GT(s) => s,
            ComparisonOp::GE(s) => s,
            ComparisonOp::LT(s) => s,
            ComparisonOp::LE(s) => s,
            ComparisonOp::EQ(s) => s,
            ComparisonOp::CMP(s) => s,
        }
    }
}

impl Generator {
    pub open spec fn is_valid(self) -> bool {
        &&& self.succ.is_valid()
        &&& match self.op {
            Some(c) => c.rhs().is_valid(),
            None => true,
        }
    }

    /// `r` is a possible outcome: the left side rolled, and with a comparison
    /// the right side too, and the comparison of their outcomes.
    pub open spec fn produces(self, r: Results) -> bool {
        &&& self.succ.produces(r.lhs)
        &&& match self.op {
            None => r.rhs is None && r.value == r.lhs.outcome(),
            Some(c) => match r.rhs {
                Some(rp) => c.rhs().produces(rp) && r.value == compared(&c, r.lhs.outcome(), rp.outcome()),
                None => false,
            },
        }
    }

    /// Rolls the whole expression. Without a comparison the result's outcome
    /// is the left pool's; with one, the right side is rolled too and the
    /// result is 1 or 0 (or -1, 0, 1 for `<=>`).
    pub fn generate(&self, dice: &mut Dice) -> (r: Results)
        requires
            self.is_valid(),
            old(dice).wf(),
        ensures
            final(dice).wf(),
            self.produces(r),
            r.rhs is Some <==> self.op is Some,
            drawn_from(old(dice).pending(), final(dice).pending()),
            final(dice).pending() == after_draws(
                old(dice).pending(),
                dice_in(r.lhs.values@) + match r.rhs {
                    Some(p) => dice_in(p.values@),
                    None => 0,
                },
            ),
    {
        let ghost d0 = dice.pending();
        let lhs = self.succ.generate(dice);
        let ghost d1 = dice.pending();
        match &self.op {
            Some(op) => {
                let rhs = match op {
                    ComparisonOp::GT(s) => s.generate(dice),
                    ComparisonOp::GE(s) => s.generate(dice),
                    ComparisonOp::LT(s) => s.generate(dice),
                    ComparisonOp::LE(s) => s.generate(dice),
                    ComparisonOp::EQ(s) => s.generate(dice),
                    ComparisonOp::CMP(s) => s.generate(dice),
                };
                proof {
                    lemma_drawn_from(d0, d1, dice.pending());
                    lemma_dice_in_bounds(lhs.values@);
                    lemma_dice_in_bounds(rhs.values@);
                    lemma_after_draws_add(d0, dice_in(lhs.values@), dice_in(rhs.values@));
                }
                let l = lhs.value();
                let r = rhs.value();
                let value: i128 = match op {
                    ComparisonOp::GT(_) => if l > r { 1 } else { 0 },
                    ComparisonOp::GE(_) => if l >= r { 1 } else { 0 },
                    ComparisonOp::LT(_) => if l < r { 1 } else { 0 },
                    ComparisonOp::LE(_) => if l <= r { 1 } else { 0 },
                    ComparisonOp::EQ(_) => if l == r { 1 } else { 0 },
                    ComparisonOp::CMP(_) => if l < r {
                        -1
                    } else if l > r {
                        1
                    } else {
                        0
                    },
                };
                Results { lhs, rhs: Some(rhs), value }
            },
            None => {
                let value = lhs.value();
                Results { lhs, rhs: None, value }
            },
        }
    }
}


impl PoolGenerator {
    /// Whether the generator can be rolled.
    pub fn valid(&self) -> (r: bool)
        ensures
            r == self.is_valid(),
    {
        self.count <= 0 || self.range >= 1 && match self.op {
            Some(PoolOp::SubEach(Some(m))) => m > i32::MIN,
            Some(PoolOp::ExplodeUntil(t)) | Some(PoolOp::ExplodeEachUntil(t)) => match t {
                Some(t) => t > 1,
                None => self.range > 1,
            },
            _ => true,
        }
    }
}

impl ExprGenerator {
    /// Whether every term can be rolled.
    pub fn valid(&self) -> (r: bool)
        ensures
            r == self.is_valid(),
    {
        let mut i: usize = 0;
        while i < self.terms.len()
            invariant
                i <= self.terms@.len(),
                forall|k: int| 0 <= k < i ==> (#[trigger] self.terms@[k]).is_valid(),
            decreases self.terms@.len() - i,
        {
            let ok = match &self.terms[i].term {
                TermGenerator::Pool(pg) => pg.valid(),
                TermGenerator::Constant(_) => true,
            };
            if !ok {
                return false;
            }
            i = i + 1;
        }
        true
    }
}

impl SuccGenerator {
    /// Whether the generator can be rolled: its dice have sides and a
    /// stepped success operator has a positive step.
    pub fn valid(&self) -> (r: bool)
        ensures
            r == self.is_valid(),
    {
        self.hits.expr.valid() && match self.op {
            Some(SuccessOp::TargetSuccNext(_, m)) => m != 0,
            _ => true,
        }
    }
}

impl Generator {
    /// Whether the tree can be rolled.
    pub fn valid(&self) -> (r: bool)
        ensures
            r == self.is_valid(),
    {
        self.succ.valid() && match &self.op {
            Some(c) => match c {
                ComparisonOp::GT(s) => s.valid(),
                ComparisonOp::GE(s) => s.valid(),
                ComparisonOp::LT(s) => s.valid(),
                ComparisonOp::LE(s) => s.valid(),
                ComparisonOp::EQ(s) => s.valid(),
                ComparisonOp::CMP(s) => s.valid(),
            },
            None => true,
        }
    }
}

} // verus!
