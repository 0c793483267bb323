//! Rolled values, pools of values and the outcome of a comparison.
use vstd::prelude::*;

use crate::dice::{Dice, after_draws};

verus! {

/// One rolled die face or constant term.
#[derive(Clone, Copy, Debug, PartialEq, Eq, Structural)]
pub struct Value {
    /// the face rolled, or the constant itself
    pub value: i32,
    /// the number of sides of the die; equal to `value` for a constant
    pub range: i32,
    /// offset added to the face
    pub add: i32,
    /// true when the value counts negatively (a subtracted term)
    pub penalty: bool,
    /// true for a constant term
    pub constant: bool,
    /// true when the value was added by an explode or a second batch
    pub bonus: bool,
    /// true while the value takes part in the totals
    pub keep: bool,
    /// true when the value met a target
    pub hit: bool,
    /// true once a target test was applied: the value then counts as a hit
    pub targeted: bool,
}

/// Sum of the contributions of a sequence of values.
pub open spec fn sum_of(s: Seq<Value>) -> int
    decreases s.len(),
{
    if s.len() == 0 {
        0
    } else {
        sum_of(s.drop_last()) + s.last().contribution()
    }
}

/// Number of values that take part in the totals.
pub open spec fn kept_count(s: Seq<Value>) -> nat
    decreases s.len(),
{
    if s.len() == 0 {
        0
    } else {
        kept_count(s.drop_last()) + if s.last().keep { 1nat } else { 0nat }
    }
}

/// Number of kept values that met a target.
pub open spec fn hit_count(s: Seq<Value>) -> nat
    decreases s.len(),
{
    if s.len() == 0 {
        0
    } else {
        hit_count(s.drop_last()) + if s.last().keep && s.last().hit { 1nat } else { 0nat }
    }
}

/// Number of bonus values.
pub open spec fn bonus_count(s: Seq<Value>) -> nat
    decreases s.len(),
{
    if s.len() == 0 {
        0
    } else {
        bonus_count(s.drop_last()) + if s.last().bonus { 1nat } else { 0nat }
    }
}

/// Largest range among the values that are not constants; 0 if there is none.
pub open spec fn range_of(s: Seq<Value>) -> int
    decreases s.len(),
{
    if s.len() == 0 {
        0
    } else {
        let r = range_of(s.drop_last());
        if !s.last().constant && s.last().range > r {
            s.last().range as int
        } else {
            r
        }
    }
}

/// Number of values that were rolled, as opposed to constants.
pub open spec fn dice_in(s: Seq<Value>) -> int
    decreases s.len(),
{
    if s.len() == 0 {
        0
    } else {
        dice_in(s.drop_last()) + if s.last().constant {
            0int
        } else {
            1int
        }
    }
}

pub proof fn lemma_dice_in_bounds(s: Seq<Value>)
    ensures
        0 <= dice_in(s) <= s.len(),
    decreases s.len(),
{
    if s.len() > 0 {
        lemma_dice_in_bounds(s.drop_last());
    }
}

pub proof fn lemma_dice_in_concat(a: Seq<Value>, b: Seq<Value>)
    ensures
        dice_in(a + b) == dice_in(a) + dice_in(b),
    decreases b.len(),
{
    if b.len() == 0 {
        assert(a + b =~= a);
    } else {
        lemma_dice_in_concat(a, b.drop_last());
        assert((a + b).drop_last() =~= a + b.drop_last());
    }
}

/// Sequences whose values are constants at the same places hold as many dice.
pub proof fn lemma_dice_in_same(s: Seq<Value>, t: Seq<Value>)
    requires
        s.len() == t.len(),
        forall|i: int| 0 <= i < s.len() ==> (#[trigger] s[i]).constant == t[i].constant,
    ensures
        dice_in(s) == dice_in(t),
    decreases s.len(),
{
    if s.len() > 0 {
        let a = s.drop_last();
        let b = t.drop_last();
        assert forall|i: int| 0 <= i < a.len() implies (#[trigger] a[i]).constant == b[i].constant by {
            assert(a[i] == s[i] && b[i] == t[i]);
        }
        lemma_dice_in_same(a, b);
        assert(s[s.len() - 1].constant == t[t.len() - 1].constant);
    }
}

/// A sequence without constants is all dice.
pub proof fn lemma_dice_in_all(s: Seq<Value>)
    requires
        forall|i: int| 0 <= i < s.len() ==> !(#[trigger] s[i]).constant,
    ensures
        dice_in(s) == s.len(),
    decreases s.len(),
{
    if s.len() > 0 {
        let a = s.drop_last();
        assert forall|i: int| 0 <= i < a.len() implies !(#[trigger] a[i]).constant by {
            assert(a[i] == s[i]);
        }
        lemma_dice_in_all(a);
        assert(!s[s.len() - 1].constant);
    }
}

pub proof fn lemma_contribution_bound(v: Value)
    ensures
        -0x1_0000_0000 <= v.contribution() <= 0x1_0000_0000,
{
}

pub proof fn lemma_sum_of_bound(s: Seq<Value>)
    ensures
        -0x1_0000_0000 * s.len() <= sum_of(s) <= 0x1_0000_0000 * s.len(),
    decreases s.len(),
{
    if s.len() > 0 {
        lemma_sum_of_bound(s.drop_last());
        lemma_contribution_bound(s.last());
    }
}

impl Value {
    /// +1 for a value that counts positively, -1 for a penalty value.
    pub open spec fn sign(self) -> int {
        if self.penalty {
            -1
        } else {
            1
        }
    }

    /// What the value adds to its pool's total.
    pub open spec fn contribution(self) -> int {
        if !self.keep {
            0
        } else if self.targeted {
            if self.hit {
                self.sign()
            } else {
                0
            }
        } else if self.penalty {
            -(self.value + self.add)
        } else {
            self.value + self.add
        }
    }

    /// A value freshly rolled (or forced) with the given face.
    pub open spec fn fresh(value: i32, range: i32, bonus: bool) -> Value {
        Value {
            value,
            range,
            add: 0,
            penalty: false,
            constant: false,
            bonus,
            keep: true,
            hit: false,
            targeted: false,
        }
    }

    /// The same value, no longer taking part in the totals.
    pub open spec fn discarded(self) -> Value {
        Value { keep: false, ..self }
    }

    pub fn constant(value: i32) -> (r: Value)
        ensures
            r == (Value { constant: true, ..Value::fresh(value, value, false) }),
    {
        Value {
            value,
            range: value,
            add: 0,
            penalty: false,
            constant: true,
            bonus: false,
            keep: true,
            hit: false,
            targeted: false,
        }
    }

    /// A die of `range` sides rolled with `dice`.
    pub fn random(dice: &mut Dice, range: i32, bonus: bool) -> (r: Value)
        requires
            old(dice).wf(),
            range >= 1,
        ensures
            final(dice).wf(),
            1 <= r.value <= range,
            r == Value::fresh(r.value, range, bonus),
            final(dice).pending() == after_draws(old(dice).pending(), 1),
            old(dice).pending().len() > 0 && 1 <= old(dice).pending()[0] <= range ==> r.value == old(
                dice,
            ).pending()[0],
    {
        let value = dice.draw(range);
        Value::random_with_value(value, range, bonus)
    }

    /// A die of `range` sides that shows `value`.
    pub fn random_with_value(value: i32, range: i32, bonus: bool) -> (r: Value)
        ensures
            r == Value::fresh(value, range, bonus),
    {
        Value {
            value,
            range,
            add: 0,
            penalty: false,
            constant: false,
            bonus,
            keep: true,
            hit: false,
            targeted: false,
        }
    }

    pub fn sum(&self) -> (r: i64)
        ensures
            r == self.contribution(),
    {
        if !self.keep {
            0
        } else if self.targeted {
            if self.hit {
                if self.penalty {
                    -1
                } else {
                    1
                }
            } else {
                0
            }
        } else if self.penalty {
            -(self.value as i64 + self.add as i64)
        } else {
            self.value as i64 + self.add as i64
        }
    }

    pub fn is_const(&self) -> (r: bool)
        ensures
            r == self.constant,
    {
        self.constant
    }

    pub fn is_random(&self) -> (r: bool)
        ensures
            r == !self.constant,
    {
        !self.is_const()
    }

    pub fn is_hit(&self) -> (r: bool)
        ensures
            r == (self.keep && self.hit),
    {
        self.keep && self.hit
    }

    pub fn is_bonus(&self) -> (r: bool)
        ensures
            r == self.bonus,
    {
        self.bonus
    }

    pub fn is_discarded(&self) -> (r: bool)
        ensures
            r == !self.keep,
    {
        !self.keep
    }

    pub fn modifier(&self) -> (r: i32)
        ensures
            r == self.add,
    {
        self.add
    }

    pub fn set_modifier(&mut self, add: i32)
        ensures
            *final(self) == (Value { add, ..*old(self) }),
    {
        self.add = add;
    }

    pub fn mark_bonus(&mut self)
        ensures
            *final(self) == (Value { bonus: true, ..*old(self) }),
    {
        self.bonus = true;
    }

    pub fn mark_penalty(&mut self)
        ensures
            *final(self) == (Value { penalty: true, ..*old(self) }),
    {
        self.penalty = true;
    }

    pub fn mark_discarded(&mut self)
        ensures
            *final(self) == old(self).discarded(),
    {
        self.keep = false;
    }

    /// Records whether the value met a target; from then on a kept value
    /// counts its sign if it is a hit and nothing otherwise.
    pub fn set_hit(&mut self, hit: bool)
        ensures
            *final(self) == (Value { hit, targeted: true, ..*old(self) }),
    {
        self.hit = hit;
        self.targeted = true;
    }

    pub fn mark_hit(&mut self)
        ensures
            *final(self) == (Value { hit: true, targeted: true, ..*old(self) }),
    {
        self.set_hit(true);
    }
}

/// An ordered sequence of values, with an optional outcome that replaces
/// their sum (degrees of success).
pub struct Pool {
    pub values: Vec<Value>,
    /// the outcome set in place of the sum, if any
    pub value: Option<i128>,
}

impl Pool {
    pub open spec fn spec_sum(&self) -> int {
        sum_of(self.values@)
    }

    /// The pool's outcome: the value set in place of the sum, else the sum.
    pub open spec fn outcome(&self) -> int {
        match self.value {
            Some(v) => v as int,
            None => self.spec_sum(),
        }
    }

    pub fn new() -> (r: Pool)
        ensures
            r.values@ == Seq::<Value>::empty(),
            r.value == None::<i128>,
    {
        Pool { values: Vec::new(), value: None }
    }

    pub fn new_with_values(values: Vec<Value>) -> (r: Pool)
        ensures
            r.values@ == values@,
            r.value == None::<i128>,
    {
        Pool { values, value: None }
    }

    /// Largest range among the pool's dice; constants are not counted.
    pub fn range(&self) -> (r: i32)
        ensures
            r == range_of(self.values@),
    {
        let mut r: i32 = 0;
        let mut i: usize = 0;
        while i < self.values.len()
            invariant
                i <= self.values@.len(),
                r == range_of(self.values@.subrange(0, i as int)),
            decreases self.values@.len() - i,
        {
            assert(self.values@.subrange(0, i + 1).drop_last() =~= self.values@.subrange(0, i as int));
            let v = self.values[i];
            if !v.constant && v.range > r {
                r = v.range;
            }
            i = i + 1;
        }
        assert(self.values@.subrange(0, i as int) =~= self.values@);
        r
    }

    pub fn count(&self) -> (r: usize)
        ensures
            r == self.values@.len(),
    {
        self.values.len()
    }

    pub fn sum(&self) -> (r: i128)
        ensures
            r == sum_of(self.values@),
            -0x1_0000_0000_0000_0000_0000_0000 <= r <= 0x1_0000_0000_0000_0000_0000_0000,
    {
        let mut r: i128 = 0;
        let mut i: usize = 0;
        while i < self.values.len()
            invariant
                i <= self.values@.len(),
                r == sum_of(self.values@.subrange(0, i as int)),
            decreases self.values@.len() - i,
        {
            let ghost pre = self.values@.subrange(0, i as int);
            assert(self.values@.subrange(0, i + 1).drop_last() =~= pre);
            proof {
                lemma_sum_of_bound(pre);
            }
            let c = self.values[i].sum();
            r = r + c as i128;
            i = i + 1;
        }
        assert(self.values@.subrange(0, i as int) =~= self.values@);
        proof {
            lemma_sum_of_bound(self.values@);
        }
        r
    }

    /// Number of values that take part in the totals.
    pub fn kept(&self) -> (r: usize)
        ensures
            r == kept_count(self.values@),
    {
        let mut r: usize = 0;
        let mut i: usize = 0;
        while i < self.values.len()
            invariant
                i <= self.values@.len(),
                r == kept_count(self.values@.subrange(0, i as int)),
                r <= i,
            decreases self.values@.len() - i,
        {
            assert(self.values@.subrange(0, i + 1).drop_last() =~= self.values@.subrange(0, i as int));
            if !self.values[i].is_discarded() {
                r = r + 1;
            }
            i = i + 1;
        }
        assert(self.values@.subrange(0, i as int) =~= self.values@);
        r
    }

    /// Number of kept values that met a target.
    pub fn hits(&self) -> (r: usize)
        ensures
            r == hit_count(self.values@),
    {
        let mut r: usize = 0;
        let mut i: usize = 0;
        while i < self.values.len()
            invariant
                i <= self.values@.len(),
                r == hit_count(self.values@.subrange(0, i as int)),
                r <= i,
            decreases self.values@.len() - i,
        {
            assert(self.values@.subrange(0, i + 1).drop_last() =~= self.values@.subrange(0, i as int));
            if self.values[i].is_hit() {
                r = r + 1;
            }
            i = i + 1;
        }
        assert(self.values@.subrange(0, i as int) =~= self.values@);
        r
    }

    /// Number of values added by explodes or second batches.
    pub fn bonus(&self) -> (r: usize)
        ensures
            r == bonus_count(self.values@),
    {
        let mut r: usize = 0;
        let mut i: usize = 0;
        while i < self.values.len()
            invariant
                i <= self.values@.len(),
                r == bonus_count(self.values@.subrange(0, i as int)),
                r <= i,
            decreases self.values@.len() - i,
        {
            assert(self.values@.subrange(0, i + 1).drop_last() =~= self.values@.subrange(0, i as int));
            if self.values[i].is_bonus() {
                r = r + 1;
            }
            i = i + 1;
        }
        assert(self.values@.subrange(0, i as int) =~= self.values@);
        r
    }

    /// The pool's outcome.
    pub fn value(&self) -> (r: i128)
        ensures
            r == self.outcome(),
    {
        match self.value {
            Some(v) => v,
            None => self.sum(),
        }
    }

    /// Replaces the pool's outcome by `value`.
    pub fn set_value(&mut self, value: i128)
        ensures
            final(self).values@ == old(self).values@,
            final(self).value == Some(value),
    {
        self.value = Some(value);
    }
}

impl Default for Pool {
    fn default() -> (r: Pool)
        ensures
            r.values@ == Seq::<Value>::empty(),
            r.value == None::<i128>,
    {
        Pool::new()
    }
}

/// The outcome of a whole expression: the left pool, the right pool when a
/// comparison was made, and the final outcome.
pub struct Results {
    pub lhs: Pool,
    pub rhs: Option<Pool>,
    /// the comparison's result when there is a right pool, else the left
    /// pool's outcome
    pub value: i128,
}

impl Results {
    /// The final outcome.
    pub open spec fn outcome(&self) -> int {
        self.value as int
    }

    pub fn sum(&self) -> (r: i128)
        ensures
            r == self.outcome(),
    {
        self.value
    }
}

} // verus!
