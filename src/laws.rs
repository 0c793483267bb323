//! Properties of the pool operators, stated over their specifications.
use vstd::prelude::*;

use crate::generators::{
    ComparisonOp, Generator, PoolGenerator, PoolOp, SuccGenerator, SuccessOp, pool_steps,
};
use crate::pool_ops::{
    all_applied, discard_all, is_sorting, keep_best, keep_window, last_applied, lemma_stable_sort_sorts,
    drew_appended, rolled, stable_sort, taken,
};
use crate::results::{Pool, Results, Value, kept_count, sum_of};

verus! {

broadcast use vstd::seq_lib::group_to_multiset_ensures;

/// A per-value operator never brings back a discarded value: every value
/// of the pool that was discarded before it stays discarded, in place.
pub proof fn lemma_last_keeps_discards(op: PoolOp, old: Seq<Value>, new: Seq<Value>)
    requires
        last_applied(op, old, new),
    ensures
        new.len() >= old.len(),
        forall|i: int| 0 <= i < old.len() && !old[i].keep ==> !(#[trigger] new[i]).keep,
{
    if old.len() > 0 {
        let n = old.len() as int;
        match op {
            PoolOp::ExplodeEach(_) | PoolOp::ExplodeEachUntil(_) => {
                if new != old {
                    assert forall|i: int| 0 <= i < n implies #[trigger] new[i] == old[i] by {
                        assert(new.subrange(0, n)[i] == new[i]);
                    }
                }
            },
            _ => {},
        }
    }
}

/// `new` holds, position for position, a rearrangement `s` of the values
/// of `old`, each one unchanged or discarded, so that no value discarded in
/// `old` is kept in `new`; every value after those is a bonus die.
pub open spec fn keeps_discards(old: Seq<Value>, new: Seq<Value>) -> bool {
    exists|s: Seq<Value>|
        {
            &&& s.to_multiset() == old.to_multiset()
            &&& s.len() <= new.len()
            &&& forall|i: int|
                0 <= i < s.len() ==> #[trigger] new[i] == s[i] || new[i] == s[i].discarded()
            &&& forall|i: int| 0 <= i < s.len() && !s[i].keep ==> !(#[trigger] new[i]).keep
            &&& forall|j: int| s.len() <= j < new.len() ==> (#[trigger] new[j]).bonus
        }
}

proof fn lemma_keeps_discards_by(old: Seq<Value>, new: Seq<Value>, s: Seq<Value>)
    requires
        s.to_multiset() == old.to_multiset(),
        s.len() <= new.len(),
        forall|i: int| 0 <= i < s.len() ==> #[trigger] new[i] == s[i] || new[i] == s[i].discarded(),
        forall|j: int| s.len() <= j < new.len() ==> (#[trigger] new[j]).bonus,
    ensures
        keeps_discards(old, new),
{
    assert forall|i: int| 0 <= i < s.len() && !s[i].keep implies !(#[trigger] new[i]).keep by {
        assert(new[i] == s[i] || new[i] == s[i].discarded());
    }
}

/// A whole-pool operator never brings back a discarded value: value for
/// value, what was discarded stays discarded.
pub proof fn lemma_all_keeps_discards(op: PoolOp, old: Seq<Value>, new: Seq<Value>)
    requires
        all_applied(op, old, new),
    ensures
        keeps_discards(old, new),
{
    let n = old.len() as int;
    if new == old {
        lemma_keeps_discards_by(old, new, old);
        return;
    }
    match op {
        PoolOp::Explode(_) | PoolOp::ExplodeUntil(_) => {
            assert forall|i: int| 0 <= i < n implies #[trigger] new[i] == old[i] by {
                assert(new.subrange(0, n)[i] == new[i]);
            }
            lemma_until_tail_rolled(op, old, new);
            lemma_keeps_discards_by(old, new, old);
        },
        PoolOp::TakeLow(k) => {
            let s = stable_sort(old, false);
            lemma_stable_sort_sorts(old, false);
            lemma_keeps_discards_by(old, new, s);
        },
        PoolOp::TakeHigh(k) => {
            let s = stable_sort(old, true);
            lemma_stable_sort_sorts(old, true);
            lemma_keeps_discards_by(old, new, s);
        },
        PoolOp::TakeMid(k) => {
            let s = stable_sort(old, true);
            lemma_stable_sort_sorts(old, true);
            lemma_keeps_discards_by(old, new, s);
        },
        PoolOp::BestGroup => {
            let s = stable_sort(old, true);
            lemma_stable_sort_sorts(old, true);
            lemma_keeps_discards_by(old, new, s);
        },
        PoolOp::Advantage | PoolOp::Disadvantage => {
            let adv = op == PoolOp::Advantage;
            let b = choose|b: Seq<Value>|
                {
                    &&& b.len() == old.len()
                    &&& rolled(b, crate::results::range_of(old), true)
                    &&& new == if (sum_of(b) > sum_of(old)) == adv {
                        discard_all(old) + b
                    } else {
                        old + discard_all(b)
                    }
                };
            assert forall|i: int| 0 <= i < n implies #[trigger] new[i] == old[i] || new[i]
                == old[i].discarded() by {}
            assert forall|j: int| n <= j < new.len() implies (#[trigger] new[j]).bonus by {
                assert(b[j - n] == Value::fresh(b[j - n].value, crate::results::range_of(old) as i32, true));
            }
            lemma_keeps_discards_by(old, new, old);
        },
        _ => {
            lemma_keeps_discards_by(old, new, old);
        },
    }
}

/// What an explode adds are bonus dice.
proof fn lemma_until_tail_rolled(op: PoolOp, old: Seq<Value>, new: Seq<Value>)
    requires
        all_applied(op, old, new),
        old.len() > 0,
        new != old,
        op is Explode || op is ExplodeUntil,
    ensures
        forall|j: int| old.len() <= j < new.len() ==> (#[trigger] new[j]).bonus,
{
    let n = old.len() as int;
    let tail = new.subrange(n, new.len() as int);
    if op is ExplodeUntil {
        lemma_until_all_rolled(tail, n, kept_count(old) as int, crate::pool_ops::threshold(
            op->ExplodeUntil_0,
            crate::results::range_of(old),
        ), crate::results::range_of(old));
    }
    assert forall|j: int| n <= j < new.len() implies (#[trigger] new[j]).bonus by {
        assert(tail[j - n] == new[j]);
    }
}

/// Every value that an explode-until appends is a fresh bonus die.
pub proof fn lemma_until_all_rolled(new: Seq<Value>, len: int, k: int, t: int, range: int)
    requires
        crate::pool_ops::until_appended(new, len, k, t, range),
        k >= 1,
    ensures
        rolled(new, range, true),
{
    if len + k <= usize::MAX {
        let head = new.subrange(0, new.len() - k);
        let last = new.subrange(new.len() - k, new.len() as int);
        lemma_batches_rolled(head, k, t, range);
        assert forall|i: int| 0 <= i < new.len() implies {
            &&& #[trigger] new[i] == Value::fresh(new[i].value, range as i32, true)
            &&& 1 <= new[i].value <= range
        } by {
            if i < new.len() - k {
                assert(head[i] == new[i]);
            } else {
                assert(last[i - (new.len() - k)] == new[i]);
            }
        }
    }
}

proof fn lemma_batches_rolled(s: Seq<Value>, k: int, t: int, range: int)
    requires
        crate::pool_ops::met_batches(s, k, t, range),
        k >= 1,
    ensures
        rolled(s, range, true),
    decreases s.len(),
{
    if s.len() >= k {
        let head = s.subrange(0, s.len() - k);
        let tail = s.subrange(s.len() - k, s.len() as int);
        lemma_batches_rolled(head, k, t, range);
        assert forall|i: int| 0 <= i < s.len() implies {
            &&& #[trigger] s[i] == Value::fresh(s[i].value, range as i32, true)
            &&& 1 <= s[i].value <= range
        } by {
            if i < s.len() - k {
                assert(head[i] == s[i]);
            } else {
                assert(tail[i - (s.len() - k)] == s[i]);
            }
        }
    }
}

/// Two sequences with the same multiset hold the same values.
proof fn lemma_same_members(a: Seq<Value>, b: Seq<Value>, i: int)
    requires
        a.to_multiset() == b.to_multiset(),
        0 <= i < a.len(),
    ensures
        b.contains(a[i]),
{
    assert(a.contains(a[i]));
    assert(a.to_multiset().count(a[i]) > 0);
    assert(b.to_multiset().count(a[i]) > 0);
}

/// Keeping the highest of two fresh dice keeps exactly one of them, and the
/// pool then adds up to the higher face.
pub proof fn lemma_keep_higher_of_two(old: Seq<Value>, new: Seq<Value>, range: int)
    requires
        old.len() == 2,
        rolled(old, range, false),
        all_applied(PoolOp::TakeHigh(1), old, new),
    ensures
        new.len() == 2,
        kept_count(new) == 1,
        sum_of(new) == if old[0].value >= old[1].value {
            old[0].value
        } else {
            old[1].value
        },
        sum_of(new) == if new[0].value >= new[1].value {
            new[0].value
        } else {
            new[1].value
        },
{
    assert(taken(old, new, true, 0, 1));
    let s = stable_sort(old, true);
    lemma_stable_sort_sorts(old, true);
    assert(s.to_multiset().len() == s.len());
    assert(old.to_multiset().len() == old.len());
    assert(s.len() == 2);
    lemma_same_members(s, old, 0);
    lemma_same_members(s, old, 1);
    lemma_same_members(old, s, 0);
    lemma_same_members(old, s, 1);
    assert(s[0].value >= s[1].value);
    assert(old[0] == s[0] || old[0] == s[1]);
    assert(old[1] == s[0] || old[1] == s[1]);
    assert(new[0] == s[0]);
    assert(new[1] == s[1].discarded());
    assert(s[0] == old[0] || s[0] == old[1]);
    assert(old[0] == Value::fresh(old[0].value, range as i32, false));
    assert(old[1] == Value::fresh(old[1].value, range as i32, false));
    assert(new.drop_last() =~= seq![s[0]]);
    assert(seq![s[0]].drop_last() =~= Seq::<Value>::empty());
    assert(sum_of(Seq::<Value>::empty()) == 0);
    assert(kept_count(Seq::<Value>::empty()) == 0);
    assert(sum_of(seq![s[0]]) == s[0].value);
    assert(kept_count(seq![s[0]]) == 1);
}

/// A single die that shows its highest face explodes: one bonus die is
/// added, and the pool adds up to more than the die's range.
pub proof fn lemma_explode_at_max(range: i32, new: Seq<Value>)
    requires
        range >= 1,
        all_applied(PoolOp::Explode(None), seq![Value::fresh(range, range, false)], new),
    ensures
        new.len() == 2,
        new[1].bonus,
        sum_of(new) > range,
{
    let old = seq![Value::fresh(range, range, false)];
    assert(old.drop_last() =~= Seq::<Value>::empty());
    assert(crate::results::range_of(Seq::<Value>::empty()) == 0);
    assert(kept_count(Seq::<Value>::empty()) == 0);
    assert(crate::results::range_of(old) == range);
    assert(kept_count(old) == 1);
    assert(new.subrange(0, 1)[0] == new[0]);
    let tail = new.subrange(1, 2);
    assert(tail[0] == new[1]);
    assert(new.drop_last() =~= seq![new[0]]);
    assert(seq![new[0]].drop_last() =~= Seq::<Value>::empty());
    assert(sum_of(Seq::<Value>::empty()) == 0);
    assert(new[0] == old[0]);
    assert(sum_of(seq![new[0]]) == range);
    assert(new[1] == Value::fresh(new[1].value, range, true));
}


/// Counting degrees of success against `n`: a pool whose sum `s` reaches
/// `n` has the outcome `s - n + 1`, any other pool the outcome 0.
pub proof fn lemma_degrees_of_success(g: SuccGenerator, n: i32, p: Pool)
    requires
        g.op == Some(SuccessOp::TargetSucc(n)),
        g.produces(p),
    ensures
        p.outcome() == if sum_of(p.values@) >= n {
            sum_of(p.values@) - n + 1
        } else {
            0
        },
{
}

/// A `>` comparison yields a right pool, and the outcome 1 exactly when the
/// left pool's outcome is strictly greater than the right pool's, else 0.
pub proof fn lemma_greater_than(g: Generator, r: Results)
    requires
        g.op matches Some(ComparisonOp::GT(_)),
        g.produces(r),
    ensures
        r.rhs matches Some(rp) && r.outcome() == if r.lhs.outcome() > rp.outcome() {
            1int
        } else {
            0
        },
{
}


/// After best-group, the pool keeps its size and every value still kept
/// shows one same face.
pub proof fn lemma_best_group_one_face(old: Seq<Value>, new: Seq<Value>)
    requires
        all_applied(PoolOp::BestGroup, old, new),
    ensures
        new.len() == old.len(),
        forall|i: int, j: int|
            0 <= i < new.len() && 0 <= j < new.len() && (#[trigger] new[i]).keep && (#[trigger] new[j]).keep
                ==> new[i].value == new[j].value,
{
    if old.len() > 0 {
        let s = stable_sort(old, true);
        lemma_stable_sort_sorts(old, true);
        assert(s.to_multiset().len() == s.len());
        assert(old.to_multiset().len() == old.len());
        crate::pool_ops::lemma_no_group_no_kept(s);
    }
}


/// Rolling two dice and keeping the higher (`2d6^1` and the like) keeps
/// exactly one of them, and the pool adds up to the higher face.
pub proof fn lemma_two_dice_keep_higher(pg: PoolGenerator, s: Seq<Value>)
    requires
        pg.count == 2,
        pg.op == Some(PoolOp::TakeHigh(1)),
        pg.produces(s),
    ensures
        s.len() == 2,
        kept_count(s) == 1,
        sum_of(s) == if s[0].value >= s[1].value {
            s[0].value
        } else {
            s[1].value
        },
{
    let (faces, steps) = choose|faces: Seq<i32>, steps: Seq<Seq<Value>>|
        {
            &&& faces.len() == pg.dice_count()
            &&& crate::generators::faces_in_range(faces, pg.range as int)
            &&& pool_steps(pg.op, pg.range as int, faces, steps)
            &&& all_applied(PoolOp::TakeHigh(1), steps[faces.len() as int], s)
        };
    let r = pg.range as int;
    let v0 = Value::fresh(faces[0], r as i32, false);
    let v1 = Value::fresh(faces[1], r as i32, false);
    assert(last_applied(PoolOp::TakeHigh(1), steps[0].push(v0), steps[1]));
    assert(last_applied(PoolOp::TakeHigh(1), steps[1].push(v1), steps[2]));
    assert(steps[0].push(v0) == steps[1]);
    assert(steps[1].push(v1) == steps[2]);
    let two = steps[2];
    assert(two =~= seq![v0, v1]);
    assert(rolled(two, r, false));
    lemma_keep_higher_of_two(two, s, r);
}


/// A whole-pool operator brings in no constant: a pool of rolled values
/// stays one.
pub proof fn lemma_all_keeps_rolled(op: PoolOp, old: Seq<Value>, new: Seq<Value>)
    requires
        all_applied(op, old, new),
        forall|i: int| 0 <= i < old.len() ==> !(#[trigger] old[i]).constant,
    ensures
        forall|i: int| 0 <= i < new.len() ==> !(#[trigger] new[i]).constant,
{
    let n = old.len() as int;
    if new == old {
        return;
    }
    match op {
        PoolOp::Explode(_) | PoolOp::ExplodeUntil(_) => {
            let tail = new.subrange(n, new.len() as int);
            if op is ExplodeUntil {
                lemma_until_all_rolled(tail, n, kept_count(old) as int, crate::pool_ops::threshold(
                    op->ExplodeUntil_0,
                    crate::results::range_of(old),
                ), crate::results::range_of(old));
            }
            assert forall|i: int| 0 <= i < new.len() implies !(#[trigger] new[i]).constant by {
                if i < n {
                    assert(new.subrange(0, n)[i] == new[i]);
                } else {
                    assert(tail[i - n] == new[i]);
                }
            }
        },
        PoolOp::TakeLow(_) | PoolOp::TakeHigh(_) | PoolOp::TakeMid(_) | PoolOp::BestGroup => {
            let d = !(op is TakeLow);
            let s = stable_sort(old, d);
            lemma_stable_sort_sorts(old, d);
            assert(new.len() == s.len());
            assert forall|i: int| 0 <= i < new.len() implies !(#[trigger] new[i]).constant by {
                lemma_same_members(s, old, i);
                assert(new[i] == s[i] || new[i] == s[i].discarded());
            }
        },
        PoolOp::Advantage | PoolOp::Disadvantage => {
            let adv = op == PoolOp::Advantage;
            let b = choose|b: Seq<Value>|
                {
                    &&& b.len() == old.len()
                    &&& rolled(b, crate::results::range_of(old), true)
                    &&& new == if (sum_of(b) > sum_of(old)) == adv {
                        discard_all(old) + b
                    } else {
                        old + discard_all(b)
                    }
                };
            assert forall|i: int| 0 <= i < new.len() implies !(#[trigger] new[i]).constant by {
                if i >= n {
                    assert(b[i - n] == Value::fresh(b[i - n].value, crate::results::range_of(old) as i32, true));
                }
            }
        },
        _ => {},
    }
}


/// A pool without an operator is fixed by a script that holds a fitting
/// face for each of its dice: two rolls on the same script agree.
pub proof fn lemma_plain_pool_fixed_by_script(
    range: int,
    d: Seq<i32>,
    a: Seq<Value>,
    b: Seq<Value>,
)
    requires
        1 <= range <= i32::MAX,
        a.len() == b.len(),
        a.len() <= d.len(),
        forall|j: int| 0 <= j < a.len() ==> 1 <= #[trigger] d[j] <= range,
        rolled(a, range, false),
        rolled(b, range, false),
        crate::dice::follows_script(d, a),
        crate::dice::follows_script(d, b),
    ensures
        a == b,
{
    assert forall|j: int| 0 <= j < a.len() implies a[j] == b[j] by {
        assert(a[j] == Value::fresh(a[j].value, range as i32, false));
        assert(b[j] == Value::fresh(b[j].value, range as i32, false));
        assert(1 <= d[j] <= range);
        assert(a[j].range == range && b[j].range == range);
        assert(a[j].value == d[j] && b[j].value == d[j]);
    }
    assert(a =~= b);
}


proof fn lemma_range_of_bounds(s: Seq<Value>)
    ensures
        0 <= crate::results::range_of(s) <= i32::MAX,
    decreases s.len(),
{
    if s.len() > 0 {
        lemma_range_of_bounds(s.drop_last());
    }
}

/// Fresh bonus dice of `range` sides that show the script's faces are the
/// same dice.
proof fn lemma_rolled_from_script(d: Seq<i32>, x: Seq<Value>, y: Seq<Value>, range: int)
    requires
        1 <= range <= i32::MAX,
        x.len() == y.len(),
        x.len() <= d.len(),
        forall|j: int| 0 <= j < d.len() ==> 1 <= #[trigger] d[j] <= range,
        rolled(x, range, true),
        rolled(y, range, true),
        forall|j: int| 0 <= j < x.len() ==> (#[trigger] x[j]).value == d[j],
        forall|j: int| 0 <= j < y.len() ==> (#[trigger] y[j]).value == d[j],
    ensures
        x == y,
{
    assert forall|j: int| 0 <= j < x.len() implies x[j] == y[j] by {
        assert(x[j] == Value::fresh(x[j].value, range as i32, true));
        assert(y[j] == Value::fresh(y[j].value, range as i32, true));
    }
    assert(x =~= y);
}

/// The same whole-pool operator on the same pool and the same script gives
/// the same pool, when the script holds more faces than the operator draws
/// and every face fits the pool's dice: what it does is fixed by the faces.
pub proof fn lemma_all_fixed_by_script(
    op: PoolOp,
    old: Seq<Value>,
    a: Seq<Value>,
    b: Seq<Value>,
    d: Seq<i32>,
    rest: Seq<i32>,
)
    requires
        all_applied(op, old, a),
        all_applied(op, old, b),
        drew_appended(d, rest, old, a),
        drew_appended(d, rest, old, b),
        a.len() - old.len() < d.len(),
        forall|j: int| 0 <= j < d.len() ==> 1 <= #[trigger] d[j] <= crate::results::range_of(old),
    ensures
        a == b,
{
    let n = old.len() as int;
    let r = crate::results::range_of(old);
    lemma_range_of_bounds(old);
    let ma = a.len() - n;
    let mb = b.len() - n;
    assert(rest == crate::dice::after_draws(d, ma));
    assert(rest.len() == d.len() - ma);
    assert(rest == crate::dice::after_draws(d, mb));
    if mb >= d.len() {
        assert(rest.len() == 0);
    }
    assert(rest.len() == d.len() - mb);
    assert(a.len() == b.len());
    let ta = a.subrange(n, a.len() as int);
    let tb = b.subrange(n, b.len() as int);
    if a == old || b == old {
        return;
    }
    match op {
        PoolOp::Explode(_) | PoolOp::ExplodeUntil(_) => {
            if op is ExplodeUntil {
                let t = crate::pool_ops::threshold(op->ExplodeUntil_0, r);
                lemma_until_all_rolled(ta, n, kept_count(old) as int, t, r);
                lemma_until_all_rolled(tb, n, kept_count(old) as int, t, r);
            }
            assert forall|j: int| 0 <= j < ta.len() implies (#[trigger] ta[j]).value == d[j] by {
                assert(ta[j].range == r);
            }
            assert forall|j: int| 0 <= j < tb.len() implies (#[trigger] tb[j]).value == d[j] by {
                assert(tb[j].range == r);
            }
            lemma_rolled_from_script(d, ta, tb, r);
            assert forall|j: int| 0 <= j < a.len() implies a[j] == b[j] by {
                if j < n {
                    assert(a.subrange(0, n)[j] == a[j]);
                    assert(b.subrange(0, n)[j] == b[j]);
                } else {
                    assert(ta[j - n] == a[j]);
                    assert(tb[j - n] == b[j]);
                }
            }
            assert(a =~= b);
        },
        PoolOp::Advantage | PoolOp::Disadvantage => {
            let adv = op == PoolOp::Advantage;
            let ba = choose|x: Seq<Value>|
                {
                    &&& x.len() == old.len()
                    &&& rolled(x, r, true)
                    &&& a == if (sum_of(x) > sum_of(old)) == adv {
                        discard_all(old) + x
                    } else {
                        old + discard_all(x)
                    }
                };
            let bb = choose|x: Seq<Value>|
                {
                    &&& x.len() == old.len()
                    &&& rolled(x, r, true)
                    &&& b == if (sum_of(x) > sum_of(old)) == adv {
                        discard_all(old) + x
                    } else {
                        old + discard_all(x)
                    }
                };
            assert forall|j: int| 0 <= j < ba.len() implies (#[trigger] ba[j]).value == d[j] by {
                assert(ta[j].value == ba[j].value && ta[j].range == ba[j].range);
            }
            assert forall|j: int| 0 <= j < bb.len() implies (#[trigger] bb[j]).value == d[j] by {
                assert(tb[j].value == bb[j].value && tb[j].range == bb[j].range);
            }
            lemma_rolled_from_script(d, ba, bb, r);
        },
        _ => {},
    }
}


/// The same per-value operator on the same pool and the same script gives
/// the same pool, when the script holds more faces than the operator draws
/// and every face fits the latest die: what it does is fixed by the faces.
pub proof fn lemma_last_fixed_by_script(
    op: PoolOp,
    old: Seq<Value>,
    a: Seq<Value>,
    b: Seq<Value>,
    d: Seq<i32>,
    rest: Seq<i32>,
)
    requires
        old.len() > 0,
        last_applied(op, old, a),
        last_applied(op, old, b),
        drew_appended(d, rest, old, a),
        drew_appended(d, rest, old, b),
        a.len() - old.len() < d.len(),
        forall|j: int| 0 <= j < d.len() ==> 1 <= #[trigger] d[j] <= old.last().range,
    ensures
        a == b,
{
    let n = old.len() as int;
    let r = old.last().range as int;
    let ma = a.len() - n;
    let mb = b.len() - n;
    assert(rest == crate::dice::after_draws(d, ma));
    assert(rest.len() == d.len() - ma);
    assert(rest == crate::dice::after_draws(d, mb));
    if mb >= d.len() {
        assert(rest.len() == 0);
    }
    assert(rest.len() == d.len() - mb);
    assert(a.len() == b.len());
    let ta = a.subrange(n, a.len() as int);
    let tb = b.subrange(n, b.len() as int);
    if a == old || b == old {
        return;
    }
    match op {
        PoolOp::ExplodeEach(_) | PoolOp::ExplodeEachUntil(_) => {
            if op is ExplodeEachUntil {
                let t = crate::pool_ops::threshold(op->ExplodeEachUntil_0, r);
                lemma_until_all_rolled(ta, n, 1, t, r);
                lemma_until_all_rolled(tb, n, 1, t, r);
            }
            assert forall|j: int| 0 <= j < ta.len() implies (#[trigger] ta[j]).value == d[j] by {
                assert(ta[j].range == r);
            }
            assert forall|j: int| 0 <= j < tb.len() implies (#[trigger] tb[j]).value == d[j] by {
                assert(tb[j].range == r);
            }
            lemma_rolled_from_script(d, ta, tb, r);
            assert forall|j: int| 0 <= j < a.len() implies a[j] == b[j] by {
                if j < n {
                    assert(a.subrange(0, n)[j] == a[j]);
                    assert(b.subrange(0, n)[j] == b[j]);
                } else {
                    assert(ta[j - n] == a[j]);
                    assert(tb[j - n] == b[j]);
                }
            }
            assert(a =~= b);
        },
        _ => {},
    }
}

} // verus!
