//! The pool-operator engine: what each `PoolOp` does to a pool.
//!
//! Operators that reorder a pool sort it by face, stably: values of equal
//! face keep the order in which they were rolled (`stable_sort`).
use vstd::prelude::*;

use crate::dice::{Dice, after_draws, follows_script, lemma_after_draws_add, lemma_follows_concat};
use crate::generators::PoolOp;
use crate::results::{Pool, Value, sum_of, kept_count, range_of, lemma_sum_of_bound};

verus! {

broadcast use vstd::seq_lib::group_to_multiset_ensures;

/// A face `a` may stand before a face `b` in the given order.
pub open spec fn face_order(a: int, b: int, descending: bool) -> bool {
    if descending {
        a >= b
    } else {
        a <= b
    }
}

/// Faces of `s` in order: non-increasing if `descending`, else non-decreasing.
pub open spec fn sorted_faces(s: Seq<Value>, descending: bool) -> bool {
    forall|i: int, j: int|
        0 <= i < j < s.len() ==> face_order(#[trigger] s[i].value as int, #[trigger] s[j].value as int, descending)
}

fn in_face_order(a: &Value, b: &Value, descending: bool) -> (r: bool)
    ensures
        r == face_order(a.value as int, b.value as int, descending),
{
    if descending {
        a.value >= b.value
    } else {
        a.value <= b.value
    }
}

/// `s` holds the values of `old`, reordered by face.
pub open spec fn is_sorting(s: Seq<Value>, old: Seq<Value>, descending: bool) -> bool {
    &&& s.to_multiset() == old.to_multiset()
    &&& sorted_faces(s, descending)
}

/// `s` with every value outside positions `lo..hi` discarded.
pub open spec fn keep_window(s: Seq<Value>, lo: int, hi: int) -> Seq<Value> {
    Seq::new(s.len(), |i: int| if lo <= i < hi { s[i] } else { s[i].discarded() })
}

/// `s` with every value discarded.
pub open spec fn discard_all(s: Seq<Value>) -> Seq<Value> {
    Seq::new(s.len(), |i: int| s[i].discarded())
}

/// `s` with every value whose face is not `face` discarded.
pub open spec fn keep_face(s: Seq<Value>, face: int) -> Seq<Value> {
    Seq::new(s.len(), |i: int| if s[i].value == face { s[i] } else { s[i].discarded() })
}

/// Every value of `s` is a freshly rolled die of `range` sides.
pub open spec fn rolled(s: Seq<Value>, range: int, bonus: bool) -> bool {
    forall|i: int|
        0 <= i < s.len() ==> {
            &&& #[trigger] s[i] == Value::fresh(s[i].value, range as i32, bonus)
            &&& 1 <= s[i].value <= range
        }
}

/// Every face of `s` is at least `t`.
pub open spec fn all_at_least(s: Seq<Value>, t: int) -> bool {
    forall|i: int| 0 <= i < s.len() ==> #[trigger] s[i].value >= t
}

/// The explode threshold: the given one, else the die's range.
pub open spec fn threshold(n: Option<i32>, range: int) -> int {
    match n {
        Some(t) => t as int,
        None => range,
    }
}

/// A die that explodes can be rolled again: it is no constant and has sides.
pub open spec fn explodable(v: Value) -> bool {
    !v.constant && v.range >= 1
}

/// `s` is made of whole batches of `k` fresh bonus dice of `range` sides,
/// each batch with every face at least `t`.
pub open spec fn met_batches(s: Seq<Value>, k: int, t: int, range: int) -> bool
    decreases s.len(),
{
    if k <= 0 || s.len() < k {
        s.len() == 0
    } else {
        let head = s.subrange(0, s.len() - k);
        let tail = s.subrange(s.len() - k, s.len() as int);
        &&& met_batches(head, k, t, range)
        &&& rolled(tail, range, true)
        &&& all_at_least(tail, t)
    }
}

/// What an explode-until appends to a pool of `len` values: batches of `k`
/// fresh bonus dice of `range` sides, one more for as long as the latest
/// batch met `t` in full and a pool can hold another batch.
pub open spec fn until_appended(new: Seq<Value>, len: int, k: int, t: int, range: int) -> bool {
    if len + k > usize::MAX {
        new.len() == 0
    } else {
        let last = new.subrange(new.len() - k, new.len() as int);
        &&& new.len() >= k
        &&& met_batches(new.subrange(0, new.len() - k), k, t, range)
        &&& rolled(last, range, true)
        &&& (!all_at_least(last, t) || len + new.len() + k > usize::MAX)
    }
}

/// Scan of the kept values of `s` for runs of equal faces: the face of the
/// last kept value (none before the first), the length of its run, the
/// longest run length and the face of the first run that reached it. A lone
/// value is a run of length 1.
pub open spec fn group_scan(s: Seq<Value>) -> (Option<int>, int, int, Option<int>)
    decreases s.len(),
{
    if s.len() == 0 {
        (None, 0, 0, None)
    } else {
        let (last, run, best, face) = group_scan(s.drop_last());
        let v = s.last();
        if !v.keep {
            (last, run, best, face)
        } else {
            let len = if last == Some(v.value as int) {
                run + 1
            } else {
                1
            };
            if len > best {
                (Some(v.value as int), len, len, Some(v.value as int))
            } else {
                (Some(v.value as int), len, best, face)
            }
        }
    }
}

/// The face of the first longest run of equal kept faces of a pool sorted by
/// face; none when no value is kept.
pub open spec fn best_group_face(s: Seq<Value>) -> Option<int> {
    group_scan(s).3
}

/// Without a best group, no value is kept.
pub proof fn lemma_no_group_no_kept(s: Seq<Value>)
    ensures
        group_scan(s).1 >= 0,
        group_scan(s).2 >= 0,
        group_scan(s).3 is None <==> group_scan(s).2 == 0,
        group_scan(s).3 is None ==> forall|i: int| 0 <= i < s.len() ==> !(#[trigger] s[i]).keep,
    decreases s.len(),
{
    if s.len() > 0 {
        let t = s.drop_last();
        lemma_no_group_no_kept(t);
        if group_scan(s).3 is None {
            assert(!s.last().keep);
            assert(group_scan(t).3 is None);
            assert forall|i: int| 0 <= i < s.len() implies !(#[trigger] s[i]).keep by {
                if i < s.len() - 1 {
                    assert(t[i] == s[i]);
                }
            }
        }
    }
}

/// `s` with every value outside the best group discarded.
pub open spec fn keep_best(s: Seq<Value>) -> Seq<Value> {
    match best_group_face(s) {
        Some(f) => keep_face(s, f),
        None => s,
    }
}

/// Where `v` goes in `t`: after the leading values that may stand before it.
pub open spec fn insert_pos(t: Seq<Value>, v: Value, descending: bool) -> int
    decreases t.len(),
{
    if t.len() > 0 && face_order(t[0].value as int, v.value as int, descending) {
        1 + insert_pos(t.drop_first(), v, descending)
    } else {
        0
    }
}

/// The values of `s` sorted by face, stably: each value is inserted, in
/// turn, after every value already placed that may stand before it, so that
/// values of equal face keep their order.
pub open spec fn stable_sort(s: Seq<Value>, descending: bool) -> Seq<Value>
    decreases s.len(),
{
    if s.len() == 0 {
        s
    } else {
        let t = stable_sort(s.drop_last(), descending);
        t.insert(insert_pos(t, s.last(), descending), s.last())
    }
}

proof fn lemma_insert_pos_at(t: Seq<Value>, v: Value, descending: bool, j: int)
    requires
        0 <= j <= t.len(),
        forall|m: int| 0 <= m < j ==> face_order(#[trigger] t[m].value as int, v.value as int, descending),
        j == t.len() || !face_order(t[j].value as int, v.value as int, descending),
    ensures
        insert_pos(t, v, descending) == j,
    decreases j,
{
    if j > 0 {
        let u = t.drop_first();
        assert forall|m: int| 0 <= m < j - 1 implies face_order(#[trigger] u[m].value as int, v.value as int, descending) by {
            assert(u[m] == t[m + 1]);
        }
        if j < t.len() {
            assert(u[j - 1] == t[j]);
        }
        lemma_insert_pos_at(u, v, descending, j - 1);
        assert(face_order(t[0].value as int, v.value as int, descending));
    }
}

proof fn lemma_insert_pos_facts(t: Seq<Value>, v: Value, descending: bool)
    ensures
        0 <= insert_pos(t, v, descending) <= t.len(),
        forall|m: int|
            0 <= m < insert_pos(t, v, descending) ==> face_order(#[trigger] t[m].value as int, v.value as int, descending),
        insert_pos(t, v, descending) == t.len() || !face_order(
            t[insert_pos(t, v, descending)].value as int,
            v.value as int,
            descending,
        ),
    decreases t.len(),
{
    if t.len() > 0 && face_order(t[0].value as int, v.value as int, descending) {
        let u = t.drop_first();
        lemma_insert_pos_facts(u, v, descending);
        assert forall|m: int| 0 <= m < insert_pos(t, v, descending) implies face_order(
            #[trigger] t[m].value as int,
            v.value as int,
            descending,
        ) by {
            if m > 0 {
                assert(t[m] == u[m - 1]);
            }
        }
        if insert_pos(u, v, descending) < u.len() {
            assert(t[insert_pos(t, v, descending)] == u[insert_pos(u, v, descending)]);
        }
    }
}

/// Inserting at its place keeps a sequence sorted by face.
proof fn lemma_insert_sorted(t: Seq<Value>, v: Value, descending: bool)
    requires
        sorted_faces(t, descending),
    ensures
        sorted_faces(t.insert(insert_pos(t, v, descending), v), descending),
{
    lemma_insert_pos_facts(t, v, descending);
    let j = insert_pos(t, v, descending);
    let out = t.insert(j, v);
    t.insert_ensures(j, v);
    assert forall|a: int, b: int| 0 <= a < b < out.len() implies face_order(
        #[trigger] out[a].value as int,
        #[trigger] out[b].value as int,
        descending,
    ) by {
        if b < j {
        } else if b == j {
        } else if a < j {
            assert(out[b] == t[b - 1]);
            assert(t[j] == out[j + 1]);
        } else if a == j {
            assert(out[b] == t[b - 1]);
        } else {
            assert(out[b] == t[b - 1]);
            assert(out[a] == t[a - 1]);
        }
    }
}

/// The stable sort sorts: it rearranges the values, in order of face.
pub proof fn lemma_stable_sort_sorts(s: Seq<Value>, descending: bool)
    ensures
        is_sorting(stable_sort(s, descending), s, descending),
        stable_sort(s, descending).len() == s.len(),
    decreases s.len(),
{
    if s.len() > 0 {
        let t = stable_sort(s.drop_last(), descending);
        lemma_stable_sort_sorts(s.drop_last(), descending);
        lemma_insert_pos_facts(t, s.last(), descending);
        lemma_insert_sorted(t, s.last(), descending);
        assert(s =~= s.drop_last().push(s.last()));
    }
}

/// Sorts by face, stably: values of equal face keep their relative order.
fn sort_by_face(values: &Vec<Value>, descending: bool) -> (r: Vec<Value>)
    ensures
        r@ == stable_sort(values@, descending),
        is_sorting(r@, values@, descending),
        r@.len() == values@.len(),
{
    let mut out: Vec<Value> = Vec::new();
    let mut i: usize = 0;
    while i < values.len()
        invariant
            i <= values@.len(),
            out@ == stable_sort(values@.subrange(0, i as int), descending),
        decreases values@.len() - i,
    {
        let v = values[i];
        let mut j: usize = 0;
        while j < out.len() && in_face_order(&out[j], &v, descending)
            invariant
                j <= out@.len(),
                forall|m: int|
                    0 <= m < j ==> face_order(#[trigger] out@[m].value as int, v.value as int, descending),
            decreases out@.len() - j,
        {
            j = j + 1;
        }
        proof {
            lemma_insert_pos_at(out@, v, descending, j as int);
            assert(values@.subrange(0, i + 1).drop_last() =~= values@.subrange(0, i as int));
        }
        out.insert(j, v);
        i = i + 1;
    }
    assert(values@.subrange(0, i as int) =~= values@);
    proof {
        lemma_stable_sort_sorts(values@, descending);
    }
    out
}

/// Sorts the pool by face and discards every value outside `lo..hi`.
fn keep_sorted_window(pool: &mut Pool, descending: bool, lo: usize, hi: usize)
    ensures
        final(pool).value == old(pool).value,
        final(pool).values@.len() == old(pool).values@.len(),
        final(pool).values@ == keep_window(stable_sort(old(pool).values@, descending), lo as int, hi as int),
{
    let mut sorted = sort_by_face(&pool.values, descending);
    let ghost s = sorted@;
    let mut k: usize = 0;
    while k < sorted.len()
        invariant
            k <= sorted@.len(),
            sorted@.len() == s.len(),
            forall|m: int| 0 <= m < k ==> #[trigger] sorted@[m] == keep_window(s, lo as int, hi as int)[m],
            forall|m: int| k <= m < s.len() ==> #[trigger] sorted@[m] == s[m],
        decreases s.len() - k,
    {
        if k < lo || k >= hi {
            let mut v = sorted[k];
            v.mark_discarded();
            sorted.set(k, v);
        }
        k = k + 1;
    }
    assert(sorted@ =~= keep_window(s, lo as int, hi as int));
    pool.values = sorted;
}


/// The values of `s` at positions `lo..hi` discarded, the others as they were.
pub open spec fn discard_between(s: Seq<Value>, lo: int, hi: int) -> Seq<Value> {
    Seq::new(s.len(), |i: int| if lo <= i < hi { s[i].discarded() } else { s[i] })
}

pub proof fn lemma_sum_of_concat(a: Seq<Value>, b: Seq<Value>)
    ensures
        sum_of(a + b) == sum_of(a) + sum_of(b),
    decreases b.len(),
{
    if b.len() > 0 {
        lemma_sum_of_concat(a, b.drop_last());
        assert((a + b).drop_last() =~= a + b.drop_last());
    } else {
        assert(a + b =~= a);
    }
}

/// The draws of an operator that turned `old` into `new` and the script
/// `d0` into `d1`: one draw per value it appended, and the appended values
/// show the script's faces in order while it lasts.
pub open spec fn drew_appended(d0: Seq<i32>, d1: Seq<i32>, old: Seq<Value>, new: Seq<Value>) -> bool {
    &&& new.len() >= old.len()
    &&& d1 == after_draws(d0, new.len() - old.len())
    &&& follows_script(d0, new.subrange(old.len() as int, new.len() as int))
}

/// Whether every face of the pool is at least `t`.
fn all_faces_at_least(values: &Vec<Value>, t: i32) -> (r: bool)
    ensures
        r == all_at_least(values@, t as int),
{
    let mut i: usize = 0;
    while i < values.len()
        invariant
            i <= values@.len(),
            all_at_least(values@.subrange(0, i as int), t as int),
        decreases values@.len() - i,
    {
        if values[i].value < t {
            return false;
        }
        i = i + 1;
    }
    assert(values@.subrange(0, i as int) =~= values@);
    true
}

/// Appends `k` fresh bonus dice of `range` sides; tells whether every one of
/// them showed at least `t`.
fn roll_batch(pool: &mut Pool, dice: &mut Dice, k: usize, range: i32, t: i32) -> (met: bool)
    requires
        old(dice).wf(),
        range >= 1,
    ensures
        final(dice).wf(),
        final(pool).value == old(pool).value,
        final(pool).values@.len() == old(pool).values@.len() + k,
        final(pool).values@.subrange(0, old(pool).values@.len() as int) == old(pool).values@,
        rolled(
            final(pool).values@.subrange(old(pool).values@.len() as int, final(pool).values@.len() as int),
            range as int,
            true,
        ),
        met == all_at_least(
            final(pool).values@.subrange(old(pool).values@.len() as int, final(pool).values@.len() as int),
            t as int,
        ),
        drew_appended(old(dice).pending(), final(dice).pending(), old(pool).values@, final(pool).values@),
{
    let ghost n0 = pool.values@.len();
    let ghost d0 = dice.pending();
    proof {
        lemma_after_draws_add(d0, 0, 0);
    }
    let mut met = true;
    let mut j: usize = 0;
    while j < k
        invariant
            j <= k,
            range >= 1,
            dice.wf(),
            pool.value == old(pool).value,
            pool.values@.len() == n0 + j,
            pool.values@.subrange(0, n0 as int) == old(pool).values@,
            rolled(pool.values@.subrange(n0 as int, pool.values@.len() as int), range as int, true),
            met == all_at_least(pool.values@.subrange(n0 as int, pool.values@.len() as int), t as int),
            d0 == old(dice).pending(),
            dice.pending() == after_draws(d0, j as int),
            follows_script(d0, pool.values@.subrange(n0 as int, pool.values@.len() as int)),
        decreases k - j,
    {
        let ghost before = pool.values@;
        let v = Value::random(dice, range, true);
        pool.values.push(v);
        proof {
            let done = before.subrange(n0 as int, before.len() as int);
            lemma_after_draws_add(d0, j as int, 1);
            lemma_follows_concat(d0, done, seq![v]);
            assert(pool.values@.subrange(n0 as int, pool.values@.len() as int) =~= done + seq![v]);
            assert(pool.values@.subrange(0, n0 as int) =~= before.subrange(0, n0 as int));
            assert(pool.values@.subrange(n0 as int, pool.values@.len() as int) =~= before.subrange(
                n0 as int,
                before.len() as int,
            ).push(v));
        }
        proof {
            let prev = before.subrange(n0 as int, before.len() as int);
            let new = pool.values@.subrange(n0 as int, pool.values@.len() as int);
            if !all_at_least(prev, t as int) {
                let m = choose|m: int| 0 <= m < prev.len() && prev[m].value < t;
                assert(new[m] == prev[m]);
            }
            if v.value < t {
                assert(new[new.len() - 1] == v);
            }
        }
        if v.value < t {
            met = false;
        }
        j = j + 1;
    }
    met
}

proof fn lemma_prefix_agrees(now: Seq<Value>, before: Seq<Value>)
    requires
        now.len() >= before.len(),
        now.subrange(0, before.len() as int) == before,
    ensures
        forall|i: int| 0 <= i < before.len() ==> #[trigger] now[i] == before[i],
{
    assert forall|i: int| 0 <= i < before.len() implies #[trigger] now[i] == before[i] by {
        assert(now.subrange(0, before.len() as int)[i] == now[i]);
    }
}

/// Rolls batches of `k` bonus dice for as long as the latest batch met `t`
/// in full and the pool can hold another batch.
fn roll_until(pool: &mut Pool, dice: &mut Dice, k: usize, range: i32, t: i32)
    requires
        old(dice).wf(),
        range >= 1,
        k >= 1,
    ensures
        final(dice).wf(),
        final(pool).value == old(pool).value,
        final(pool).values@.len() >= old(pool).values@.len(),
        final(pool).values@.subrange(0, old(pool).values@.len() as int) == old(pool).values@,
        until_appended(
            final(pool).values@.subrange(old(pool).values@.len() as int, final(pool).values@.len() as int),
            old(pool).values@.len() as int,
            k as int,
            t as int,
            range as int,
        ),
        drew_appended(old(dice).pending(), final(dice).pending(), old(pool).values@, final(pool).values@),
{
    let ghost n0 = pool.values@.len() as int;
    let ghost d0 = dice.pending();
    proof {
        lemma_after_draws_add(d0, 0, 0);
    }
    let mut explode = true;
    while explode && pool.values.len() <= usize::MAX - k
        invariant
            k >= 1,
            range >= 1,
            dice.wf(),
            n0 == old(pool).values@.len(),
            d0 == old(dice).pending(),
            pool.value == old(pool).value,
            pool.values@.len() >= n0,
            dice.pending() == after_draws(d0, pool.values@.len() - n0),
            follows_script(d0, pool.values@.subrange(n0, pool.values@.len() as int)),
            pool.values@.subrange(0, n0) == old(pool).values@,
            ({
                let new = pool.values@.subrange(n0, pool.values@.len() as int);
                &&& new.len() == 0 ==> explode
                &&& new.len() > 0 ==> {
                    &&& n0 + k <= usize::MAX
                    &&& new.len() >= k
                    &&& met_batches(new.subrange(0, new.len() - k), k as int, t as int, range as int)
                    &&& rolled(new.subrange(new.len() - k, new.len() as int), range as int, true)
                    &&& explode == all_at_least(new.subrange(new.len() - k, new.len() as int), t as int)
                }
            }),
        decreases usize::MAX - pool.values@.len(),
    {
        let ghost before = pool.values@;
        let ghost prev = before.subrange(n0, before.len() as int);
        explode = roll_batch(pool, dice, k, range, t);
        proof {
            let now = pool.values@;
            let new = now.subrange(n0, now.len() as int);
            lemma_prefix_agrees(now, before);
            assert forall|i: int| 0 <= i < n0 implies now.subrange(0, n0)[i] == before.subrange(0, n0)[i] by {
                assert(now[i] == before[i]);
            }
            assert(now.subrange(0, n0) =~= before.subrange(0, n0));
            assert forall|i: int| 0 <= i < prev.len() implies new[i] == prev[i] by {
                assert(now[n0 + i] == before[n0 + i]);
            }
            assert(new.subrange(0, new.len() - k) =~= prev);
            assert(new.subrange(new.len() - k, new.len() as int) =~= now.subrange(
                before.len() as int,
                now.len() as int,
            ));
            if prev.len() > 0 {
                assert(met_batches(prev, k as int, t as int, range as int));
            }
            let batch = now.subrange(before.len() as int, now.len() as int);
            lemma_after_draws_add(d0, prev.len() as int, k as int);
            lemma_follows_concat(d0, prev, batch);
            assert(new =~= prev + batch);
        }
    }
}

/// Discards the values at positions `lo..hi`.
fn discard_range(pool: &mut Pool, lo: usize, hi: usize)
    requires
        lo <= hi <= old(pool).values@.len(),
    ensures
        final(pool).value == old(pool).value,
        final(pool).values@ == discard_between(old(pool).values@, lo as int, hi as int),
{
    let mut i: usize = lo;
    while i < hi
        invariant
            lo <= i <= hi,
            hi <= pool.values@.len(),
            pool.value == old(pool).value,
            pool.values@ == discard_between(old(pool).values@, lo as int, i as int),
        decreases hi - i,
    {
        let mut v = pool.values[i];
        v.mark_discarded();
        pool.values.set(i, v);
        assert(pool.values@ =~= discard_between(old(pool).values@, lo as int, i + 1));
        i = i + 1;
    }
}

/// Rolls a second batch as large as the pool and keeps the batch with the
/// higher sum (`advantage`) or the lower one; a tie goes to the first batch
/// with advantage and to the second without.
fn roll_twice(pool: &mut Pool, dice: &mut Dice, advantage: bool)
    requires
        old(dice).wf(),
    ensures
        final(dice).wf(),
        final(pool).value == old(pool).value,
        twice_rolled(old(pool).values@, final(pool).values@, advantage),
        drew_appended(old(dice).pending(), final(dice).pending(), old(pool).values@, final(pool).values@),
{
    let c = pool.values.len();
    let range = pool.range();
    proof {
        lemma_after_draws_add(dice.pending(), 0, 0);
    }
    if range < 1 || c > usize::MAX - c {
        assert(pool.values@.subrange(c as int, c as int).len() == 0);
        return;
    }
    let ghost d0 = dice.pending();
    let old_sum = pool.sum();
    let ghost old_values = pool.values@;
    roll_batch(pool, dice, c, range, 0);
    let ghost batch = pool.values@.subrange(c as int, 2 * c as int);
    proof {
        assert(pool.values@ =~= old_values + batch);
        lemma_sum_of_concat(old_values, batch);
        lemma_sum_of_bound(batch);
    }
    let total = pool.sum();
    let new_sum = total - old_sum;
    if (new_sum > old_sum) == advantage {
        discard_range(pool, 0, c);
        assert(pool.values@ =~= discard_all(old_values) + batch);
    } else {
        discard_range(pool, c, 2 * c);
        assert(pool.values@ =~= old_values + discard_all(batch));
    }
    proof {
        let tail = pool.values@.subrange(c as int, 2 * c as int);
        assert forall|j: int| 0 <= j < tail.len() implies tail[j].value == batch[j].value
            && tail[j].range == batch[j].range by {}
    }
}

/// The outcome of rolling `old` twice: when a pool can hold a second batch
/// and `old` has dice, a batch `b` of as many fresh bonus dice is appended and
/// the losing batch discarded; otherwise nothing changes.
pub open spec fn twice_rolled(old: Seq<Value>, new: Seq<Value>, advantage: bool) -> bool {
    if range_of(old) < 1 || old.len() + old.len() > usize::MAX {
        new == old
    } else {
        exists|b: Seq<Value>|
            {
                &&& b.len() == old.len()
                &&& rolled(b, range_of(old), true)
                &&& new == if (sum_of(b) > sum_of(old)) == advantage {
                    discard_all(old) + b
                } else {
                    old + discard_all(b)
                }
            }
    }
}

/// Keeps only the best group: sorts by face and discards every value whose
/// face differs from the face of the longest run of equal kept faces.
fn keep_best_group(pool: &mut Pool)
    ensures
        final(pool).value == old(pool).value,
        final(pool).values@.len() == old(pool).values@.len(),
        final(pool).values@ == keep_best(stable_sort(old(pool).values@, true)),
{
    let mut sorted = sort_by_face(&pool.values, true);
    let ghost s = sorted@;
    let mut last: Option<i32> = None;
    let mut run: usize = 0;
    let mut best: usize = 0;
    let mut face: Option<i32> = None;
    let mut i: usize = 0;
    while i < sorted.len()
        invariant
            i <= s.len(),
            sorted@ == s,
            run <= i,
            best <= i,
            group_scan(s.subrange(0, i as int)) == (
                match last {
                    Some(l) => Some(l as int),
                    None => None::<int>,
                },
                run as int,
                best as int,
                match face {
                    Some(f) => Some(f as int),
                    None => None::<int>,
                },
            ),
        decreases s.len() - i,
    {
        assert(s.subrange(0, i + 1).drop_last() =~= s.subrange(0, i as int));
        let v = sorted[i];
        if v.keep {
            if last == Some(v.value) {
                run = run + 1;
            } else {
                run = 1;
            }
            last = Some(v.value);
            if run > best {
                best = run;
                face = Some(v.value);
            }
        }
        i = i + 1;
    }
    assert(s.subrange(0, i as int) =~= s);
    if let Some(f) = face {
        let mut k: usize = 0;
        while k < sorted.len()
            invariant
                k <= s.len(),
                sorted@.len() == s.len(),
                best_group_face(s) == Some(f as int),
                forall|m: int| 0 <= m < k ==> #[trigger] sorted@[m] == keep_face(s, f as int)[m],
                forall|m: int| k <= m < s.len() ==> #[trigger] sorted@[m] == s[m],
            decreases s.len() - k,
        {
            if sorted[k].value != f {
                let mut v = sorted[k];
                v.mark_discarded();
                sorted.set(k, v);
            }
            k = k + 1;
        }
        assert(sorted@ =~= keep_face(s, f as int));
    }
    assert(sorted@ == keep_best(s));
    pool.values = sorted;
}

/// What a per-value operator does to a pool whose latest value is the last
/// of `old`: explode it, or set its modifier.
pub open spec fn last_applied(op: PoolOp, old: Seq<Value>, new: Seq<Value>) -> bool {
    if old.len() == 0 {
        new == old
    } else {
        let last = old.last();
        let n = old.len() as int;
        match op {
            PoolOp::ExplodeEach(t) => if explodable(last) && last.value >= threshold(t, last.range as int) {
                &&& new.len() == n + 1
                &&& new.subrange(0, n) == old
                &&& rolled(new.subrange(n, n + 1), last.range as int, true)
            } else {
                new == old
            },
            PoolOp::ExplodeEachUntil(t) => if explodable(last) && last.value >= threshold(t, last.range as int) {
                &&& new.len() >= n
                &&& new.subrange(0, n) == old
                &&& until_appended(new.subrange(n, new.len() as int), n, 1, threshold(t, last.range as int), last.range as int)
            } else {
                new == old
            },
            PoolOp::AddEach(m) => new == old.update(n - 1, Value { add: threshold(m, 1) as i32, ..last }),
            PoolOp::SubEach(m) => new == old.update(n - 1, Value { add: -threshold(m, 1) as i32, ..last }),
            _ => new == old,
        }
    }
}

/// What a whole-pool operator does to the values `old`.
pub open spec fn all_applied(op: PoolOp, old: Seq<Value>, new: Seq<Value>) -> bool {
    let n = old.len() as int;
    let range = range_of(old);
    if n == 0 {
        new == old
    } else {
        match op {
            PoolOp::Explode(t) => if range >= 1 && all_at_least(old, threshold(t, range)) {
                &&& new.len() == n + kept_count(old)
                &&& new.subrange(0, n) == old
                &&& rolled(new.subrange(n, new.len() as int), range, true)
            } else {
                new == old
            },
            PoolOp::ExplodeUntil(t) => if range >= 1 && kept_count(old) >= 1 && all_at_least(old, threshold(t, range)) {
                &&& new.len() >= n
                &&& new.subrange(0, n) == old
                &&& until_appended(new.subrange(n, new.len() as int), n, kept_count(old) as int, threshold(t, range), range)
            } else {
                new == old
            },
            PoolOp::TakeLow(k) => taken(old, new, false, 0, k as int),
            PoolOp::TakeHigh(k) => taken(old, new, true, 0, k as int),
            PoolOp::TakeMid(k) => taken(old, new, true, (n - k) / 2, k as int),
            PoolOp::Advantage => twice_rolled(old, new, true),
            PoolOp::Disadvantage => twice_rolled(old, new, false),
            PoolOp::BestGroup => new == keep_best(stable_sort(old, true)),
            _ => new == old,
        }
    }
}

/// Keeping `k` values: unless the pool holds at most `k` values (or `k` is
/// negative), sort by face, stably, and keep the `k` values from position
/// `skip` on.
pub open spec fn taken(old: Seq<Value>, new: Seq<Value>, descending: bool, skip: int, k: int) -> bool {
    if k < 0 || old.len() <= k {
        new == old
    } else {
        new == keep_window(stable_sort(old, descending), skip, skip + k)
    }
}

impl PoolOp {
    /// What the per-value part of the operator needs on dice of `range`
    /// sides: a sub-each amount must have a negation, and an
    /// explode-each-until threshold must lie above 1, or else every roll
    /// would meet it and the rolling never end.
    pub open spec fn fits_last(self, range: int) -> bool {
        match self {
            PoolOp::SubEach(Some(m)) => m > i32::MIN,
            PoolOp::ExplodeEachUntil(t) => threshold(t, range) > 1,
            _ => true,
        }
    }

    /// What the whole-pool part of the operator needs on a pool whose
    /// largest die has `range` sides: an explode-until threshold above 1.
    pub open spec fn fits_all(self, range: int) -> bool {
        match self {
            PoolOp::ExplodeUntil(t) => threshold(t, range) > 1,
            _ => true,
        }
    }

    /// Operators that can be applied to dice of `range` sides, in both parts.
    pub open spec fn is_valid_for(self, range: int) -> bool {
        self.fits_last(range) && self.fits_all(range)
    }

    /// Applies the per-value part of the operator to the latest value of the
    /// pool: explode-each rolls a bonus die when the value reaches the
    /// threshold (explode-each-until repeats on each new die), add-each and
    /// sub-each set its modifier. Other operators leave the pool as it is
    /// and draw nothing.
    pub fn apply_last(&self, pool: &mut Pool, dice: &mut Dice)
        requires
            old(pool).values@.len() > 0 ==> self.fits_last(old(pool).values@.last().range as int),
            old(dice).wf(),
        ensures
            final(dice).wf(),
            final(pool).value == old(pool).value,
            last_applied(*self, old(pool).values@, final(pool).values@),
            drew_appended(old(dice).pending(), final(dice).pending(), old(pool).values@, final(pool).values@),
    {
        proof {
            lemma_after_draws_add(dice.pending(), 0, 0);
        }
        let n = pool.values.len();
        if n == 0 {
            return;
        }
        let last = pool.values[n - 1];
        match self {
            PoolOp::ExplodeEach(t) => {
                let t = match t {
                    Some(t) => *t,
                    None => last.range,
                };
                if !last.constant && last.range >= 1 && last.value >= t {
                    roll_batch(pool, dice, 1, last.range, t);
                }
            },
            PoolOp::ExplodeEachUntil(t) => {
                let t = match t {
                    Some(t) => *t,
                    None => last.range,
                };
                if !last.constant && last.range >= 1 && last.value >= t {
                    roll_until(pool, dice, 1, last.range, t);
                }
            },
            PoolOp::AddEach(m) => {
                let m = match m {
                    Some(m) => *m,
                    None => 1,
                };
                let mut v = last;
                v.set_modifier(m);
                pool.values.set(n - 1, v);
            },
            PoolOp::SubEach(m) => {
                let m = match m {
                    Some(m) => *m,
                    None => 1,
                };
                let mut v = last;
                v.set_modifier(-m);
                pool.values.set(n - 1, v);
            },
            _ => {},
        }
    }

    /// Applies the whole-pool part of the operator, once all dice are rolled.
    /// Explode: when every face reaches the threshold (by default the
    /// largest die of the pool), one bonus die is rolled per kept value;
    /// explode-until repeats while the latest batch reaches it in full.
    /// Take-low, -high and -mid sort by face and keep a window of values;
    /// advantage and disadvantage roll a second batch and keep the better or
    /// worse one; best-group keeps the longest run of equal faces. Other
    /// operators leave the pool as it is, and so does every operator on an
    /// empty pool. The operator must suit the pool's dice: an explode-until
    /// threshold above 1 gives every roll a chance to end the chain, which
    /// has no other bound but the largest pool (`usize::MAX` values). Every
    /// die rolled takes the next face of the script while it lasts; nothing
    /// else draws.
    pub fn apply_all(&self, pool: &mut Pool, dice: &mut Dice)
        requires
            old(pool).values@.len() > 0 ==> self.fits_all(range_of(old(pool).values@)),
            old(dice).wf(),
        ensures
            final(dice).wf(),
            final(pool).value == old(pool).value,
            all_applied(*self, old(pool).values@, final(pool).values@),
            drew_appended(old(dice).pending(), final(dice).pending(), old(pool).values@, final(pool).values@),
    {
        proof {
            lemma_after_draws_add(dice.pending(), 0, 0);
        }
        let ghost n0 = pool.values@.len() as int;
        assert(follows_script(dice.pending(), pool.values@.subrange(n0, n0)));
        let cnt = pool.values.len();
        if cnt == 0 {
            return;
        }
        match self {
            PoolOp::Explode(t) => {
                let range = pool.range();
                let t = match t {
                    Some(t) => *t,
                    None => range,
                };
                if range >= 1 && all_faces_at_least(&pool.values, t) {
                    let k = pool.kept();
                    roll_batch(pool, dice, k, range, t);
                }
            },
            PoolOp::ExplodeUntil(t) => {
                let range = pool.range();
                let t = match t {
                    Some(t) => *t,
                    None => range,
                };
                if range >= 1 && all_faces_at_least(&pool.values, t) {
                    let k = pool.kept();
                    if k >= 1 {
                        roll_until(pool, dice, k, range, t);
                    }
                }
            },
            PoolOp::TakeLow(k) => {
                if *k >= 0 && cnt > *k as usize {
                    keep_sorted_window(pool, false, 0, *k as usize);
                }
            },
            PoolOp::TakeHigh(k) => {
                if *k >= 0 && cnt > *k as usize {
                    keep_sorted_window(pool, true, 0, *k as usize);
                }
            },
            PoolOp::TakeMid(k) => {
                if *k >= 0 && cnt > *k as usize {
                    let skip = (cnt - *k as usize) / 2;
                    keep_sorted_window(pool, true, skip, skip + *k as usize);
                }
            },
            PoolOp::Advantage => roll_twice(pool, dice, true),
            PoolOp::Disadvantage => roll_twice(pool, dice, false),
            PoolOp::BestGroup => keep_best_group(pool),
            _ => {},
        }
    }
}

} // verus!
