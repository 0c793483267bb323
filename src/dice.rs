//! The source of die faces: fair random draws, optionally preceded by a
//! script of forced faces so that evaluations can be replayed.
use vstd::prelude::*;

use crate::results::Value;

verus! {

/// Relies on `rand::thread_rng` and `rand::Rng::gen_range`: a uniform draw
/// from `1..=range`, a range that is never empty here.
#[verifier::external_body]
fn random_face(range: i32) -> (r: i32)
    requires
        range >= 1,
    ensures
        1 <= r <= range,
{
    rand::Rng::gen_range(&mut rand::thread_rng(), 1..=range)
}

/// What is left of the script `d` after `n` draws.
pub open spec fn after_draws(d: Seq<i32>, n: int) -> Seq<i32> {
    if n >= d.len() {
        Seq::empty()
    } else {
        d.subrange(n, d.len() as int)
    }
}

/// `e` is what is left of the script `d` after some draws.
pub open spec fn drawn_from(d: Seq<i32>, e: Seq<i32>) -> bool {
    e.len() <= d.len() && e == after_draws(d, d.len() - e.len())
}

/// The values `s`, rolled one after the other from the script `d`, show its
/// faces in order while it lasts, wherever a face fits its die.
pub open spec fn follows_script(d: Seq<i32>, s: Seq<Value>) -> bool {
    forall|j: int|
        0 <= j < s.len() && j < d.len() && 1 <= d[j] <= s[j].range ==> #[trigger] s[j].value == d[j]
}

pub proof fn lemma_after_draws_add(d: Seq<i32>, a: int, b: int)
    requires
        a >= 0,
        b >= 0,
    ensures
        after_draws(after_draws(d, a), b) == after_draws(d, a + b),
        after_draws(d, 0) == d,
{
    assert(after_draws(after_draws(d, a), b) =~= after_draws(d, a + b));
    assert(d.subrange(0, d.len() as int) =~= d);
}

pub proof fn lemma_drawn_from(d: Seq<i32>, e: Seq<i32>, f: Seq<i32>)
    requires
        drawn_from(d, e),
        drawn_from(e, f),
    ensures
        drawn_from(d, f),
{
    lemma_after_draws_add(d, d.len() - e.len(), e.len() - f.len());
}

pub proof fn lemma_after_draws_drawn(d: Seq<i32>, n: int)
    requires
        n >= 0,
    ensures
        drawn_from(d, after_draws(d, n)),
{
    lemma_after_draws_add(d, 0, 0);
}

/// Values rolled from the script, then more rolled from what was left of it,
/// follow the script together.
pub proof fn lemma_follows_concat(d: Seq<i32>, s: Seq<Value>, t: Seq<Value>)
    requires
        follows_script(d, s),
        follows_script(after_draws(d, s.len() as int), t),
    ensures
        follows_script(d, s + t),
{
    assert forall|j: int|
        0 <= j < (s + t).len() && j < d.len() && 1 <= d[j] <= (s + t)[j].range implies #[trigger] (s
        + t)[j].value == d[j] by {
        if j >= s.len() {
            assert(after_draws(d, s.len() as int)[j - s.len()] == d[j]);
        }
    }
}

/// A random source. Faces are taken from the script while it lasts, as long
/// as they fit the die being rolled; every other face is drawn at random.
pub struct Dice {
    script: Vec<i32>,
    next: usize,
}

impl Dice {
    /// The faces still to be forced, in order.
    pub closed spec fn pending(&self) -> Seq<i32> {
        self.script@.subrange(self.next as int, self.script@.len() as int)
    }

    pub closed spec fn wf(&self) -> bool {
        self.next <= self.script@.len()
    }

    /// A source that only draws at random.
    pub fn new() -> (r: Dice)
        ensures
            r.wf(),
            r.pending() == Seq::<i32>::empty(),
    {
        Dice { script: Vec::new(), next: 0 }
    }

    /// A source that first hands out `faces`, in order.
    pub fn scripted(faces: Vec<i32>) -> (r: Dice)
        ensures
            r.wf(),
            r.pending() == faces@,
    {
        let r = Dice { script: faces, next: 0 };
        assert(r.pending() =~= faces@);
        r
    }

    /// One face of a die with `range` sides: the next scripted face if there
    /// is one and it lies in `1..=range`, else a random one.
    pub fn draw(&mut self, range: i32) -> (r: i32)
        requires
            old(self).wf(),
            range >= 1,
        ensures
            final(self).wf(),
            1 <= r <= range,
            final(self).pending() == after_draws(old(self).pending(), 1),
            old(self).pending().len() > 0 && 1 <= old(self).pending()[0] <= range ==> r == old(
                self,
            ).pending()[0],
    {
        if self.next < self.script.len() {
            let f = self.script[self.next];
            self.next = self.next + 1;
            assert(self.pending() =~= after_draws(old(self).pending(), 1));
            if 1 <= f && f <= range {
                f
            } else {
                random_face(range)
            }
        } else {
            assert(self.pending() =~= after_draws(old(self).pending(), 1));
            random_face(range)
        }
    }
}

} // verus!
