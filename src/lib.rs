//! Parser and evaluator for a compact dice-notation language.
//!
//! Text such as `4d6^3 + 2d8!! > 3d10{15}` is parsed into a `Generator`
//! tree; rolling the tree with a `Dice` source gives a traced `Results`.
use vstd::prelude::*;

pub mod dice;
pub mod generators;
pub mod grammar;
pub mod laws;
pub mod parsers;
pub mod pool_ops;
pub mod render;
pub mod results;
pub mod roller;
pub mod round_trip;

use crate::generators::{Generator, PoolGenerator, PoolOp};
use crate::grammar::{generator_rule, pool_op_rule};

verus! {

/// A pool generator of `count` dice of `range` sides, with the pool operator
/// that `op` starts with, if it starts with one.
pub fn roller(count: i32, range: i32, op: Option<&str>) -> (r: PoolGenerator)
    requires
        op matches Some(s) ==> s@.len() < usize::MAX,
    ensures
        r.count == count,
        r.range == range,
        r.op == match op {
            Some(s) => match pool_op_rule(s@, 0) {
                Some((_, o)) => Some(o),
                None => None::<PoolOp>,
            },
            None => None::<PoolOp>,
        },
{
    let op = match op {
        Some(s) => match parsers::pool_op_parser(s) {
            Ok((_, o)) => Some(o),
            Err(_) => None,
        },
        None => None,
    };
    PoolGenerator { count, range, op }
}

/// The generator written by the whole of `input`; the input itself when it
/// is not one.
pub fn parse(input: &str) -> (r: Result<Generator, &str>)
    requires
        input@.len() < usize::MAX,
    ensures
        match generator_rule(input@, 0) {
            Some((j, g)) => if j == input@.len() {
                r matches Ok(v) && v@ == g
            } else {
                r matches Err(e) && e@ == input@
            },
            None => r matches Err(e) && e@ == input@,
        },
{
    match parsers::generator_parser(input) {
        Ok((rest, g)) => {
            if rest.unicode_len() == 0 {
                Ok(g)
            } else {
                Err(input)
            }
        },
        Err(_) => Err(input),
    }
}

} // verus!
