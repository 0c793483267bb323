//! An expression tree for dice arithmetic, with its operator symbols.
use vstd::prelude::*;

verus! {

/// Operators on a roll.
#[derive(Debug, PartialEq, Eq, Clone, Copy, Structural)]
pub enum Op {
    Explode,
    ExplodeEach,
    ExplodeUntil,
    ExplodeUntilEach,
    AddEach,
    SubEach,
    Critical,
    Disadvantage,
    Advantage,
    TakeMid,
    TakeLow,
    TakeHigh,
}

/// An arithmetic expression over rolls.
#[derive(Debug, PartialEq)]
pub enum Expr {
    EVal(i32),
    ERoll(i32, i32, Option<Op>, Option<i32>),
    EAdd(Box<Expr>, Box<Expr>),
    ESub(Box<Expr>, Box<Expr>),
    EPar(Box<Expr>),
    EHalfDown(Box<Expr>),
    EHalfUp(Box<Expr>),
    EList(Vec<Expr>),
    ETargetAbove(Box<Expr>, i32),
    ETargetBelow(Box<Expr>, i32),
}

impl Op {
    /// The operator's symbol.
    pub open spec fn spec_symbol(self) -> Seq<char> {
        match self {
            Op::Explode => seq!['!'],
            Op::ExplodeEach => seq!['!', '!'],
            Op::ExplodeUntil => seq!['*'],
            Op::ExplodeUntilEach => seq!['*', '*'],
            Op::AddEach => seq!['+', '+'],
            Op::SubEach => seq!['-', '-'],
            Op::Critical => seq!['$'],
            Op::Disadvantage => seq!['D'],
            Op::Advantage => seq!['A'],
            Op::TakeMid => seq!['~'],
            Op::TakeLow => seq!['`'],
            Op::TakeHigh => seq!['^'],
        }
    }

    /// The operator's symbol.
    pub fn to_string(&self) -> (r: String)
        ensures
            r@ == self.spec_symbol(),
    {
        let s = match self {
            Op::Explode => "!",
            Op::ExplodeEach => "!!",
            Op::ExplodeUntil => "*",
            Op::ExplodeUntilEach => "**",
            Op::AddEach => "++",
            Op::SubEach => "--",
            Op::Critical => "$",
            Op::Disadvantage => "D",
            Op::Advantage => "A",
            Op::TakeMid => "~",
            Op::TakeLow => "`",
            Op::TakeHigh => "^",
        };
        proof {
            reveal_strlit("!");
            reveal_strlit("!!");
            reveal_strlit("*");
            reveal_strlit("**");
            reveal_strlit("++");
            reveal_strlit("--");
            reveal_strlit("$");
            reveal_strlit("D");
            reveal_strlit("A");
            reveal_strlit("~");
            reveal_strlit("`");
            reveal_strlit("^");
        }
        let r = String::from_str(s);
        assert(r@ =~= self.spec_symbol());
        r
    }
}

} // verus!
