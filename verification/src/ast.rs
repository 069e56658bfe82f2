//! The syntax tree of dice expressions.

use vstd::prelude::*;

verus! {

/// A dice expression: rolls and integer literals combined by addition and subtraction.
#[derive(Debug)]
pub enum DiceExpr {
    /// The sum of two expressions.
    Sum(Box<DiceExpr>, Box<DiceExpr>),
    /// The difference of two expressions (left minus right).
    Difference(Box<DiceExpr>, Box<DiceExpr>),
    /// A roll of dice.
    Roll(RollSpec),
    /// An integer constant.
    Literal(i32),
}

/// A roll of `count` dice with `sides` sides each, optionally keeping only some of them.
///
/// A `count` of 0 evaluates to 0; a `sides` of 0 evaluates to the constant `count`.
#[derive(Debug, Clone, Copy, PartialEq, Eq)]
pub struct RollSpec {
    /// The number of dice to roll.
    pub count: u32,
    /// The number of sides of each die.
    pub sides: u32,
    /// Which dice count towards the total; all of them when `None`.
    pub keep: Option<Keep>,
}

/// Which of the rolled dice count towards the total.
#[derive(Debug, Clone, Copy, PartialEq, Eq, Structural)]
pub enum Keep {
    /// Keep the `n` highest dice.
    Highest(u32),
    /// Keep the `n` lowest dice.
    Lowest(u32),
}

impl Clone for DiceExpr {
    fn clone(&self) -> (copy: Self)
        ensures
            copy == *self,
        decreases self,
    {
        match self {
            DiceExpr::Sum(lhs, rhs) => DiceExpr::Sum(
                Box::new((&**lhs).clone()),
                Box::new((&**rhs).clone()),
            ),
            DiceExpr::Difference(lhs, rhs) => DiceExpr::Difference(
                Box::new((&**lhs).clone()),
                Box::new((&**rhs).clone()),
            ),
            DiceExpr::Roll(spec) => DiceExpr::Roll(*spec),
            DiceExpr::Literal(value) => DiceExpr::Literal(*value),
        }
    }
}

impl RollSpec {
    /// A roll of `count` dice with `sides` sides, keeping the dice that `keep` names.
    pub fn new(count: u32, sides: u32, keep: Option<Keep>) -> (spec: Self)
        ensures
            spec == (RollSpec { count, sides, keep }),
    {
        RollSpec { count, sides, keep }
    }
}

} // verus!
