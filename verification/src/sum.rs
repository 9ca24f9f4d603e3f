//! An additive operator family: zero, negation, and a binary sum.  Negation
//! weighs nothing, like the inverse of the multiplicative family.

use vstd::prelude::*;

use crate::model::SymModel;
use crate::model::cat_args;
use crate::model::complete;
use crate::word;
use crate::word::Operator;

verus! {

/// The operators of the additive algebra.
#[derive(Clone, Copy, Debug, PartialEq, Eq, Structural)]
pub enum Sum {
    Zero,
    Negate,
    Add,
}

impl Operator for Sum {
    open spec fn arity_spec(&self) -> nat {
        match self {
            Sum::Zero => 0,
            Sum::Negate => 1,
            Sum::Add => 2,
        }
    }

    open spec fn weight_spec(&self) -> nat {
        match self {
            Sum::Zero => 1,
            Sum::Negate => 0,
            Sum::Add => 1,
        }
    }

    open spec fn index_spec(&self) -> int {
        match self {
            Sum::Zero => 0,
            Sum::Negate => 1,
            Sum::Add => 2,
        }
    }

    open spec fn min_weight_spec() -> nat {
        1
    }

    proof fn index_determines(a: &Self, b: &Self) {
    }

    proof fn bounds(a: &Self) {
    }

    proof fn min_weight_bound() {
    }

    fn arity(&self) -> usize {
        match self {
            Sum::Zero => 0,
            Sum::Negate => 1,
            Sum::Add => 2,
        }
    }

    fn weight(&self) -> u64 {
        match self {
            Sum::Zero => 1,
            Sum::Negate => 0,
            Sum::Add => 1,
        }
    }

    fn op_index(&self) -> u64 {
        match self {
            Sum::Zero => 0,
            Sum::Negate => 1,
            Sum::Add => 2,
        }
    }

    fn min_weight() -> u64 {
        1
    }

    fn clone_op(&self) -> Self {
        *self
    }
}

pub type Symbol = word::Symbol<String, Sum>;

pub type Word = word::Word<String, Sum>;

/// A word that is one named variable.
pub fn var(v: &str) -> (r: Word)
    ensures
        r@ =~= seq![(SymModel::Var { id: v@ })],
        complete(r@),
{
    word::Word::var(v.to_owned())
}

/// Zero as a word.
pub fn zero() -> (r: Word)
    ensures
        r@ =~= seq![(SymModel::Op { arity: 0, weight: 1, index: 0 })],
        complete(r@),
{
    let args: [Word; 0] = [];
    match word::Word::op(Sum::Zero, &args) {
        Ok(w) => {
            proof {
                assert(args@.map_values(|a: Word| a@) =~= Seq::<Seq<SymModel>>::empty());
                assert(w@ =~= seq![(SymModel::Op { arity: 0, weight: 1, index: 0 })]);
            }
            w
        },
        Err(_) => vstd::pervasive::unreached(),
    }
}

/// The negation of a word.
pub fn negate(w: &Word) -> (r: Word)
    requires
        complete(w@),
    ensures
        r@ =~= seq![(SymModel::Op { arity: 1, weight: 0, index: 1 })] + w@,
        complete(r@),
{
    let args: [Word; 1] = [w.clone_word()];
    match word::Word::op(Sum::Negate, &args) {
        Ok(r) => {
            proof {
                let ws = args@.map_values(|a: Word| a@);
                assert(ws =~= seq![w@]);
                assert(ws.drop_last().len() == 0);
                assert(cat_args(ws.drop_last()) =~= Seq::<SymModel>::empty());
                assert(cat_args(ws) == cat_args(ws.drop_last()) + ws.last());
                assert(cat_args(ws) =~= w@);
            }
            r
        },
        Err(_) => vstd::pervasive::unreached(),
    }
}

impl word::Word<String, Sum> {
    /// The sum of this word with another.
    pub fn add(&self, rhs: &Self) -> (r: Word)
        requires
            complete(self@),
            complete(rhs@),
        ensures
            r@ =~= seq![(SymModel::Op { arity: 2, weight: 1, index: 2 })] + self@ + rhs@,
            complete(r@),
    {
        let args: [Word; 2] = [self.clone_word(), rhs.clone_word()];
        match word::Word::op(Sum::Add, &args) {
            Ok(r) => {
                proof {
                    let ws = args@.map_values(|a: Word| a@);
                    assert(ws =~= seq![self@, rhs@]);
                    assert(ws.drop_last() =~= seq![self@]);
                    assert(ws.drop_last().drop_last().len() == 0);
                    assert(cat_args(ws.drop_last().drop_last()) =~= Seq::<SymModel>::empty());
                    assert(cat_args(ws.drop_last()) == cat_args(ws.drop_last().drop_last())
                        + ws.drop_last().last());
                    assert(cat_args(ws.drop_last()) =~= self@);
                    assert(cat_args(ws) == cat_args(ws.drop_last()) + ws.last());
                    assert(cat_args(ws) =~= self@ + rhs@);
                    assert(seq![(SymModel::Op { arity: 2, weight: 1, index: 2 })] + (self@ + rhs@)
                        =~= seq![(SymModel::Op { arity: 2, weight: 1, index: 2 })] + self@ + rhs@);
                }
                r
            },
            Err(_) => vstd::pervasive::unreached(),
        }
    }
}

} // verus!
