//! A multiplicative operator family: the unit, the inverse, and a binary
//! product.  The inverse weighs nothing, which the ordering copes with by
//! treating an application of it as larger than its argument.

use vstd::prelude::*;

use crate::model::SymModel;
use crate::model::cat_args;
use crate::model::complete;
use crate::word;
use crate::word::Operator;

verus! {

/// The operators of the multiplicative algebra.
#[derive(Clone, Copy, Debug, PartialEq, Eq, Structural)]
pub enum Prod {
    One,
    Inv,
    Mul,
}

impl Operator for Prod {
    open spec fn arity_spec(&self) -> nat {
        match self {
            Prod::One => 0,
            Prod::Inv => 1,
            Prod::Mul => 2,
        }
    }

    open spec fn weight_spec(&self) -> nat {
        match self {
            Prod::One => 1,
            Prod::Inv => 0,
            Prod::Mul => 1,
        }
    }

    open spec fn index_spec(&self) -> int {
        match self {
            Prod::One => 0,
            Prod::Inv => 1,
            Prod::Mul => 2,
        }
    }

    open spec fn min_weight_spec() -> nat {
        1
    }

    proof fn index_determines(a: &Self, b: &Self) {
    }

    proof fn bounds(a: &Self) {
    }

    proof fn min_weight_bound() {
    }

    fn arity(&self) -> usize {
        match self {
            Prod::One => 0,
            Prod::Inv => 1,
            Prod::Mul => 2,
        }
    }

    fn weight(&self) -> u64 {
        match self {
            Prod::One => 1,
            Prod::Inv => 0,
            Prod::Mul => 1,
        }
    }

    fn op_index(&self) -> u64 {
        match self {
            Prod::One => 0,
            Prod::Inv => 1,
            Prod::Mul => 2,
        }
    }

    fn min_weight() -> u64 {
        1
    }

    fn clone_op(&self) -> Self {
        *self
    }
}

pub type Symbol = word::Symbol<String, Prod>;

pub type Word = word::Word<String, Prod>;

/// A word that is one named variable.
pub fn var(v: &str) -> (r: Word)
    ensures
        r@ =~= seq![(SymModel::Var { id: v@ })],
        complete(r@),
{
    word::Word::var(v.to_owned())
}

/// The unit element as a word.
pub fn one() -> (r: Word)
    ensures
        r@ =~= seq![(SymModel::Op { arity: 0, weight: 1, index: 0 })],
        complete(r@),
{
    let args: [Word; 0] = [];
    match word::Word::op(Prod::One, &args) {
        Ok(w) => {
            proof {
                assert(args@.map_values(|a: Word| a@) =~= Seq::<Seq<SymModel>>::empty());
                assert(w@ =~= seq![(SymModel::Op { arity: 0, weight: 1, index: 0 })]);
            }
            w
        },
        Err(_) => vstd::pervasive::unreached(),
    }
}

/// The inverse of a word.
pub fn inv(w: &Word) -> (r: Word)
    requires
        complete(w@),
    ensures
        r@ =~= seq![(SymModel::Op { arity: 1, weight: 0, index: 1 })] + w@,
        complete(r@),
{
    let args: [Word; 1] = [w.clone_word()];
    match word::Word::op(Prod::Inv, &args) {
        Ok(r) => {
            proof {
                let ws = args@.map_values(|a: Word| a@);
                assert(ws =~= seq![w@]);
                assert(ws.drop_last().len() == 0);
                assert(cat_args(ws.drop_last()) =~= Seq::<SymModel>::empty());
                assert(cat_args(ws) == cat_args(ws.drop_last()) + ws.last());
                assert(cat_args(ws) =~= w@);
            }
            r
        },
        Err(_) => vstd::pervasive::unreached(),
    }
}

impl word::Word<String, Prod> {
    /// The product of this word with another.
    pub fn mul(&self, rhs: &Self) -> (r: Word)
        requires
            complete(self@),
            complete(rhs@),
        ensures
            r@ =~= seq![(SymModel::Op { arity: 2, weight: 1, index: 2 })] + self@ + rhs@,
            complete(r@),
    {
        let args: [Word; 2] = [self.clone_word(), rhs.clone_word()];
        match word::Word::op(Prod::Mul, &args) {
            Ok(r) => {
                proof {
                    let ws = args@.map_values(|a: Word| a@);
                    assert(ws =~= seq![self@, rhs@]);
                    assert(ws.drop_last() =~= seq![self@]);
                    assert(ws.drop_last().drop_last().len() == 0);
                    assert(cat_args(ws.drop_last().drop_last()) =~= Seq::<SymModel>::empty());
                    assert(cat_args(ws.drop_last()) == cat_args(ws.drop_last().drop_last())
                        + ws.drop_last().last());
                    assert(cat_args(ws.drop_last()) =~= self@);
                    assert(cat_args(ws) == cat_args(ws.drop_last()) + ws.last());
                    assert(cat_args(ws) =~= self@ + rhs@);
                    assert(seq![(SymModel::Op { arity: 2, weight: 1, index: 2 })] + (self@ + rhs@)
                        =~= seq![(SymModel::Op { arity: 2, weight: 1, index: 2 })] + self@ + rhs@);
                }
                r
            },
            Err(_) => vstd::pervasive::unreached(),
        }
    }
}

} // verus!
