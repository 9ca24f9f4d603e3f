//! Words: terms stored as flat symbol sequences in prefix notation.

use vstd::prelude::*;

use core::cmp::Ordering;
use crate::model::SymModel;
use crate::model::bal;
use crate::model::cat_args;
use crate::model::complete;
use crate::model::count_var;
use crate::model::lemma_cat_take_step;
use crate::model::lemma_complete_scan;
use crate::model::lemma_count_take_step;
use crate::model::lemma_op_complete;
use crate::model::lemma_scan_decompose;
use crate::model::lemma_scan_props;
use crate::model::lemma_subtree;
use crate::model::lemma_weight_take_step;
use crate::model::scan;
use crate::model::seq_weight;
use crate::model::sub_at;
use crate::model::sym_arity;
use crate::model::sym_weight;
use crate::model::wend;
use crate::order::cmp_rest;
use crate::order::cmp_words;
use crate::order::counts_eq;
use crate::order::counts_ge;

verus! {

/// A variable identifier.  The algorithms only ever ask whether two
/// variables are the same, so the contract reduces a variable to a key.
pub trait Variable: Sized {
    /// The identity of this variable.
    spec fn id(&self) -> Seq<char>;

    /// Two variables are the same exactly when their keys agree.
    fn eq_var(&self, other: &Self) -> (r: bool)
        ensures
            r == (self.id() == other.id()),
    ;

    /// A copy with the same identity.
    fn clone_var(&self) -> (r: Self)
        ensures
            r.id() == self.id(),
    ;
}

impl Variable for String {
    open spec fn id(&self) -> Seq<char> {
        self@
    }

    fn eq_var(&self, other: &Self) -> bool {
        String::eq(self, other)
    }

    fn clone_var(&self) -> Self {
        self.clone()
    }
}

/// An operator of the algebra: a function symbol with a fixed number of
/// arguments, a weight, and a key in a total order.  One family of operators
/// shares a minimum weight, which is also what every variable weighs.
pub trait Operator: Sized {
    spec fn arity_spec(&self) -> nat;

    spec fn weight_spec(&self) -> nat;

    spec fn index_spec(&self) -> int;

    spec fn min_weight_spec() -> nat;

    /// The order index is injective over the family: it determines the
    /// operator, so in particular its arity and its weight.
    proof fn index_determines(a: &Self, b: &Self)
        ensures
            a.index_spec() == b.index_spec() ==> a.arity_spec() == b.arity_spec()
                && a.weight_spec() == b.weight_spec(),
    ;

    /// Arities and weights of one family are small, so that sums over a word
    /// cannot overflow the machine integers the library computes with.
    proof fn bounds(a: &Self)
        ensures
            a.arity_spec() <= 0xFFFF_FFFF,
            a.weight_spec() <= 0xFFFF_FFFF,
    ;

    /// The family minimum weight is small for the same reason.
    proof fn min_weight_bound()
        ensures
            Self::min_weight_spec() <= 0xFFFF_FFFF,
    ;

    fn arity(&self) -> (a: usize)
        ensures
            a == self.arity_spec(),
    ;

    fn weight(&self) -> (w: u64)
        ensures
            w == self.weight_spec(),
    ;

    fn op_index(&self) -> (i: u64)
        ensures
            i == self.index_spec(),
    ;

    fn min_weight() -> (w: u64)
        ensures
            w == Self::min_weight_spec(),
    ;

    fn clone_op(&self) -> (r: Self)
        ensures
            r == *self,
    ;
}

/// One symbol of a word: a variable or an operator.
#[derive(Debug)]
pub enum Symbol<V, O> {
    Var(V),
    Op(O),
}

impl<V: Variable, O: Operator> Symbol<V, O> {
    /// What this symbol means.
    pub open spec fn model(self) -> SymModel {
        match self {
            Symbol::Var(v) => SymModel::Var { id: v.id() },
            Symbol::Op(f) => SymModel::Op {
                arity: f.arity_spec(),
                weight: f.weight_spec(),
                index: f.index_spec(),
            },
        }
    }

    /// The variable held by this symbol, if it is one.
    pub fn var(&self) -> (r: Option<&V>)
        ensures
            match r {
                Some(v) => self.model() == (SymModel::Var { id: v.id() }),
                None => self.model() is Op,
            },
    {
        match self {
            Symbol::Var(v) => Some(v),
            Symbol::Op(_) => None,
        }
    }

    /// The operator held by this symbol, if it is one.
    pub fn op(&self) -> (r: Option<&O>)
        ensures
            match r {
                Some(f) => self.model() == (SymModel::Op {
                    arity: f.arity_spec(),
                    weight: f.weight_spec(),
                    index: f.index_spec(),
                }),
                None => self.model() is Var,
            },
    {
        match self {
            Symbol::Var(_) => None,
            Symbol::Op(f) => Some(f),
        }
    }

    /// The number of argument subterms this symbol demands.
    pub fn arity(&self) -> (a: usize)
        ensures
            a == crate::model::sym_arity(self.model()),
    {
        match self {
            Symbol::Var(_) => 0,
            Symbol::Op(f) => f.arity(),
        }
    }

    /// This symbol's weight: an operator's own, a variable the family minimum.
    pub fn weight(&self) -> (w: u64)
        ensures
            w == crate::model::sym_weight(self.model(), O::min_weight_spec()),
    {
        match self {
            Symbol::Var(_) => O::min_weight(),
            Symbol::Op(f) => f.weight(),
        }
    }

    /// A copy with the same meaning.
    pub fn clone_sym(&self) -> (r: Self)
        ensures
            r.model() == self.model(),
    {
        match self {
            Symbol::Var(v) => Symbol::Var(v.clone_var()),
            Symbol::Op(f) => Symbol::Op(f.clone_op()),
        }
    }
}

/// The meaning of a symbol sequence.
pub open spec fn syms_model<V: Variable, O: Operator>(s: Seq<Symbol<V, O>>) -> Seq<SymModel> {
    s.map_values(|x: Symbol<V, O>| x.model())
}

/// A term: a sequence of symbols in prefix notation.
#[derive(Debug)]
pub struct Word<V, O> {
    pub syms: Vec<Symbol<V, O>>,
}

impl<V: Variable, O: Operator> View for Word<V, O> {
    type V = Seq<SymModel>;

    open spec fn view(&self) -> Seq<SymModel> {
        syms_model(self.syms@)
    }
}

/// The construction-time error: an operator was given the wrong number of
/// arguments.
#[derive(Clone, Copy, Debug, PartialEq, Eq, Structural)]
pub struct ArityMismatch {
    pub expected: usize,
    pub got: usize,
}

impl<V: Variable, O: Operator> Word<V, O> {
    /// The word made of this one symbol.
    pub fn from_sym(s: Symbol<V, O>) -> (r: Word<V, O>)
        ensures
            r@ =~= seq![s.model()],
    {
        Word { syms: vec![s] }
    }

    /// The word that is one bare variable.
    pub fn var(v: V) -> (r: Word<V, O>)
        ensures
            r@ =~= seq![SymModel::Var { id: v.id() }],
            complete(r@),
    {
        let r = Word::from_sym(Symbol::Var(v));
        proof {
            crate::model::lemma_single_complete(r@);
        }
        r
    }

    /// The word whose head is the operator `f` applied to the given argument
    /// words in order.  The number of arguments must match the operator's
    /// arity; otherwise nothing is built and the mismatch is reported.
    #[verifier::loop_isolation(false)]
    pub fn op(f: O, args: &[Word<V, O>]) -> (r: Result<Word<V, O>, ArityMismatch>)
        requires
            forall|t: int| 0 <= t < args@.len() ==> complete(#[trigger] args@[t]@),
        ensures
            match r {
                Ok(w) => {
                    &&& args@.len() == f.arity_spec()
                    &&& w@ == seq![
                        (SymModel::Op {
                            arity: f.arity_spec(),
                            weight: f.weight_spec(),
                            index: f.index_spec(),
                        }),
                    ] + cat_args(args@.map_values(|a: Word<V, O>| a@))
                    &&& complete(w@)
                },
                Err(e) => {
                    &&& args@.len() != f.arity_spec()
                    &&& e.expected == f.arity_spec()
                    &&& e.got == args@.len()
                },
            },
    {
        let k = f.arity();
        if args.len() != k {
            return Err(ArityMismatch { expected: k, got: args.len() });
        }
        let ghost fm = SymModel::Op {
            arity: f.arity_spec(),
            weight: f.weight_spec(),
            index: f.index_spec(),
        };
        let ghost argmods = args@.map_values(|a: Word<V, O>| a@);
        let mut syms: Vec<Symbol<V, O>> = Vec::new();
        syms.push(Symbol::Op(f));
        assert(syms_model(syms@) =~= seq![fm] + cat_args(argmods.take(0)));
        let mut t: usize = 0;
        while t < args.len()
            invariant
                t <= args.len(),
                syms_model(syms@) == seq![fm] + cat_args(argmods.take(t as int)),
            decreases args.len() - t,
        {
            let w = &args[t];
            assert(argmods[t as int] == w@);
            let mut u: usize = 0;
            while u < w.syms.len()
                invariant
                    u <= w.syms.len(),
                    syms_model(syms@) == seq![fm] + cat_args(argmods.take(t as int)) + w@.take(
                        u as int,
                    ),
                decreases w.syms.len() - u,
            {
                let s = w.syms[u].clone_sym();
                proof {
                    assert(w@[u as int] == s.model());
                    assert(w@.take(u + 1) =~= w@.take(u as int).push(s.model()));
                }
                let ghost before = syms_model(syms@);
                syms.push(s);
                assert(syms_model(syms@) =~= before.push(s.model()));
                assert(syms_model(syms@) =~= seq![fm] + cat_args(argmods.take(t as int)) + w@.take(
                    u + 1,
                ));
                u += 1;
            }
            proof {
                assert(w@.take(w@.len() as int) =~= w@);
                lemma_cat_take_step(argmods, t as int);
                assert(seq![fm] + cat_args(argmods.take(t + 1)) =~= seq![fm] + cat_args(
                    argmods.take(t as int),
                ) + w@);
            }
            t += 1;
        }
        proof {
            assert(argmods.take(args@.len() as int) =~= argmods);
            let s = syms_model(syms@);
            assert(s.skip(1) =~= cat_args(argmods));
            assert forall|i: int| 0 <= i < argmods.len() implies complete(
                #[trigger] argmods[i],
            ) by {
                assert(argmods[i] == args@[i]@);
            }
            lemma_op_complete(s, argmods);
        }
        Ok(Word { syms })
    }

    /// The total weight of the word.
    #[verifier::loop_isolation(false)]
    pub fn weight(&self) -> (w: u128)
        ensures
            w == seq_weight(self@, O::min_weight_spec()),
    {
        let ghost minw = O::min_weight_spec();
        let mut total: u128 = 0;
        let mut i: usize = 0;
        assert(self@.take(0) =~= Seq::<SymModel>::empty());
        while i < self.syms.len()
            invariant
                i <= self.syms.len(),
                total == seq_weight(self@.take(i as int), minw),
                total <= i * 0xFFFF_FFFFu128,
            decreases self.syms.len() - i,
        {
            let sw = self.syms[i].weight();
            proof {
                match &self.syms[i as int] {
                    Symbol::Var(_) => {
                        O::min_weight_bound();
                    },
                    Symbol::Op(f) => {
                        O::bounds(f);
                    },
                }
                assert(sw <= 0xFFFF_FFFFu64);
                lemma_weight_take_step(self@, minw, i as int);
                assert(self@[i as int] == self.syms@[i as int].model());
            }
            total = total + (sw as u128);
            i += 1;
        }
        proof {
            assert(self@.take(self.syms@.len() as int) =~= self@);
        }
        total
    }

    /// How often the given variable occurs in this word.
    #[verifier::loop_isolation(false)]
    pub fn n(&self, v: &V) -> (r: usize)
        ensures
            r == count_var(self@, v.id()),
    {
        let mut r: usize = 0;
        let mut i: usize = 0;
        assert(self@.take(0) =~= Seq::<SymModel>::empty());
        while i < self.syms.len()
            invariant
                i <= self.syms.len(),
                r <= i,
                r == count_var(self@.take(i as int), v.id()),
            decreases self.syms.len() - i,
        {
            proof {
                lemma_count_take_step(self@, v.id(), i as int);
                assert(self@[i as int] == self.syms@[i as int].model());
            }
            match &self.syms[i] {
                Symbol::Var(u) => {
                    if u.eq_var(v) {
                        r += 1;
                    }
                },
                Symbol::Op(_) => {},
            }
            i += 1;
        }
        proof {
            assert(self@.take(self.syms@.len() as int) =~= self@);
        }
        r
    }

    /// The set of variables occurring in this word, each exactly once.
    #[verifier::loop_isolation(false)]
    pub fn vars(&self) -> (r: Vec<V>)
        ensures
            forall|t: int| 0 <= t < r@.len() ==> count_var(self@, (#[trigger] r@[t]).id()) > 0,
            forall|id: Seq<char>|
                count_var(self@, id) > 0 ==> exists|t: int|
                    0 <= t < r@.len() && (#[trigger] r@[t]).id() == id,
            forall|t1: int, t2: int|
                0 <= t1 < t2 < r@.len() ==> (#[trigger] r@[t1]).id() != (#[trigger] r@[t2]).id(),
    {
        let mut r: Vec<V> = Vec::new();
        let mut i: usize = 0;
        assert(self@.take(0) =~= Seq::<SymModel>::empty());
        while i < self.syms.len()
            invariant
                i <= self.syms.len(),
                forall|t: int|
                    0 <= t < r@.len() ==> count_var(self@.take(i as int), (#[trigger] r@[t]).id())
                        > 0,
                forall|id: Seq<char>|
                    count_var(self@.take(i as int), id) > 0 ==> exists|t: int|
                        0 <= t < r@.len() && (#[trigger] r@[t]).id() == id,
                forall|t1: int, t2: int|
                    0 <= t1 < t2 < r@.len() ==> (#[trigger] r@[t1]).id() != (
                    #[trigger] r@[t2]).id(),
            decreases self.syms.len() - i,
        {
            let ghost r0 = r@;
            proof {
                assert(self@[i as int] == self.syms@[i as int].model());
            }
            match &self.syms[i] {
                Symbol::Var(u) => {
                    let mut seen = false;
                    let mut t: usize = 0;
                    while t < r.len()
                        invariant
                            t <= r.len(),
                            seen == exists|t2: int|
                                0 <= t2 < t && (#[trigger] r@[t2]).id() == u.id(),
                        decreases r.len() - t,
                    {
                        if r[t].eq_var(u) {
                            seen = true;
                        }
                        t += 1;
                    }
                    if !seen {
                        r.push(u.clone_var());
                        assert(r@[r@.len() - 1].id() == u.id());
                        assert forall|t1: int, t2: int|
                            0 <= t1 < t2 < r@.len() implies (#[trigger] r@[t1]).id() != (
                        #[trigger] r@[t2]).id() by {
                            if t2 == r@.len() - 1 {
                                assert(r@[t1] == r0[t1]);
                            }
                        }
                    }
                    assert(exists|t2: int| 0 <= t2 < r@.len() && (#[trigger] r@[t2]).id() == u.id());
                },
                Symbol::Op(_) => {},
            }
            proof {
                assert forall|t: int| 0 <= t < r@.len() implies count_var(
                    self@.take(i + 1),
                    (#[trigger] r@[t]).id(),
                ) > 0 by {
                    lemma_count_take_step(self@, r@[t].id(), i as int);
                }
                let ip1 = i as int + 1;
                assert forall|id: Seq<char>|
                    #[trigger] count_var(self@.take(ip1), id) > 0 implies exists|t: int|
                    0 <= t < r@.len() && (#[trigger] r@[t]).id() == id by {
                    lemma_count_take_step(self@, id, i as int);
                    if count_var(self@.take(i as int), id) > 0 {
                        let t0 = choose|t2: int| 0 <= t2 < r0.len() && (#[trigger] r0[t2]).id() == id;
                        assert(0 <= t0 < r@.len());
                        assert(r@[t0] == r0[t0]);
                        assert((#[trigger] r@[t0]).id() == id);
                    } else {
                        assert(self@[i as int] == (SymModel::Var { id }));
                        assert(exists|t: int| 0 <= t < r@.len() && (#[trigger] r@[t]).id() == id);
                    }
                }
            }
            i += 1;
        }
        proof {
            assert(self@.take(self.syms@.len() as int) =~= self@);
        }
        r
    }

    /// Whether the arity balance of the word comes out even: the one check
    /// made at construction boundaries.
    #[verifier::loop_isolation(false)]
    pub fn is_well_formed(&self) -> (r: bool)
        ensures
            r == (bal(self@, self@.len() as int) == 0),
    {
        let mut nsyms: i128 = 1;
        let mut i: usize = 0;
        while i < self.syms.len()
            invariant
                i <= self.syms.len(),
                nsyms == bal(self@, i as int),
                nsyms >= 1 - i,
                nsyms <= 1 + i * 0xFFFF_FFFFi128,
            decreases self.syms.len() - i,
        {
            let a = self.syms[i].arity();
            proof {
                match &self.syms[i as int] {
                    Symbol::Var(_) => {},
                    Symbol::Op(f) => {
                        O::bounds(f);
                    },
                }
                assert(a <= 0xFFFF_FFFFusize);
                assert(self@[i as int] == self.syms@[i as int].model());
            }
            nsyms = nsyms + (a as i128) - 1;
            i += 1;
        }
        nsyms == 0
    }

    /// Structural equality of meanings: same length, and the same symbol at
    /// every position.
    #[verifier::loop_isolation(false)]
    pub fn eq_word(&self, other: &Self) -> (r: bool)
        ensures
            r == (self@ == other@),
    {
        if self.syms.len() != other.syms.len() {
            return false;
        }
        let mut i: usize = 0;
        while i < self.syms.len()
            invariant
                i <= self.syms.len(),
                self@.len() == other@.len(),
                forall|t: int| 0 <= t < i ==> self@[t] == other@[t],
            decreases self.syms.len() - i,
        {
            proof {
                assert(self@[i as int] == self.syms@[i as int].model());
                assert(other@[i as int] == other.syms@[i as int].model());
            }
            match (&self.syms[i], &other.syms[i]) {
                (Symbol::Var(u), Symbol::Var(v)) => {
                    if !u.eq_var(v) {
                        assert(self@[i as int] != other@[i as int]);
                        return false;
                    }
                },
                (Symbol::Op(f), Symbol::Op(g)) => {
                    if f.op_index() != g.op_index() {
                        assert(self@[i as int] != other@[i as int]);
                        return false;
                    }
                    proof {
                        O::index_determines(f, g);
                    }
                },
                (Symbol::Var(_), Symbol::Op(_)) => {
                    return false;
                },
                (Symbol::Op(_), Symbol::Var(_)) => {
                    return false;
                },
            }
            i += 1;
        }
        proof {
            assert(self@ =~= other@);
        }
        true
    }
}

/// Finds the end of the complete subtree that starts at position `i`.
#[verifier::loop_isolation(false)]
pub(crate) fn seq_end<V: Variable, O: Operator>(syms: &Vec<Symbol<V, O>>, i: usize) -> (e: usize)
    requires
        i <= syms@.len(),
        wend(syms_model(syms@), i as int) >= 0,
    ensures
        e == wend(syms_model(syms@), i as int),
        i <= e <= syms@.len(),
{
    let ghost s = syms_model(syms@);
    let n = syms.len();
    let mut pending: u128 = 1;
    let mut j: usize = i;
    proof {
        lemma_scan_props(s, i as int, 1);
    }
    while pending > 0
        invariant
            n == syms@.len(),
            i <= j <= n,
            pending <= 1 + (j - i) * 0xFFFF_FFFFu128,
            scan(s, j as int, pending as int) == wend(s, i as int),
        decreases syms@.len() - j,
    {
        proof {
            if j == syms@.len() {
                assert(scan(s, j as int, pending as int) == -1);
                assert(false);
            }
            assert(j < syms@.len());
        }
        let a = syms[j].arity();
        proof {
            match &syms@[j as int] {
                Symbol::Var(_) => {},
                Symbol::Op(f) => {
                    O::bounds(f);
                },
            }
            assert(a <= 0xFFFF_FFFFusize);
            assert(s[j as int] == syms@[j as int].model());
        }
        pending = pending - 1 + (a as u128);
        j += 1;
    }
    proof {
        assert(scan(s, j as int, 0) == j);
        lemma_scan_props(s, i as int, 1);
    }
    j
}

/// Copies the symbols at positions `[i, j)` into a word of their own.
#[verifier::loop_isolation(false)]
pub(crate) fn copy_range<V: Variable, O: Operator>(syms: &Vec<Symbol<V, O>>, i: usize, j: usize) -> (r: Word<
    V,
    O,
>)
    requires
        i <= j <= syms@.len(),
    ensures
        r@ == syms_model(syms@).subrange(i as int, j as int),
{
    let mut out: Vec<Symbol<V, O>> = Vec::new();
    assert(syms_model(out@) =~= syms_model(syms@).subrange(i as int, i as int));
    let mut t: usize = i;
    while t < j
        invariant
            i <= t <= j,
            syms_model(out@) == syms_model(syms@).subrange(i as int, t as int),
        decreases j - t,
    {
        let ghost before = syms_model(out@);
        out.push(syms[t].clone_sym());
        proof {
            assert(syms_model(out@) =~= before.push(syms@[t as int].model()));
            assert(syms_model(syms@).subrange(i as int, t + 1) =~= before.push(
                syms_model(syms@)[t as int],
            ));
        }
        t += 1;
    }
    Word { syms: out }
}

impl<V: Variable, O: Operator> Word<V, O> {
    /// The complete subterm of this word that starts at position `i`.
    pub fn subword_at(&self, i: usize) -> (r: Word<V, O>)
        requires
            complete(self@),
            i < self@.len(),
        ensures
            r@ == sub_at(self@, i as int),
            complete(r@),
            r@.len() >= 1,
            i + r@.len() == wend(self@, i as int),
    {
        proof {
            lemma_subtree(self@, i as int);
        }
        let e = seq_end(&self.syms, i);
        copy_range(&self.syms, i, e)
    }

    /// Every variable of `other` occurs in `self` at least as often.
    #[verifier::loop_isolation(false)]
    pub fn counts_dominate(&self, other: &Self) -> (r: bool)
        ensures
            r == counts_ge(self@, other@),
    {
        let vs = other.vars();
        let mut t: usize = 0;
        while t < vs.len()
            invariant
                t <= vs@.len(),
                forall|t2: int|
                    0 <= t2 < t ==> count_var(self@, (#[trigger] vs@[t2]).id()) >= count_var(
                        other@,
                        vs@[t2].id(),
                    ),
            decreases vs@.len() - t,
        {
            if self.n(&vs[t]) < other.n(&vs[t]) {
                assert(!counts_ge(self@, other@)) by {
                    assert(count_var(self@, vs@[t as int].id()) < count_var(
                        other@,
                        vs@[t as int].id(),
                    ));
                }
                return false;
            }
            t += 1;
        }
        assert forall|id: Seq<char>| #[trigger]
            count_var(self@, id) >= count_var(other@, id) by {
            if count_var(other@, id) > 0 {
                let t2 = choose|t2: int| 0 <= t2 < vs@.len() && (#[trigger] vs@[t2]).id() == id;
                assert(count_var(self@, vs@[t2].id()) >= count_var(other@, vs@[t2].id()));
            }
        }
        true
    }

    /// The reduction ordering: Greater, Less, Equal, or no relation (`None`).
    #[verifier::loop_isolation(false)]
    pub fn partial_cmp(&self, other: &Self) -> (r: Option<Ordering>)
        requires
            complete(self@),
            complete(other@),
        ensures
            r == cmp_words(self@, other@, O::min_weight_spec()),
        decreases self@.len() + other@.len(),
    {
        let ghost minw = O::min_weight_spec();
        let wa = self.weight();
        let wb = other.weight();
        if wa > wb {
            if self.counts_dominate(other) {
                Some(Ordering::Greater)
            } else {
                None
            }
        } else if wa < wb {
            if other.counts_dominate(self) {
                Some(Ordering::Less)
            } else {
                None
            }
        } else {
            if !(self.counts_dominate(other) && other.counts_dominate(self)) {
                assert(!counts_eq(self@, other@)) by {
                    if !counts_ge(self@, other@) {
                        let id = choose|id: Seq<char>|
                            !(#[trigger] count_var(self@, id) >= count_var(other@, id));
                        assert(count_var(self@, id) != count_var(other@, id));
                    } else {
                        let id = choose|id: Seq<char>|
                            !(#[trigger] count_var(other@, id) >= count_var(self@, id));
                        assert(count_var(self@, id) != count_var(other@, id));
                    }
                }
                return None;
            }
            assert(counts_eq(self@, other@));
            proof {
                assert(self@.len() >= 1) by {
                    assert(bal(self@, 0) == 1);
                }
                assert(other@.len() >= 1) by {
                    assert(bal(other@, 0) == 1);
                }
                assert(self@[0] == self.syms@[0].model());
                assert(other@[0] == other.syms@[0].model());
            }
            match (&self.syms[0], &other.syms[0]) {
                (Symbol::Op(_), Symbol::Var(_)) => Some(Ordering::Greater),
                (Symbol::Var(_), Symbol::Op(_)) => Some(Ordering::Less),
                (Symbol::Var(_), Symbol::Var(_)) => Some(Ordering::Equal),
                (Symbol::Op(f), Symbol::Op(g)) => {
                    let ia = f.op_index();
                    let ib = g.op_index();
                    if ia > ib {
                        Some(Ordering::Greater)
                    } else if ia < ib {
                        Some(Ordering::Less)
                    } else {
                        let k = f.arity();
                        proof {
                            O::index_determines(f, g);
                            lemma_complete_scan(self@);
                            lemma_complete_scan(other@);
                        }
                        let mut pa: usize = 1;
                        let mut pb: usize = 1;
                        let mut t: usize = 0;
                        while t < k
                            invariant
                                t <= k,
                                1 <= pa <= self@.len(),
                                1 <= pb <= other@.len(),
                                scan(self@, pa as int, (k - t) as int) == self@.len(),
                                scan(other@, pb as int, (k - t) as int) == other@.len(),
                                cmp_words(self@, other@, minw) == cmp_rest(
                                    self@,
                                    other@,
                                    pa as int,
                                    pb as int,
                                    (k - t) as nat,
                                    minw,
                                ),
                            decreases k - t,
                        {
                            proof {
                                lemma_scan_decompose(self@, pa as int, 1, (k - t - 1) as int);
                                lemma_scan_decompose(other@, pb as int, 1, (k - t - 1) as int);
                                if wend(self@, pa as int) == -1 {
                                    assert(scan(self@, pa as int, (k - t) as int) == -1);
                                }
                                if wend(other@, pb as int) == -1 {
                                    assert(scan(other@, pb as int, (k - t) as int) == -1);
                                }
                                lemma_scan_props(self@, pa as int, 1);
                                lemma_scan_props(other@, pb as int, 1);
                            }
                            let suba = self.subword_at(pa);
                            let subb = other.subword_at(pb);
                            let c = suba.partial_cmp(&subb);
                            match c {
                                Some(Ordering::Equal) => {},
                                _ => {
                                    return c;
                                },
                            }
                            let ea = seq_end(&self.syms, pa);
                            let eb = seq_end(&other.syms, pb);
                            pa = ea;
                            pb = eb;
                            t += 1;
                        }
                        assert(cmp_rest(self@, other@, pa as int, pb as int, 0nat, minw)
                            == Some(Ordering::Equal));
                        Some(Ordering::Equal)
                    }
                },
            }
        }
    }
}

/// A walk over the argument subterms of a word, left to right.  Each call of
/// `subwords` starts a fresh walk.
pub struct Subwords<'a, V, O> {
    pub syms: &'a Vec<Symbol<V, O>>,
    pub i: usize,
    pub nargs: usize,
}

impl<'a, V: Variable, O: Operator> Subwords<'a, V, O> {
    /// The word being walked.
    pub open spec fn src(self) -> Seq<SymModel> {
        syms_model(self.syms@)
    }

    /// The walk stands inside a complete word, with `nargs` argument
    /// subtrees left, which fill the word exactly from position `i` on.
    pub open spec fn wf(self) -> bool {
        &&& complete(self.src())
        &&& self.i <= self.src().len()
        &&& scan(self.src(), self.i as int, self.nargs as int) == self.src().len()
    }

    /// The next argument subterm, or nothing once all have been yielded.
    pub fn next(&mut self) -> (r: Option<Word<V, O>>)
        requires
            old(self).wf(),
        ensures
            final(self).wf(),
            final(self).syms == old(self).syms,
            match r {
                None => old(self).nargs == 0 && *final(self) == *old(self),
                Some(w) => {
                    &&& old(self).nargs >= 1
                    &&& w@ == sub_at(old(self).src(), old(self).i as int)
                    &&& complete(w@)
                    &&& w@.len() >= 1
                    &&& final(self).i as int == wend(old(self).src(), old(self).i as int)
                    &&& final(self).nargs == old(self).nargs - 1
                },
            },
    {
        if self.nargs == 0 {
            return None;
        }
        proof {
            lemma_scan_decompose(self.src(), self.i as int, 1, self.nargs - 1);
            if wend(self.src(), self.i as int) == -1 {
                assert(scan(self.src(), self.i as int, self.nargs as int) == -1);
                assert(false);
            }
            if self.i == self.src().len() {
                assert(scan(self.src(), self.i as int, self.nargs as int) == -1);
                assert(false);
            }
            lemma_subtree(self.src(), self.i as int);
        }
        let e = seq_end(self.syms, self.i);
        let w = copy_range(self.syms, self.i, e);
        self.i = e;
        self.nargs = self.nargs - 1;
        Some(w)
    }
}

impl<V: Variable, O: Operator> Word<V, O> {
    /// A fresh walk over this word's argument subterms.
    pub fn subwords(&self) -> (r: Subwords<'_, V, O>)
        requires
            complete(self@),
        ensures
            r.wf(),
            r.src() == self@,
            r.i == 1,
            r.nargs == sym_arity(self@[0]),
    {
        proof {
            lemma_complete_scan(self@);
            assert(self@[0] == self.syms@[0].model());
        }
        let nargs = self.syms[0].arity();
        Subwords { syms: &self.syms, i: 1, nargs }
    }

    /// A copy with the same meaning.
    pub fn clone_word(&self) -> (r: Word<V, O>)
        ensures
            r@ == self@,
    {
        let r = copy_range(&self.syms, 0, self.syms.len());
        proof {
            assert(self@.subrange(0, self@.len() as int) =~= self@);
        }
        r
    }
}

impl<V: Variable, O: Operator> PartialEq for Word<V, O> {
    /// Two words are equal when they carry the same symbols.
    fn eq(&self, other: &Self) -> (r: bool) {
        self.eq_word(other)
    }
}

impl<V: Variable, O: Operator> vstd::std_specs::cmp::PartialEqSpecImpl for Word<V, O> {
    open spec fn obeys_eq_spec() -> bool {
        true
    }

    open spec fn eq_spec(&self, other: &Self) -> bool {
        self@ == other@
    }
}

} // verus!
