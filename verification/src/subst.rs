//! Substitutions: finite mappings from variables to words, and their
//! application.  Applying a substitution replaces every occurrence of a
//! mapped variable by its assigned word and leaves everything else alone.

use vstd::prelude::*;

use crate::model::SymModel;
use crate::model::cat_args;
use crate::model::complete;
use crate::model::count_var;
use crate::model::lemma_args_cat;
use crate::model::lemma_complete_scan;
use crate::model::lemma_op_complete;
use crate::model::lemma_var_word;
use crate::model::sym_arity;
use crate::word::Operator;
use crate::word::Symbol;
use crate::word::Variable;
use crate::word::Word;
use crate::word::syms_model;

verus! {

/// What one symbol becomes under a substitution.
pub open spec fn sym_image(x: SymModel, m: Map<Seq<char>, Seq<SymModel>>) -> Seq<SymModel> {
    match x {
        SymModel::Var { id } => if m.dom().contains(id) {
            m[id]
        } else {
            seq![x]
        },
        SymModel::Op { .. } => seq![x],
    }
}

/// A word with a substitution applied throughout.
pub open spec fn apply_subst(s: Seq<SymModel>, m: Map<Seq<char>, Seq<SymModel>>) -> Seq<SymModel>
    decreases s.len(),
{
    if s.len() == 0 {
        Seq::empty()
    } else {
        sym_image(s[0], m) + apply_subst(s.skip(1), m)
    }
}

pub proof fn lemma_apply_concat(
    a: Seq<SymModel>,
    b: Seq<SymModel>,
    m: Map<Seq<char>, Seq<SymModel>>,
)
    ensures
        apply_subst(a + b, m) == apply_subst(a, m) + apply_subst(b, m),
    decreases a.len(),
{
    if a.len() == 0 {
        assert(a + b =~= b);
        assert(apply_subst(a, m) + apply_subst(b, m) =~= apply_subst(b, m));
    } else {
        lemma_apply_concat(a.skip(1), b, m);
        assert((a + b)[0] == a[0]);
        assert((a + b).skip(1) =~= a.skip(1) + b);
        assert(sym_image(a[0], m) + (apply_subst(a.skip(1), m) + apply_subst(b, m)) =~= (sym_image(
            a[0],
            m,
        ) + apply_subst(a.skip(1), m)) + apply_subst(b, m));
    }
}

pub proof fn lemma_apply_singleton(x: SymModel, m: Map<Seq<char>, Seq<SymModel>>)
    ensures
        apply_subst(seq![x], m) == sym_image(x, m),
{
    assert(seq![x].skip(1).len() == 0);
    assert(apply_subst(seq![x].skip(1), m) =~= Seq::<SymModel>::empty());
    assert(apply_subst(seq![x], m) == sym_image(x, m) + apply_subst(seq![x].skip(1), m));
    assert(apply_subst(seq![x], m) =~= sym_image(x, m));
}

/// One more symbol appends its image.
pub proof fn lemma_apply_take_step(s: Seq<SymModel>, m: Map<Seq<char>, Seq<SymModel>>, i: int)
    requires
        0 <= i < s.len(),
    ensures
        apply_subst(s.take(i + 1), m) == apply_subst(s.take(i), m) + sym_image(s[i], m),
{
    assert(s.take(i + 1) =~= s.take(i) + seq![s[i]]);
    lemma_apply_concat(s.take(i), seq![s[i]], m);
    lemma_apply_singleton(s[i], m);
}

/// Applying a substitution distributes over a list of words.
pub proof fn lemma_apply_cat(ps: Seq<Seq<SymModel>>, m: Map<Seq<char>, Seq<SymModel>>)
    ensures
        apply_subst(cat_args(ps), m) == cat_args(
            ps.map_values(|p: Seq<SymModel>| apply_subst(p, m)),
        ),
    decreases ps.len(),
{
    let q = ps.map_values(|p: Seq<SymModel>| apply_subst(p, m));
    if ps.len() == 0 {
        assert(cat_args(ps).len() == 0);
        assert(apply_subst(cat_args(ps), m) =~= cat_args(q));
    } else {
        lemma_apply_cat(ps.drop_last(), m);
        lemma_apply_concat(cat_args(ps.drop_last()), ps.last(), m);
        assert(ps.drop_last().map_values(|p: Seq<SymModel>| apply_subst(p, m)) =~= q.drop_last());
        assert(q.last() == apply_subst(ps.last(), m));
        assert(apply_subst(cat_args(ps), m) =~= cat_args(q));
    }
}

/// A substitution whose assigned words are complete maps complete words to
/// complete words.
pub proof fn lemma_apply_complete(s: Seq<SymModel>, m: Map<Seq<char>, Seq<SymModel>>)
    requires
        complete(s),
        forall|id: Seq<char>| m.dom().contains(id) ==> complete(#[trigger] m[id]),
    ensures
        complete(apply_subst(s, m)),
    decreases s.len(),
{
    assert(s.len() >= 1) by {
        assert(crate::model::bal(s, 0) == 1);
    }
    match s[0] {
        SymModel::Var { id } => {
            lemma_var_word(s);
            lemma_apply_singleton(s[0], m);
            assert(s =~= seq![s[0]]);
            if m.dom().contains(id) {
                assert(complete(m[id]));
            } else {
                crate::model::lemma_single_complete(seq![s[0]]);
            }
        },
        SymModel::Op { arity: k, .. } => {
            lemma_complete_scan(s);
            lemma_args_cat(s, 1, k);
            let ps = crate::model::args_from(s, 1, k);
            assert(cat_args(ps) == s.subrange(1, s.len() as int));
            assert(s.subrange(1, s.len() as int) =~= s.skip(1));
            let q = ps.map_values(|p: Seq<SymModel>| apply_subst(p, m));
            assert(apply_subst(s, m) == sym_image(s[0], m) + apply_subst(s.skip(1), m));
            lemma_apply_cat(ps, m);
            assert(apply_subst(s, m) == seq![s[0]] + cat_args(q));
            assert forall|t: int| 0 <= t < q.len() implies complete(#[trigger] q[t]) by {
                assert(complete(ps[t]));
                assert(ps[t].len() <= s.skip(1).len()) by {
                    assert(cat_args(ps) == s.skip(1));
                    lemma_cat_part_len(ps, t);
                }
                lemma_apply_complete(ps[t], m);
            }
            let r = apply_subst(s, m);
            assert(r.len() >= 1 && r[0] == s[0]);
            assert(r.skip(1) =~= cat_args(q));
            lemma_op_complete(r, q);
        },
    }
}

/// Every part of a concatenation is no longer than the whole.
pub proof fn lemma_cat_part_len(ps: Seq<Seq<SymModel>>, t: int)
    requires
        0 <= t < ps.len(),
    ensures
        ps[t].len() <= cat_args(ps).len(),
    decreases ps.len(),
{
    if t == ps.len() - 1 {
        assert(ps.last() == ps[t]);
    } else {
        lemma_cat_part_len(ps.drop_last(), t);
        assert(ps.drop_last()[t] == ps[t]);
    }
}

/// The map carried by a list of variable-to-word pairs, later pairs winning.
pub open spec fn map_of<V: Variable, O: Operator>(ps: Seq<(V, Word<V, O>)>) -> Map<
    Seq<char>,
    Seq<SymModel>,
>
    decreases ps.len(),
{
    if ps.len() == 0 {
        Map::empty()
    } else {
        map_of(ps.drop_last()).insert(ps.last().0.id(), ps.last().1@)
    }
}

/// A finite mapping from variables to words, with each variable bound once.
pub struct Subst<V, O> {
    pub pairs: Vec<(V, Word<V, O>)>,
}

impl<V: Variable, O: Operator> View for Subst<V, O> {
    type V = Map<Seq<char>, Seq<SymModel>>;

    open spec fn view(&self) -> Map<Seq<char>, Seq<SymModel>> {
        map_of(self.pairs@)
    }
}

pub proof fn lemma_map_of_contains<V: Variable, O: Operator>(ps: Seq<(V, Word<V, O>)>)
    ensures
        forall|id: Seq<char>|
            map_of(ps).dom().contains(id) == exists|t: int|
                0 <= t < ps.len() && (#[trigger] ps[t]).0.id() == id,
    decreases ps.len(),
{
    if ps.len() > 0 {
        lemma_map_of_contains(ps.drop_last());
        assert forall|id: Seq<char>| #[trigger] map_of(ps).dom().contains(id) implies exists|
            t: int,
        | 0 <= t < ps.len() && (#[trigger] ps[t]).0.id() == id by {
            if id == ps.last().0.id() {
                assert(ps[ps.len() - 1].0.id() == id);
            } else {
                assert(map_of(ps.drop_last()).dom().contains(id));
                let t = choose|t: int|
                    0 <= t < ps.drop_last().len() && (#[trigger] ps.drop_last()[t]).0.id() == id;
                assert(ps[t].0.id() == id);
            }
        }
        assert forall|id: Seq<char>|
            (exists|t: int| 0 <= t < ps.len() && (#[trigger] ps[t]).0.id() == id) implies #[trigger] map_of(
            ps,
        ).dom().contains(id) by {
            let t = choose|t: int| 0 <= t < ps.len() && (#[trigger] ps[t]).0.id() == id;
            if t < ps.len() - 1 {
                assert(ps.drop_last()[t].0.id() == id);
                assert(map_of(ps.drop_last()).dom().contains(id));
            } else {
                assert(id == ps.last().0.id());
            }
        }
    }
}

pub proof fn lemma_map_of_get<V: Variable, O: Operator>(ps: Seq<(V, Word<V, O>)>, t: int)
    requires
        0 <= t < ps.len(),
        forall|t1: int, t2: int|
            0 <= t1 < t2 < ps.len() ==> (#[trigger] ps[t1]).0.id() != (#[trigger] ps[t2]).0.id(),
    ensures
        map_of(ps).dom().contains(ps[t].0.id()),
        map_of(ps)[ps[t].0.id()] == ps[t].1@,
    decreases ps.len(),
{
    if t == ps.len() - 1 {
        assert(ps.last() == ps[t]);
    } else {
        lemma_map_of_get(ps.drop_last(), t);
        assert(ps.drop_last()[t] == ps[t]);
        assert(ps[t].0.id() != ps.last().0.id());
    }
}

impl<V: Variable, O: Operator> Subst<V, O> {
    /// Each variable is bound at most once and every assigned word is
    /// complete.
    pub open spec fn wf(self) -> bool {
        &&& forall|t1: int, t2: int|
            0 <= t1 < t2 < self.pairs@.len() ==> (#[trigger] self.pairs@[t1]).0.id() != (
            #[trigger] self.pairs@[t2]).0.id()
        &&& forall|t: int| 0 <= t < self.pairs@.len() ==> complete((#[trigger] self.pairs@[t]).1@)
    }

    /// The substitution that maps nothing.
    pub fn new() -> (r: Subst<V, O>)
        ensures
            r@ == Map::<Seq<char>, Seq<SymModel>>::empty(),
            r.wf(),
            r.pairs@.len() == 0,
    {
        Subst { pairs: Vec::new() }
    }

    /// The word assigned to `v`, if any.
    #[verifier::loop_isolation(false)]
    pub fn get(&self, v: &V) -> (r: Option<&Word<V, O>>)
        requires
            self.wf(),
        ensures
            match r {
                Some(w) => self@.dom().contains(v.id()) && w@ == self@[v.id()],
                None => !self@.dom().contains(v.id()),
            },
    {
        proof {
            lemma_map_of_contains(self.pairs@);
        }
        let mut t: usize = 0;
        while t < self.pairs.len()
            invariant
                t <= self.pairs@.len(),
                forall|t2: int| 0 <= t2 < t ==> (#[trigger] self.pairs@[t2]).0.id() != v.id(),
            decreases self.pairs@.len() - t,
        {
            if self.pairs[t].0.eq_var(v) {
                proof {
                    lemma_map_of_get(self.pairs@, t as int);
                }
                return Some(&self.pairs[t].1);
            }
            t += 1;
        }
        None
    }

    /// Binds a fresh variable.
    pub fn insert(&mut self, v: V, w: Word<V, O>)
        requires
            old(self).wf(),
            !old(self)@.dom().contains(v.id()),
            complete(w@),
        ensures
            final(self).wf(),
            final(self)@ == old(self)@.insert(v.id(), w@),
            final(self).pairs@ == old(self).pairs@.push((v, w)),
    {
        proof {
            lemma_map_of_contains(self.pairs@);
        }
        let ghost before = self.pairs@;
        self.pairs.push((v, w));
        proof {
            assert(self.pairs@.drop_last() =~= before);
            assert forall|t1: int, t2: int|
                0 <= t1 < t2 < self.pairs@.len() implies (#[trigger] self.pairs@[t1]).0.id() != (
            #[trigger] self.pairs@[t2]).0.id() by {
                if t2 == self.pairs@.len() - 1 {
                    assert(self.pairs@[t1] == before[t1]);
                }
            }
        }
    }

}

/// Substitutions that agree on every variable of the word act on it alike.
pub proof fn lemma_apply_agree(
    s: Seq<SymModel>,
    m1: Map<Seq<char>, Seq<SymModel>>,
    m2: Map<Seq<char>, Seq<SymModel>>,
)
    requires
        forall|id: Seq<char>|
            #[trigger] count_var(s, id) > 0 ==> (m1.dom().contains(id) == m2.dom().contains(id)
                && (m1.dom().contains(id) ==> m1[id] == m2[id])),
    ensures
        apply_subst(s, m1) == apply_subst(s, m2),
    decreases s.len(),
{
    if s.len() > 0 {
        match s[0] {
            SymModel::Var { id } => {
                assert(count_var(s, id) > 0) by {
                    crate::model::lemma_count_occurs(s, id);
                    assert(s[0] == (SymModel::Var { id }));
                }
            },
            SymModel::Op { .. } => {},
        }
        assert forall|id: Seq<char>| #[trigger] count_var(s.skip(1), id) > 0 implies (
        m1.dom().contains(id) == m2.dom().contains(id) && (m1.dom().contains(id)
            ==> m1[id] == m2[id])) by {
            assert(s =~= seq![s[0]] + s.skip(1));
            crate::model::lemma_count_concat(seq![s[0]], s.skip(1), id);
            assert(count_var(s, id) > 0);
        }
        lemma_apply_agree(s.skip(1), m1, m2);
    }
}

/// A substitution that binds no variable of the word leaves it unchanged.
pub proof fn lemma_apply_id(s: Seq<SymModel>, m: Map<Seq<char>, Seq<SymModel>>)
    requires
        forall|id: Seq<char>| #[trigger] count_var(s, id) > 0 ==> !m.dom().contains(id),
    ensures
        apply_subst(s, m) == s,
    decreases s.len(),
{
    if s.len() == 0 {
        assert(apply_subst(s, m) =~= s);
    } else {
        match s[0] {
            SymModel::Var { id } => {
                assert(count_var(s, id) > 0) by {
                    crate::model::lemma_count_occurs(s, id);
                    assert(s[0] == (SymModel::Var { id }));
                }
                assert(sym_image(s[0], m) == seq![s[0]]);
            },
            SymModel::Op { .. } => {},
        }
        assert forall|id: Seq<char>| #[trigger] count_var(s.skip(1), id) > 0 implies !m.dom().contains(
            id,
        ) by {
            assert(s =~= seq![s[0]] + s.skip(1));
            crate::model::lemma_count_concat(seq![s[0]], s.skip(1), id);
            assert(count_var(s, id) > 0);
        }
        lemma_apply_id(s.skip(1), m);
        assert(apply_subst(s, m) =~= s);
    }
}

/// Every word assigned by a well-formed substitution is complete.
pub proof fn lemma_wf_values_complete<V: Variable, O: Operator>(s: &Subst<V, O>)
    requires
        s.wf(),
    ensures
        forall|id: Seq<char>| s@.dom().contains(id) ==> complete(#[trigger] s@[id]),
{
    lemma_map_of_contains(s.pairs@);
    assert forall|id: Seq<char>| s@.dom().contains(id) implies complete(#[trigger] s@[id]) by {
        let t = choose|t: int| 0 <= t < s.pairs@.len() && (#[trigger] s.pairs@[t]).0.id() == id;
        lemma_map_of_get(s.pairs@, t);
    }
}

impl<V: Variable, O: Operator> Word<V, O> {
    /// This word with the substitution applied: every bound variable is
    /// replaced by its assigned word, all other symbols stay.
    #[verifier::loop_isolation(false)]
    pub fn subst(&self, vars: &Subst<V, O>) -> (r: Word<V, O>)
        requires
            vars.wf(),
        ensures
            r@ == apply_subst(self@, vars@),
    {
        let mut out: Vec<Symbol<V, O>> = Vec::new();
        assert(self@.take(0) =~= Seq::<SymModel>::empty());
        assert(syms_model(out@) =~= apply_subst(self@.take(0), vars@));
        let mut i: usize = 0;
        while i < self.syms.len()
            invariant
                i <= self.syms@.len(),
                syms_model(out@) == apply_subst(self@.take(i as int), vars@),
            decreases self.syms@.len() - i,
        {
            proof {
                lemma_apply_take_step(self@, vars@, i as int);
                assert(self@[i as int] == self.syms@[i as int].model());
            }
            let ghost before = syms_model(out@);
            let ghost img = sym_image(self@[i as int], vars@);
            match &self.syms[i] {
                Symbol::Var(u) => {
                    match vars.get(u) {
                        Some(w) => {
                            let mut t: usize = 0;
                            while t < w.syms.len()
                                invariant
                                    t <= w.syms@.len(),
                                    syms_model(out@) == before + w@.take(t as int),
                                decreases w.syms@.len() - t,
                            {
                                let ghost sofar = syms_model(out@);
                                out.push(w.syms[t].clone_sym());
                                proof {
                                    assert(syms_model(out@) =~= sofar.push(
                                        w.syms@[t as int].model(),
                                    ));
                                    assert(before + w@.take(t + 1) =~= sofar.push(
                                        w@[t as int],
                                    ));
                                }
                                t += 1;
                            }
                            proof {
                                assert(w@.take(w@.len() as int) =~= w@);
                                assert(img == w@);
                            }
                        },
                        None => {
                            out.push(Symbol::Var(u.clone_var()));
                            proof {
                                assert(syms_model(out@) =~= before.push(self@[i as int]));
                                assert(img =~= seq![self@[i as int]]);
                                assert(before + img =~= before.push(self@[i as int]));
                            }
                        },
                    }
                },
                Symbol::Op(f) => {
                    out.push(Symbol::Op(f.clone_op()));
                    proof {
                        assert(syms_model(out@) =~= before.push(self@[i as int]));
                        assert(img =~= seq![self@[i as int]]);
                        assert(before + img =~= before.push(self@[i as int]));
                    }
                },
            }
            proof {
                assert(syms_model(out@) == before + img);
            }
            i += 1;
        }
        proof {
            assert(self@.take(self.syms@.len() as int) =~= self@);
        }
        Word { syms: out }
    }
}

} // verus!
