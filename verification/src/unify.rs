//! Unification: the most general variable assignment making two words
//! structurally identical, or nothing when none exists.
//!
//! A bare variable unifies with the whole other word, unless that word
//! properly contains it (the occurs check).  Two applications of the same
//! operator unify argument by argument, and a variable bound twice must be
//! bound to the same word both times.  The base case is not symmetric: an
//! operator against a bare variable fails, and callers wanting symmetry try
//! the two orders themselves.

use vstd::prelude::*;

use core::cmp::Ordering;
use crate::model::SymModel;
use crate::model::bal;
use crate::model::complete;
use crate::model::count_var;
use crate::model::lemma_complete_scan;
use crate::model::lemma_scan_decompose;
use crate::model::lemma_scan_props;
use crate::model::scan;
use crate::model::wend;
use crate::subst::Subst;
use crate::subst::apply_subst;
use crate::subst::lemma_map_of_contains;
use crate::subst::lemma_map_of_get;
use crate::subst::map_of;
use crate::word::Operator;
use crate::word::Symbol;
use crate::word::Variable;
use crate::word::Word;

verus! {

/// Two collected bindings agree everywhere or do not merge.
pub open spec fn merge_into(
    acc: Map<Seq<char>, Seq<SymModel>>,
    m: Map<Seq<char>, Seq<SymModel>>,
) -> Option<Map<Seq<char>, Seq<SymModel>>> {
    if exists|id: Seq<char>|
        #[trigger] acc.dom().contains(id) && m.dom().contains(id) && acc[id] != m[id] {
        None
    } else {
        Some(acc.union_prefer_right(m))
    }
}

/// The most general unifier of `a` with `b`, if the algorithm finds one.
pub open spec fn spec_unify(a: Seq<SymModel>, b: Seq<SymModel>) -> Option<
    Map<Seq<char>, Seq<SymModel>>,
>
    decreases a.len() + b.len(), 0int, 0int,
{
    if a.len() == 0 || b.len() == 0 {
        None
    } else {
        match a[0] {
            SymModel::Var { id } => if count_var(b, id) > 0 && b != seq![a[0]] {
                None
            } else {
                Some(Map::<Seq<char>, Seq<SymModel>>::empty().insert(id, b))
            },
            SymModel::Op { arity: ka, index: ia, .. } => match b[0] {
                SymModel::Var { .. } => None,
                SymModel::Op { index: ib, .. } => if ia != ib {
                    None
                } else {
                    unify_args(a, b, 1, 1, ka, Map::empty())
                },
            },
        }
    }
}

/// Unifies `k` argument pairs in order, merging each unifier into the
/// bindings collected so far.
pub open spec fn unify_args(
    a: Seq<SymModel>,
    b: Seq<SymModel>,
    i: int,
    j: int,
    k: nat,
    acc: Map<Seq<char>, Seq<SymModel>>,
) -> Option<Map<Seq<char>, Seq<SymModel>>>
    decreases a.len() - i + b.len() - j, 1int, k as int,
    when 0 <= i <= a.len() && 0 <= j <= b.len()
    via unify_args_dec
{
    if k == 0 {
        Some(acc)
    } else {
        let e = wend(a, i);
        let e2 = wend(b, j);
        if e < 0 || e2 < 0 {
            None
        } else {
            match spec_unify(a.subrange(i, e), b.subrange(j, e2)) {
                None => None,
                Some(m) => match merge_into(acc, m) {
                    None => None,
                    Some(acc2) => unify_args(a, b, e, e2, (k - 1) as nat, acc2),
                },
            }
        }
    }
}

#[via_fn]
proof fn unify_args_dec(
    a: Seq<SymModel>,
    b: Seq<SymModel>,
    i: int,
    j: int,
    k: nat,
    acc: Map<Seq<char>, Seq<SymModel>>,
) {
    if k > 0 {
        lemma_scan_props(a, i, 1);
        lemma_scan_props(b, j, 1);
    }
}

impl<V: Variable, O: Operator> Word<V, O> {
    /// The most general substitution making this word identical to the
    /// other, or nothing when the two cannot be unified.
    #[verifier::loop_isolation(false)]
    pub fn unify(&self, other: &Self) -> (r: Option<Subst<V, O>>)
        requires
            complete(self@),
            complete(other@),
        ensures
            match r {
                Some(s) => s.wf() && spec_unify(self@, other@) == Some(s@),
                None => spec_unify(self@, other@) is None,
            },
        decreases self@.len() + other@.len(),
    {
        proof {
            assert(self@.len() >= 1) by {
                assert(bal(self@, 0) == 1);
            }
            assert(other@.len() >= 1) by {
                assert(bal(other@, 0) == 1);
            }
            assert(self@[0] == self.syms@[0].model());
            assert(other@[0] == other.syms@[0].model());
        }
        match (&self.syms[0], &other.syms[0]) {
            (Symbol::Var(v), _) => {
                let occurs = other.n(v) > 0;
                let identical = other.syms.len() == 1 && (match &other.syms[0] {
                    Symbol::Var(u) => u.eq_var(v),
                    Symbol::Op(_) => false,
                });
                proof {
                    if identical {
                        assert(other@ =~= seq![self@[0]]);
                    } else {
                        assert(other@ != seq![self@[0]]) by {
                            if other@.len() == 1 {
                                assert(other@[0] != self@[0]);
                            }
                        }
                    }
                }
                if occurs && !identical {
                    None
                } else {
                    let mut s = Subst::<V, O>::new();
                    s.insert(v.clone_var(), other.clone_word());
                    Some(s)
                }
            },
            (Symbol::Op(_), Symbol::Var(_)) => None,
            (Symbol::Op(f), Symbol::Op(g)) => {
                if f.op_index() != g.op_index() {
                    return None;
                }
                proof {
                    O::index_determines(f, g);
                    lemma_complete_scan(self@);
                    lemma_complete_scan(other@);
                }
                let k = f.arity();
                let mut acc = Subst::<V, O>::new();
                let mut pa: usize = 1;
                let mut pb: usize = 1;
                let mut t: usize = 0;
                while t < k
                    invariant
                        t <= k,
                        1 <= pa <= self@.len(),
                        1 <= pb <= other@.len(),
                        scan(self@, pa as int, (k - t) as int) == self@.len(),
                        scan(other@, pb as int, (k - t) as int) == other@.len(),
                        acc.wf(),
                        spec_unify(self@, other@) == unify_args(
                            self@,
                            other@,
                            pa as int,
                            pb as int,
                            (k - t) as nat,
                            acc@,
                        ),
                    decreases k - t,
                {
                    proof {
                        lemma_scan_decompose(self@, pa as int, 1, (k - t - 1) as int);
                        lemma_scan_decompose(other@, pb as int, 1, (k - t - 1) as int);
                        if wend(self@, pa as int) == -1 {
                            assert(scan(self@, pa as int, (k - t) as int) == -1);
                        }
                        if wend(other@, pb as int) == -1 {
                            assert(scan(other@, pb as int, (k - t) as int) == -1);
                        }
                        lemma_scan_props(self@, pa as int, 1);
                        lemma_scan_props(other@, pb as int, 1);
                    }
                    let suba = self.subword_at(pa);
                    let subb = other.subword_at(pb);
                    match suba.unify(&subb) {
                        None => {
                            return None;
                        },
                        Some(sub) => {
                            let ghost acc0 = acc@;
                            let ghost subm = sub@;
                            let mut u: usize = 0;
                            proof {
                                assert(sub.pairs@.take(0) =~= Seq::<(V, Word<V, O>)>::empty());
                                assert(acc@ =~= acc0.union_prefer_right(
                                    map_of(sub.pairs@.take(0)),
                                ));
                                lemma_map_of_contains(sub.pairs@);
                            }
                            while u < sub.pairs.len()
                                invariant
                                    u <= sub.pairs@.len(),
                                    acc.wf(),
                                    acc@ == acc0.union_prefer_right(
                                        map_of(sub.pairs@.take(u as int)),
                                    ),
                                    forall|t2: int|
                                        0 <= t2 < u ==> (acc0.dom().contains(
                                            (#[trigger] sub.pairs@[t2]).0.id(),
                                        ) ==> acc0[sub.pairs@[t2].0.id()] == sub.pairs@[t2].1@),
                                decreases sub.pairs@.len() - u,
                            {
                                let ghost vid = sub.pairs@[u as int].0.id();
                                proof {
                                    lemma_map_of_take_step(sub.pairs@, u as int);
                                    lemma_map_of_contains(sub.pairs@.take(u as int));
                                    assert(!map_of(sub.pairs@.take(u as int)).dom().contains(vid))
                                        by {
                                        if map_of(sub.pairs@.take(u as int)).dom().contains(vid) {
                                            let t3 = choose|t3: int|
                                                0 <= t3 < u && (#[trigger] sub.pairs@.take(
                                                    u as int,
                                                )[t3]).0.id() == vid;
                                            assert(sub.pairs@[t3].0.id() == vid);
                                        }
                                    }
                                    lemma_map_of_get(sub.pairs@, u as int);
                                }
                                let wv = &sub.pairs[u].1;
                                let conflict = match acc.get(&sub.pairs[u].0) {
                                    Some(w2) => !w2.eq_word(wv),
                                    None => false,
                                };
                                if conflict {
                                    proof {
                                        assert(acc@.dom().contains(vid));
                                        assert(acc0.dom().contains(vid));
                                        assert(acc0[vid] == acc@[vid]);
                                        assert(subm.dom().contains(vid));
                                        assert(subm[vid] == sub.pairs@[u as int].1@);
                                        assert(acc0.dom().contains(vid) && subm.dom().contains(vid)
                                            && acc0[vid] != subm[vid]);
                                        assert(merge_into(acc0, subm) is None);
                                    }
                                    return None;
                                }
                                let present = match acc.get(&sub.pairs[u].0) {
                                    Some(_) => true,
                                    None => false,
                                };
                                if !present {
                                    acc.insert(sub.pairs[u].0.clone_var(), wv.clone_word());
                                }
                                proof {
                                    assert(acc@ =~= acc0.union_prefer_right(
                                        map_of(sub.pairs@.take(u + 1)),
                                    ));
                                }
                                u += 1;
                            }
                            proof {
                                assert(sub.pairs@.take(sub.pairs@.len() as int) =~= sub.pairs@);
                                assert(merge_into(acc0, subm) == Some(acc@)) by {
                                    assert forall|id: Seq<char>|
                                        !(#[trigger] acc0.dom().contains(id) && subm.dom().contains(
                                            id,
                                        ) && acc0[id] != subm[id]) by {
                                        if acc0.dom().contains(id) && subm.dom().contains(id) {
                                            let t2 = choose|t2: int|
                                                0 <= t2 < sub.pairs@.len() && (
                                                #[trigger] sub.pairs@[t2]).0.id() == id;
                                            lemma_map_of_get(sub.pairs@, t2);
                                            assert(acc0[id] == subm[id]);
                                        }
                                    }
                                }
                            }
                        },
                    }
                    let ea = crate::word::seq_end(&self.syms, pa);
                    let eb = crate::word::seq_end(&other.syms, pb);
                    pa = ea;
                    pb = eb;
                    t += 1;
                }
                Some(acc)
            },
        }
    }
}

/// What a successful unification builds: a substitution that binds exactly
/// the variables of `a` and turns `a` into `b`.
pub proof fn lemma_unify_instance(
    a: Seq<SymModel>,
    b: Seq<SymModel>,
    m: Map<Seq<char>, Seq<SymModel>>,
)
    requires
        complete(a),
        complete(b),
        crate::order::coherent2(a, b),
        spec_unify(a, b) == Some(m),
    ensures
        apply_subst(a, m) == b,
        forall|id: Seq<char>| #[trigger] m.dom().contains(id) == (count_var(a, id) > 0),
    decreases a.len() + b.len(), 0int,
{
    assert(a.len() >= 1) by {
        assert(bal(a, 0) == 1);
    }
    assert(b.len() >= 1) by {
        assert(bal(b, 0) == 1);
    }
    match a[0] {
        SymModel::Var { id } => {
            crate::model::lemma_var_word(a);
            assert(a =~= seq![a[0]]);
            crate::subst::lemma_apply_singleton(a[0], m);
            assert(m.dom().contains(id));
            assert(apply_subst(a, m) == m[id]);
            assert(count_var(a, id) == 1) by {
                assert(a.drop_last().len() == 0);
                assert(count_var(a.drop_last(), id) == 0);
                assert(a.last() == (SymModel::Var { id }));
            }
            assert forall|id2: Seq<char>| #[trigger]
                m.dom().contains(id2) == (count_var(a, id2) > 0) by {
                if id2 != id {
                    assert(count_var(a, id2) == 0) by {
                        assert(count_var(a.drop_last(), id2) == 0);
                        assert(a.last() != (SymModel::Var { id: id2 }));
                    }
                }
            }
        },
        SymModel::Op { arity: ka, index: ia, .. } => {
            match b[0] {
                SymModel::Var { .. } => {},
                SymModel::Op { arity: kb, index: ib, .. } => {
                    assert(ia == ib);
                    assert(crate::order::coherent_pair(a[0], b[0]));
                    assert(a[0] == b[0]);
                    crate::model::lemma_complete_scan(a);
                    crate::model::lemma_complete_scan(b);
                    lemma_unify_args_instance(a, b, 1, 1, ka, Map::empty(), m);
                    let ra = a.subrange(1, scan(a, 1, ka as int));
                    let rb = b.subrange(1, scan(b, 1, ka as int));
                    assert(ra =~= a.skip(1));
                    assert(rb =~= b.skip(1));
                    assert(apply_subst(a, m) == crate::subst::sym_image(a[0], m) + apply_subst(
                        a.skip(1),
                        m,
                    ));
                    assert(apply_subst(a, m) =~= b);
                    assert forall|id: Seq<char>| #[trigger]
                        m.dom().contains(id) == (count_var(a, id) > 0) by {
                        assert(a =~= seq![a[0]] + a.skip(1));
                        crate::model::lemma_count_concat(seq![a[0]], a.skip(1), id);
                        assert(count_var(seq![a[0]], id) == 0) by {
                            assert(seq![a[0]].drop_last().len() == 0);
                            assert(count_var(seq![a[0]].drop_last(), id) == 0);
                            assert(seq![a[0]].last() == a[0]);
                        }
                        assert(m.dom().contains(id) == (count_var(ra, id) > 0));
                    }
                },
            }
        },
    }
}

/// What unifying a run of argument pairs builds, relative to the bindings
/// already collected.
proof fn lemma_unify_args_instance(
    a: Seq<SymModel>,
    b: Seq<SymModel>,
    i: int,
    j: int,
    k: nat,
    acc: Map<Seq<char>, Seq<SymModel>>,
    m: Map<Seq<char>, Seq<SymModel>>,
)
    requires
        0 <= i <= a.len(),
        0 <= j <= b.len(),
        crate::order::coherent2(a, b),
        scan(a, i, k as int) != -1,
        scan(b, j, k as int) != -1,
        unify_args(a, b, i, j, k, acc) == Some(m),
    ensures
        forall|id: Seq<char>| #[trigger]
            m.dom().contains(id) == (acc.dom().contains(id) || count_var(
                a.subrange(i, scan(a, i, k as int)),
                id,
            ) > 0),
        forall|id: Seq<char>| #[trigger] acc.dom().contains(id) ==> m[id] == acc[id],
        apply_subst(a.subrange(i, scan(a, i, k as int)), m) == b.subrange(
            j,
            scan(b, j, k as int),
        ),
    decreases a.len() - i + b.len() - j, 1int, k as int,
{
    crate::model::lemma_scan_props(a, i, k as int);
    crate::model::lemma_scan_props(b, j, k as int);
    if k == 0 {
        assert(a.subrange(i, i).len() == 0);
        assert(apply_subst(a.subrange(i, i), m) =~= b.subrange(j, j));
        assert(m == acc);
    } else {
        crate::model::lemma_scan_decompose(a, i, 1, k - 1);
        crate::model::lemma_scan_decompose(b, j, 1, k - 1);
        let e = wend(a, i);
        let e2 = wend(b, j);
        if e == -1 {
            assert(scan(a, i, k as int) == -1);
        }
        if e2 == -1 {
            assert(scan(b, j, k as int) == -1);
        }
        crate::model::lemma_scan_sub_complete(a, i);
        crate::model::lemma_scan_sub_complete(b, j);
        crate::model::lemma_scan_props(a, e, k - 1);
        crate::model::lemma_scan_props(b, e2, k - 1);
        let sub_a = a.subrange(i, e);
        let sub_b = b.subrange(j, e2);
        let m1 = match spec_unify(sub_a, sub_b) {
            Some(m1) => m1,
            None => Map::empty(),
        };
        assert(spec_unify(sub_a, sub_b) == Some(m1));
        crate::order::lemma_coherent_sub(a, b, i, e, j, e2);
        lemma_unify_instance(sub_a, sub_b, m1);
        let acc2 = match merge_into(acc, m1) {
            Some(acc2) => acc2,
            None => Map::empty(),
        };
        assert(merge_into(acc, m1) == Some(acc2));
        assert(acc2 == acc.union_prefer_right(m1));
        assert forall|id: Seq<char>|
            #[trigger] acc.dom().contains(id) && m1.dom().contains(id) implies acc[id]
            == m1[id] by {
            if acc[id] != m1[id] {
                assert(acc.dom().contains(id) && m1.dom().contains(id) && acc[id] != m1[id]);
                assert(merge_into(acc, m1) is None);
            }
        }
        lemma_unify_args_instance(a, b, e, e2, (k - 1) as nat, acc2, m);
        let end_a = scan(a, i, k as int);
        let end_b = scan(b, j, k as int);
        let rest_a = a.subrange(e, end_a);
        let rest_b = b.subrange(e2, end_b);
        let ra = a.subrange(i, end_a);
        let rb = b.subrange(j, end_b);
        assert(ra =~= sub_a + rest_a);
        assert(rb =~= sub_b + rest_b);
        // the collected bindings cover exactly the variables seen so far
        assert forall|id: Seq<char>| #[trigger]
            m.dom().contains(id) == (acc.dom().contains(id) || count_var(ra, id) > 0) by {
            crate::model::lemma_count_concat(sub_a, rest_a, id);
            assert(count_var(ra, id) == count_var(sub_a, id) + count_var(rest_a, id));
            assert(m.dom().contains(id) == (acc2.dom().contains(id) || count_var(rest_a, id) > 0));
            assert(acc2.dom().contains(id) == (acc.dom().contains(id) || m1.dom().contains(id)));
            assert(m1.dom().contains(id) == (count_var(sub_a, id) > 0));
        }
        // earlier bindings survive unchanged
        assert forall|id: Seq<char>| #[trigger] acc.dom().contains(id) implies m[id]
            == acc[id] by {
            assert(acc2.dom().contains(id));
            assert(m[id] == acc2[id]);
            if m1.dom().contains(id) {
                assert(acc2[id] == m1[id]);
            }
        }
        // the first argument is rewritten by the final bindings just as by
        // its own unifier
        assert(apply_subst(sub_a, m) == apply_subst(sub_a, m1)) by {
            assert forall|id: Seq<char>| #[trigger] count_var(sub_a, id) > 0 implies (
            m.dom().contains(id) == m1.dom().contains(id) && (m.dom().contains(id)
                ==> m[id] == m1[id])) by {
                assert(m1.dom().contains(id));
                assert(acc2.dom().contains(id));
                assert(acc2[id] == m1[id]);
                assert(m.dom().contains(id));
                assert(m[id] == acc2[id]);
            }
            crate::subst::lemma_apply_agree(sub_a, m, m1);
        }
        crate::subst::lemma_apply_concat(sub_a, rest_a, m);
        assert(apply_subst(ra, m) == apply_subst(sub_a, m) + apply_subst(rest_a, m));
        assert(apply_subst(ra, m) =~= rb);
    }
}

/// Unification soundness: a unifier found for two words with no variables
/// in common turns each of them into the second word, so the two results
/// are ordering-Equal.  A shared variable can break this: the unifier of
/// one argument may capture a variable that another argument still uses.
pub proof fn lemma_unify_sound(
    a: Seq<SymModel>,
    b: Seq<SymModel>,
    m: Map<Seq<char>, Seq<SymModel>>,
    minw: nat,
)
    requires
        complete(a),
        complete(b),
        crate::order::coherent2(a, b),
        forall|id: Seq<char>| !(#[trigger] count_var(a, id) > 0 && count_var(b, id) > 0),
        spec_unify(a, b) == Some(m),
    ensures
        apply_subst(a, m) == b,
        apply_subst(b, m) == b,
        crate::order::cmp_words(apply_subst(a, m), apply_subst(b, m), minw) == Some(
            Ordering::Equal,
        ),
{
    lemma_unify_instance(a, b, m);
    assert forall|id: Seq<char>| #[trigger] count_var(b, id) > 0 implies !m.dom().contains(
        id,
    ) by {
        assert(!(count_var(a, id) > 0));
    }
    crate::subst::lemma_apply_id(b, m);
    crate::order::lemma_cmp_refl(b, minw);
}

/// One more pair binds its variable, overriding nothing when keys are
/// distinct.
pub proof fn lemma_map_of_take_step<V: Variable, O: Operator>(ps: Seq<(V, Word<V, O>)>, u: int)
    requires
        0 <= u < ps.len(),
    ensures
        map_of(ps.take(u + 1)) == map_of(ps.take(u)).insert(ps[u].0.id(), ps[u].1@),
{
    assert(ps.take(u + 1).drop_last() =~= ps.take(u));
    assert(ps.take(u + 1).last() == ps[u]);
}

} // verus!
