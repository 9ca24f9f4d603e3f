//! Superposition: finding the critical term of two words.
//!
//! Two words overlap when one unifies with the other, or with one of the
//! other's proper subterms.  The critical term is the overlapping word with
//! the unifier applied: a term that both rules rewrite, in two ways that
//! must be checked for confluence.

use vstd::prelude::*;

use crate::model::SymModel;
use crate::model::bal;
use crate::model::complete;
use crate::model::sub_at;
use crate::subst::apply_subst;
use crate::subst::lemma_apply_complete;
use crate::subst::lemma_wf_values_complete;
use crate::unify::spec_unify;
use crate::word::Operator;
use crate::word::Symbol;
use crate::word::Variable;
use crate::word::Word;

verus! {

/// The overlap of `u` with the proper subterm of `t` at position `i`, if
/// they unify one way or the other: the whole of `t` with the unifier
/// applied.
pub open spec fn overlap_at(t: Seq<SymModel>, u: Seq<SymModel>, i: int) -> Option<Seq<SymModel>> {
    if t[i] is Var {
        None
    } else {
        match spec_unify(sub_at(t, i), u) {
            Some(m) => Some(apply_subst(t, m)),
            None => match spec_unify(u, sub_at(t, i)) {
                Some(m) => Some(apply_subst(t, m)),
                None => None,
            },
        }
    }
}

/// The first overlap of `u` with a proper subterm of `t`, scanning the
/// positions from `i` on.
pub open spec fn first_overlap(t: Seq<SymModel>, u: Seq<SymModel>, i: int) -> Option<
    Seq<SymModel>,
>
    decreases t.len() - i,
{
    if i < 1 || i >= t.len() {
        None
    } else {
        match overlap_at(t, u, i) {
            Some(c) => Some(c),
            None => first_overlap(t, u, i + 1),
        }
    }
}

/// The critical term of `t` and `u`: nothing when either is a bare
/// variable; else the whole-word overlap, tried in both orders; else the
/// first overlap of `u` inside `t`; else the first overlap of `t` inside
/// `u`.
pub open spec fn spec_critical(t: Seq<SymModel>, u: Seq<SymModel>) -> Option<Seq<SymModel>> {
    if t.len() == 0 || u.len() == 0 {
        None
    } else if t[0] is Var || u[0] is Var {
        None
    } else {
        match spec_unify(t, u) {
            Some(m) => Some(apply_subst(t, m)),
            None => match spec_unify(u, t) {
                Some(m) => Some(apply_subst(u, m)),
                None => match first_overlap(t, u, 1) {
                    Some(c) => Some(c),
                    None => first_overlap(u, t, 1),
                },
            },
        }
    }
}

/// A word is reducible by a rule whose left side is `l` when some slice of
/// it is an instance of `l`.
pub open spec fn reducible_by(c: Seq<SymModel>, l: Seq<SymModel>) -> bool {
    exists|p: int, m: Map<Seq<char>, Seq<SymModel>>|
        0 <= p && p + apply_subst(l, m).len() <= c.len() && #[trigger] c.subrange(
            p,
            p + apply_subst(l, m).len() as int,
        ) == apply_subst(l, m)
}

/// Critical term validity: a critical term of two complete words over one
/// operator family with no variables in common is reducible by a rule built
/// from either word.  A shared variable can break this: a unifier found
/// inside one word may capture a variable of the other.
pub proof fn lemma_critical_valid(t: Seq<SymModel>, u: Seq<SymModel>, c: Seq<SymModel>)
    requires
        complete(t),
        complete(u),
        crate::order::coherent2(t, u),
        crate::order::coherent2(u, t),
        forall|id: Seq<char>|
            !(#[trigger] crate::model::count_var(t, id) > 0 && crate::model::count_var(u, id) > 0),
        spec_critical(t, u) == Some(c),
    ensures
        reducible_by(c, t),
        reducible_by(c, u),
{
    assert(t.len() >= 1) by {
        assert(bal(t, 0) == 1);
    }
    assert(u.len() >= 1) by {
        assert(bal(u, 0) == 1);
    }
    if spec_unify(t, u) is Some {
        let m = spec_critical_unifier(t, u);
        assert(spec_unify(t, u) == Some(m));
        crate::unify::lemma_unify_instance(t, u, m);
        lemma_instance_at_root(c, t, m);
        lemma_trivial_instance(c, u);
    } else if spec_unify(u, t) is Some {
        let m = spec_critical_unifier(u, t);
        assert(spec_unify(u, t) == Some(m));
        crate::unify::lemma_unify_instance(u, t, m);
        lemma_instance_at_root(c, u, m);
        lemma_trivial_instance(c, t);
    } else if first_overlap(t, u, 1) is Some {
        lemma_first_overlap_valid(t, u, 1, c);
    } else {
        assert(first_overlap(u, t, 1) == Some(c));
        lemma_first_overlap_valid(u, t, 1, c);
    }
}

/// The unifier a successful whole-word unification found.
pub open spec fn spec_critical_unifier(a: Seq<SymModel>, b: Seq<SymModel>) -> Map<
    Seq<char>,
    Seq<SymModel>,
> {
    match spec_unify(a, b) {
        Some(m) => m,
        None => Map::empty(),
    }
}

/// A word that is itself an instance of `l` is reducible by `l`.
proof fn lemma_instance_at_root(c: Seq<SymModel>, l: Seq<SymModel>, m: Map<Seq<char>, Seq<SymModel>>)
    requires
        c == apply_subst(l, m),
    ensures
        reducible_by(c, l),
{
    assert(c.subrange(0, 0 + apply_subst(l, m).len() as int) =~= apply_subst(l, m));
    assert(0 <= 0 && 0 + apply_subst(l, m).len() <= c.len() && c.subrange(
        0,
        0 + apply_subst(l, m).len() as int,
    ) == apply_subst(l, m));
}

/// A word equal to `l` is reducible by `l`, through the empty substitution.
proof fn lemma_trivial_instance(c: Seq<SymModel>, l: Seq<SymModel>)
    requires
        c == l,
    ensures
        reducible_by(c, l),
{
    let m = Map::<Seq<char>, Seq<SymModel>>::empty();
    crate::subst::lemma_apply_id(l, m);
    assert(c.subrange(0, 0 + apply_subst(l, m).len() as int) =~= apply_subst(l, m));
    assert(0 <= 0 && 0 + apply_subst(l, m).len() <= c.len() && c.subrange(
        0,
        0 + apply_subst(l, m).len() as int,
    ) == apply_subst(l, m));
}

/// Validity of an overlap found at or after position `i` of `t`.
proof fn lemma_first_overlap_valid(t: Seq<SymModel>, u: Seq<SymModel>, i: int, c: Seq<SymModel>)
    requires
        complete(t),
        complete(u),
        crate::order::coherent2(t, u),
        crate::order::coherent2(u, t),
        forall|id: Seq<char>|
            !(#[trigger] crate::model::count_var(t, id) > 0 && crate::model::count_var(u, id) > 0),
        1 <= i,
        first_overlap(t, u, i) == Some(c),
    ensures
        reducible_by(c, t),
        reducible_by(c, u),
    decreases t.len() - i,
{
    assert(i < t.len());
    if overlap_at(t, u, i) is Some {
        assert(overlap_at(t, u, i) == Some(c));
        crate::model::lemma_subtree(t, i);
        let e = crate::model::wend(t, i);
        let s = sub_at(t, i);
        let pre = t.subrange(0, i);
        let post = t.subrange(e, t.len() as int);
        assert(t =~= pre + s + post);
        assert forall|id: Seq<char>| #[trigger]
            crate::model::count_var(s, id) > 0 implies crate::model::count_var(t, id) > 0 by {
            crate::model::lemma_count_subrange(t, i, e, id);
        }
        if spec_unify(s, u) is Some {
            let m = spec_critical_unifier(s, u);
            assert(spec_unify(s, u) == Some(m));
            crate::order::lemma_coherent_sub(t, u, i, e, 0, u.len() as int);
            assert(u.subrange(0, u.len() as int) =~= u);
            crate::unify::lemma_unify_instance(s, u, m);
            assert(c == apply_subst(t, m));
            lemma_instance_at_root(c, t, m);
            // the image of the subterm is `u`, standing inside the image of
            // the whole word
            crate::subst::lemma_apply_concat(pre + s, post, m);
            crate::subst::lemma_apply_concat(pre, s, m);
            let ca = apply_subst(pre, m);
            let cu = apply_subst(s, m);
            let cb = apply_subst(post, m);
            assert(apply_subst(pre + s, m) == ca + cu);
            assert(apply_subst(t, m) == apply_subst(pre + s + post, m));
            assert(pre + s + post == (pre + s) + post);
            assert(c =~= ca + cu + cb);
            assert(cu == u);
            let p = ca.len() as int;
            crate::subst::lemma_apply_id(u, Map::<Seq<char>, Seq<SymModel>>::empty());
            let m0 = Map::<Seq<char>, Seq<SymModel>>::empty();
            assert(apply_subst(u, m0) == u);
            assert(c.subrange(p, p + apply_subst(u, m0).len() as int) =~= apply_subst(u, m0));
            assert(0 <= p && p + apply_subst(u, m0).len() <= c.len() && c.subrange(
                p,
                p + apply_subst(u, m0).len() as int,
            ) == apply_subst(u, m0));
            assert(reducible_by(c, u));
        } else {
            let m = spec_critical_unifier(u, s);
            assert(spec_unify(u, s) == Some(m));
            crate::order::lemma_coherent_sub(u, t, 0, u.len() as int, i, e);
            assert(u.subrange(0, u.len() as int) =~= u);
            crate::unify::lemma_unify_instance(u, s, m);
            // nothing of `t` is bound, so the image of `t` is `t` itself
            assert forall|id: Seq<char>| #[trigger]
                crate::model::count_var(t, id) > 0 implies !m.dom().contains(id) by {
                assert(!(crate::model::count_var(u, id) > 0));
            }
            crate::subst::lemma_apply_id(t, m);
            assert(c == apply_subst(t, m));
            assert(c == t);
            lemma_trivial_instance(c, t);
            // the subterm at `i` is an instance of `u`
            assert(apply_subst(u, m) == s);
            assert(c.subrange(i, i + apply_subst(u, m).len() as int) =~= apply_subst(u, m));
            assert(0 <= i && i + apply_subst(u, m).len() <= c.len() && c.subrange(
                i,
                i + apply_subst(u, m).len() as int,
            ) == apply_subst(u, m));
            assert(reducible_by(c, u));
        }
    } else {
        lemma_first_overlap_valid(t, u, i + 1, c);
    }
}

/// Finds the critical term of `t` and `u` if one exists.
#[verifier::loop_isolation(false)]
pub fn critical_term<V: Variable, O: Operator>(t: &Word<V, O>, u: &Word<V, O>) -> (r: Option<
    Word<V, O>,
>)
    requires
        complete(t@),
        complete(u@),
    ensures
        match r {
            Some(c) => spec_critical(t@, u@) == Some(c@) && complete(c@),
            None => spec_critical(t@, u@) is None,
        },
{
    proof {
        assert(t@.len() >= 1) by {
            assert(bal(t@, 0) == 1);
        }
        assert(u@.len() >= 1) by {
            assert(bal(u@, 0) == 1);
        }
        assert(t@[0] == t.syms@[0].model());
        assert(u@[0] == u.syms@[0].model());
    }
    let t_var = match &t.syms[0] {
        Symbol::Var(_) => true,
        Symbol::Op(_) => false,
    };
    let u_var = match &u.syms[0] {
        Symbol::Var(_) => true,
        Symbol::Op(_) => false,
    };
    if t_var || u_var {
        return None;
    }
    if let Some(m) = t.unify(u) {
        let c = t.subst(&m);
        proof {
            lemma_wf_values_complete(&m);
            lemma_apply_complete(t@, m@);
        }
        return Some(c);
    }
    if let Some(m) = u.unify(t) {
        let c = u.subst(&m);
        proof {
            lemma_wf_values_complete(&m);
            lemma_apply_complete(u@, m@);
        }
        return Some(c);
    }
    let mut i: usize = 1;
    while i < t.syms.len()
        invariant
            1 <= i <= t@.len(),
            first_overlap(t@, u@, 1) == first_overlap(t@, u@, i as int),
        decreases t@.len() - i,
    {
        proof {
            assert(t@[i as int] == t.syms@[i as int].model());
        }
        let is_op = match &t.syms[i] {
            Symbol::Var(_) => false,
            Symbol::Op(_) => true,
        };
        if is_op {
            let sub = t.subword_at(i);
            if let Some(m) = sub.unify(u) {
                let c = t.subst(&m);
                proof {
                    lemma_wf_values_complete(&m);
                    lemma_apply_complete(t@, m@);
                    assert(overlap_at(t@, u@, i as int) == Some(c@));
                }
                return Some(c);
            }
            if let Some(m) = u.unify(&sub) {
                let c = t.subst(&m);
                proof {
                    lemma_wf_values_complete(&m);
                    lemma_apply_complete(t@, m@);
                    assert(overlap_at(t@, u@, i as int) == Some(c@));
                }
                return Some(c);
            }
            proof {
                assert(overlap_at(t@, u@, i as int) is None);
            }
        }
        i += 1;
    }
    let mut j: usize = 1;
    while j < u.syms.len()
        invariant
            1 <= j <= u@.len(),
            first_overlap(t@, u@, 1) is None,
            first_overlap(u@, t@, 1) == first_overlap(u@, t@, j as int),
        decreases u@.len() - j,
    {
        proof {
            assert(u@[j as int] == u.syms@[j as int].model());
        }
        let is_op = match &u.syms[j] {
            Symbol::Var(_) => false,
            Symbol::Op(_) => true,
        };
        if is_op {
            let sub = u.subword_at(j);
            if let Some(m) = sub.unify(t) {
                let c = u.subst(&m);
                proof {
                    lemma_wf_values_complete(&m);
                    lemma_apply_complete(u@, m@);
                    assert(overlap_at(u@, t@, j as int) == Some(c@));
                }
                return Some(c);
            }
            if let Some(m) = t.unify(&sub) {
                let c = u.subst(&m);
                proof {
                    lemma_wf_values_complete(&m);
                    lemma_apply_complete(u@, m@);
                    assert(overlap_at(u@, t@, j as int) == Some(c@));
                }
                return Some(c);
            }
            proof {
                assert(overlap_at(u@, t@, j as int) is None);
            }
        }
        j += 1;
    }
    None
}

} // verus!
