//! Knuth–Bendix completion: turning a set of equational axioms into a set of
//! oriented rewrite rules.
//!
//! Each pending axiom is normalized with the current rules, discarded when
//! trivial, and otherwise oriented by the reduction ordering into a rule.
//! An axiom whose sides stand in no relation stops the whole procedure: that
//! is a genuine failure of the ordering, reported as such.  New rules
//! simplify the old ones and are superposed against them, and every critical
//! term found feeds a fresh axiom back into the queue.  Completion need not
//! terminate in general, so an iteration bound turns divergence into an
//! explicit outcome.
//!
//! The whole procedure is deterministic, and its contract says exactly what
//! it computes: the spec-level machine `kb_spec`, built from the spec-level
//! matcher, rewriter and superposition below.  What the contract does not
//! claim is the classical confluence theorem about the converged rule set;
//! it guarantees the run itself: every axiom processed, every derived
//! critical pair queued and consumed, every kept rule strictly oriented.

use vstd::prelude::*;

use core::cmp::Ordering;
use crate::critical::critical_term;
use crate::model::SymModel;
use crate::model::complete;
use crate::model::lemma_splice_complete;
use crate::model::lemma_subtree;
use crate::model::scan;
use crate::order::cmp_words;
use crate::subst::Subst;
use crate::subst::apply_subst;
use crate::subst::lemma_apply_complete;
use crate::subst::lemma_wf_values_complete;
use crate::word::Operator;
use crate::word::Symbol;
use crate::word::Variable;
use crate::word::Word;
use crate::word::seq_end;
use crate::word::syms_model;

verus! {

/// Both sides of every pair are complete words.
pub open spec fn pairs_complete<V: Variable, O: Operator>(
    ps: Seq<(Word<V, O>, Word<V, O>)>,
) -> bool {
    forall|t: int|
        0 <= t < ps.len() ==> complete((#[trigger] ps[t]).0@) && complete(ps[t].1@)
}

/// Every rule is oriented: its left side is strictly greater than its right
/// side under the reduction ordering.
pub open spec fn rules_oriented<V: Variable, O: Operator>(
    rs: Seq<(Word<V, O>, Word<V, O>)>,
) -> bool {
    forall|t: int|
        0 <= t < rs.len() ==> complete((#[trigger] rs[t]).0@) && complete(rs[t].1@) && cmp_words(
            rs[t].0@,
            rs[t].1@,
            O::min_weight_spec(),
        ) == Some(Ordering::Greater)
}

/// The outcome of completion: a rule set, every rule strictly oriented,
/// reached with the axiom queue exhausted; an axiom whose sides the
/// ordering cannot relate; or the iteration bound ran out with axioms still
/// pending.
pub enum KbResult<V, O> {
    Converged(Vec<(Word<V, O>, Word<V, O>)>),
    Stuck((Word<V, O>, Word<V, O>)),
    GaveUp,
}

/// The most general one-way match of `pat` against `target`: a bare
/// variable takes the whole facing word, and applications of the same
/// operator are matched argument by argument, a variable bound twice having
/// to be bound to the same word both times.  Unlike unification there is no
/// occurs check: the pattern's variables and the target's are different
/// namespaces, so a binding may mention the variable's own name.
pub open spec fn spec_match(pat: Seq<SymModel>, target: Seq<SymModel>) -> Option<
    Map<Seq<char>, Seq<SymModel>>,
>
    decreases pat.len() + target.len(), 0int, 0int,
{
    if pat.len() == 0 || target.len() == 0 {
        None
    } else {
        match pat[0] {
            SymModel::Var { id } => Some(
                Map::<Seq<char>, Seq<SymModel>>::empty().insert(id, target),
            ),
            SymModel::Op { arity: ka, index: ia, .. } => match target[0] {
                SymModel::Var { .. } => None,
                SymModel::Op { index: ib, .. } => if ia != ib {
                    None
                } else {
                    match_args(pat, target, 1, 1, ka, Map::empty())
                },
            },
        }
    }
}

/// Matches `k` argument pairs in order, merging each binding set into the
/// bindings collected so far.
pub open spec fn match_args(
    pat: Seq<SymModel>,
    target: Seq<SymModel>,
    i: int,
    j: int,
    k: nat,
    acc: Map<Seq<char>, Seq<SymModel>>,
) -> Option<Map<Seq<char>, Seq<SymModel>>>
    decreases pat.len() - i + target.len() - j, 1int, k as int,
    when 0 <= i <= pat.len() && 0 <= j <= target.len()
    via match_args_dec
{
    if k == 0 {
        Some(acc)
    } else {
        let e = crate::model::wend(pat, i);
        let e2 = crate::model::wend(target, j);
        if e < 0 || e2 < 0 {
            None
        } else {
            match spec_match(pat.subrange(i, e), target.subrange(j, e2)) {
                None => None,
                Some(m) => match crate::unify::merge_into(acc, m) {
                    None => None,
                    Some(acc2) => match_args(pat, target, e, e2, (k - 1) as nat, acc2),
                },
            }
        }
    }
}

#[via_fn]
proof fn match_args_dec(
    pat: Seq<SymModel>,
    target: Seq<SymModel>,
    i: int,
    j: int,
    k: nat,
    acc: Map<Seq<char>, Seq<SymModel>>,
) {
    if k > 0 {
        crate::model::lemma_scan_props(pat, i, 1);
        crate::model::lemma_scan_props(target, j, 1);
    }
}

/// The matcher itself.  The caller checks the found instance against the
/// target before rewriting with it.
#[verifier::loop_isolation(false)]
fn match_pattern<V: Variable, O: Operator>(pat: &Word<V, O>, target: &Word<V, O>) -> (r: Option<
    Subst<V, O>,
>)
    requires
        complete(pat@),
        complete(target@),
    ensures
        match r {
            Some(s) => s.wf() && spec_match(pat@, target@) == Some(s@),
            None => spec_match(pat@, target@) is None,
        },
    decreases pat@.len() + target@.len(),
{
    proof {
        assert(pat@.len() >= 1) by {
            assert(crate::model::bal(pat@, 0) == 1);
        }
        assert(target@.len() >= 1) by {
            assert(crate::model::bal(target@, 0) == 1);
        }
        assert(pat@[0] == pat.syms@[0].model());
        assert(target@[0] == target.syms@[0].model());
    }
    match (&pat.syms[0], &target.syms[0]) {
        (Symbol::Var(v), _) => {
            let mut s = Subst::<V, O>::new();
            s.insert(v.clone_var(), target.clone_word());
            Some(s)
        },
        (Symbol::Op(_), Symbol::Var(_)) => None,
        (Symbol::Op(f), Symbol::Op(g)) => {
            if f.op_index() != g.op_index() {
                return None;
            }
            proof {
                O::index_determines(f, g);
                crate::model::lemma_complete_scan(pat@);
                crate::model::lemma_complete_scan(target@);
            }
            let k = f.arity();
            let mut acc = Subst::<V, O>::new();
            let mut pa: usize = 1;
            let mut pb: usize = 1;
            let mut t: usize = 0;
            while t < k
                invariant
                    t <= k,
                    1 <= pa <= pat@.len(),
                    1 <= pb <= target@.len(),
                    scan(pat@, pa as int, (k - t) as int) == pat@.len(),
                    scan(target@, pb as int, (k - t) as int) == target@.len(),
                    acc.wf(),
                    spec_match(pat@, target@) == match_args(
                        pat@,
                        target@,
                        pa as int,
                        pb as int,
                        (k - t) as nat,
                        acc@,
                    ),
                decreases k - t,
            {
                proof {
                    crate::model::lemma_scan_decompose(pat@, pa as int, 1, (k - t - 1) as int);
                    crate::model::lemma_scan_decompose(target@, pb as int, 1, (k - t - 1) as int);
                    if crate::model::wend(pat@, pa as int) == -1 {
                        assert(scan(pat@, pa as int, (k - t) as int) == -1);
                    }
                    if crate::model::wend(target@, pb as int) == -1 {
                        assert(scan(target@, pb as int, (k - t) as int) == -1);
                    }
                    crate::model::lemma_scan_props(pat@, pa as int, 1);
                    crate::model::lemma_scan_props(target@, pb as int, 1);
                }
                let suba = pat.subword_at(pa);
                let subb = target.subword_at(pb);
                match match_pattern(&suba, &subb) {
                    None => {
                        return None;
                    },
                    Some(sub) => {
                        let ghost acc0 = acc@;
                        let ghost subm = sub@;
                        let mut u: usize = 0;
                        proof {
                            assert(sub.pairs@.take(0) =~= Seq::<(V, Word<V, O>)>::empty());
                            assert(acc@ =~= acc0.union_prefer_right(
                                crate::subst::map_of(sub.pairs@.take(0)),
                            ));
                            crate::subst::lemma_map_of_contains(sub.pairs@);
                        }
                        while u < sub.pairs.len()
                            invariant
                                u <= sub.pairs@.len(),
                                sub.wf(),
                                acc.wf(),
                                acc@ == acc0.union_prefer_right(
                                    crate::subst::map_of(sub.pairs@.take(u as int)),
                                ),
                                forall|t2: int|
                                    0 <= t2 < u ==> (acc0.dom().contains(
                                        (#[trigger] sub.pairs@[t2]).0.id(),
                                    ) ==> acc0[sub.pairs@[t2].0.id()] == sub.pairs@[t2].1@),
                            decreases sub.pairs@.len() - u,
                        {
                            let ghost vid = sub.pairs@[u as int].0.id();
                            proof {
                                crate::unify::lemma_map_of_take_step(sub.pairs@, u as int);
                                crate::subst::lemma_map_of_contains(sub.pairs@.take(u as int));
                                assert(!crate::subst::map_of(
                                    sub.pairs@.take(u as int),
                                ).dom().contains(vid)) by {
                                    if crate::subst::map_of(sub.pairs@.take(u as int)).dom().contains(
                                        vid,
                                    ) {
                                        let t3 = choose|t3: int|
                                            0 <= t3 < u && (#[trigger] sub.pairs@.take(
                                                u as int,
                                            )[t3]).0.id() == vid;
                                        assert(sub.pairs@[t3].0.id() == vid);
                                    }
                                }
                                crate::subst::lemma_map_of_get(sub.pairs@, u as int);
                            }
                            let wv = &sub.pairs[u].1;
                            let conflict = match acc.get(&sub.pairs[u].0) {
                                Some(w2) => !w2.eq_word(wv),
                                None => false,
                            };
                            if conflict {
                                proof {
                                    assert(acc@.dom().contains(vid));
                                    assert(acc0.dom().contains(vid));
                                    assert(acc0[vid] == acc@[vid]);
                                    assert(subm.dom().contains(vid));
                                    assert(subm[vid] == sub.pairs@[u as int].1@);
                                    assert(acc0.dom().contains(vid) && subm.dom().contains(vid)
                                        && acc0[vid] != subm[vid]);
                                    assert(crate::unify::merge_into(acc0, subm) is None);
                                }
                                return None;
                            }
                            let present = match acc.get(&sub.pairs[u].0) {
                                Some(_) => true,
                                None => false,
                            };
                            if !present {
                                acc.insert(sub.pairs[u].0.clone_var(), wv.clone_word());
                            }
                            proof {
                                assert(acc@ =~= acc0.union_prefer_right(
                                    crate::subst::map_of(sub.pairs@.take(u + 1)),
                                ));
                            }
                            u += 1;
                        }
                        proof {
                            assert(sub.pairs@.take(sub.pairs@.len() as int) =~= sub.pairs@);
                            assert(crate::unify::merge_into(acc0, subm) == Some(acc@)) by {
                                assert forall|id: Seq<char>|
                                    !(#[trigger] acc0.dom().contains(id) && subm.dom().contains(
                                        id,
                                    ) && acc0[id] != subm[id]) by {
                                    if acc0.dom().contains(id) && subm.dom().contains(id) {
                                        let t2 = choose|t2: int|
                                            0 <= t2 < sub.pairs@.len() && (
                                            #[trigger] sub.pairs@[t2]).0.id() == id;
                                        crate::subst::lemma_map_of_get(sub.pairs@, t2);
                                        assert(acc0[id] == subm[id]);
                                    }
                                }
                            }
                        }
                    },
                }
                let ea = seq_end(&pat.syms, pa);
                let eb = seq_end(&target.syms, pb);
                pa = ea;
                pb = eb;
                t += 1;
            }
            Some(acc)
        },
    }
}

/// One rewrite step with the rule `l -> r`: some slice of `x` is an
/// instance of `l`, and `y` is `x` with that slice replaced by the matching
/// instance of `r`.
pub open spec fn step_with(
    l: Seq<crate::model::SymModel>,
    r: Seq<crate::model::SymModel>,
    x: Seq<crate::model::SymModel>,
    y: Seq<crate::model::SymModel>,
) -> bool {
    exists|p: int, m: Map<Seq<char>, Seq<crate::model::SymModel>>|
        0 <= p && p + apply_subst(l, m).len() <= x.len() && #[trigger] x.subrange(
            p,
            p + apply_subst(l, m).len() as int,
        ) == apply_subst(l, m) && y == x.subrange(0, p) + apply_subst(r, m) + x.subrange(
            p + apply_subst(l, m).len() as int,
            x.len() as int,
        )
}

/// One rewrite step with any of the rules.
pub open spec fn step_any<V: Variable, O: Operator>(
    rules: Seq<(Word<V, O>, Word<V, O>)>,
    x: Seq<crate::model::SymModel>,
    y: Seq<crate::model::SymModel>,
) -> bool {
    exists|t: int|
        0 <= t < rules.len() && step_with((#[trigger] rules[t]).0@, rules[t].1@, x, y)
}

/// `y` is reached from `x` by exactly `n` rewrite steps with the rules.
pub open spec fn reduces<V: Variable, O: Operator>(
    rules: Seq<(Word<V, O>, Word<V, O>)>,
    x: Seq<crate::model::SymModel>,
    y: Seq<crate::model::SymModel>,
    n: nat,
) -> bool
    decreases n,
{
    if n == 0 {
        x == y
    } else {
        exists|z: Seq<crate::model::SymModel>|
            #[trigger] step_any(rules, x, z) && reduces(rules, z, y, (n - 1) as nat)
    }
}

/// A chain of rewrite steps grows by one more step at its end.
proof fn lemma_reduces_snoc<V: Variable, O: Operator>(
    rules: Seq<(Word<V, O>, Word<V, O>)>,
    x: Seq<crate::model::SymModel>,
    y: Seq<crate::model::SymModel>,
    z: Seq<crate::model::SymModel>,
    n: nat,
)
    requires
        reduces(rules, x, y, n),
        step_any(rules, y, z),
    ensures
        reduces(rules, x, z, n + 1),
    decreases n,
{
    if n == 0 {
        assert(step_any(rules, x, z) && reduces(rules, z, z, 0nat));
    } else {
        let z1 = choose|z1: Seq<crate::model::SymModel>|
            #[trigger] step_any(rules, x, z1) && reduces(rules, z1, y, (n - 1) as nat);
        lemma_reduces_snoc(rules, z1, y, z, (n - 1) as nat);
        assert(step_any(rules, x, z1) && reduces(rules, z1, z, n));
    }
}

/// What rewriting at position `i` of `w` with the rule `l -> r` yields: the
/// match of `l` against the subterm there must reproduce that subterm
/// exactly, and the subterm is then replaced by the matching instance of
/// `r`.
pub open spec fn rw_at(
    w: Seq<SymModel>,
    l: Seq<SymModel>,
    r: Seq<SymModel>,
    i: int,
) -> Option<Seq<SymModel>> {
    match spec_match(l, crate::model::sub_at(w, i)) {
        Some(m) => if apply_subst(l, m) == crate::model::sub_at(w, i) {
            Some(
                w.subrange(0, i) + apply_subst(r, m) + w.subrange(
                    crate::model::wend(w, i),
                    w.len() as int,
                ),
            )
        } else {
            None
        },
        None => None,
    }
}

/// The first position of `w`, from `i` on, where the rule `l -> r`
/// rewrites, and the word it yields there.
pub open spec fn first_rw(
    w: Seq<SymModel>,
    l: Seq<SymModel>,
    r: Seq<SymModel>,
    i: int,
) -> Option<Seq<SymModel>>
    decreases w.len() - i,
{
    if i < 0 || i >= w.len() {
        None
    } else {
        match rw_at(w, l, r, i) {
            Some(x) => Some(x),
            None => first_rw(w, l, r, i + 1),
        }
    }
}

/// Rewrites `w` once with the rule `lhs -> rhs`, at the first subterm that
/// is an instance of `lhs`, or reports that no subterm is.
#[verifier::loop_isolation(false)]
fn rewrite_once<V: Variable, O: Operator>(w: &Word<V, O>, lhs: &Word<V, O>, rhs: &Word<V, O>) -> (r:
    Option<Word<V, O>>)
    requires
        complete(w@),
        complete(lhs@),
        complete(rhs@),
    ensures
        match r {
            Some(x) => complete(x@) && step_with(lhs@, rhs@, w@, x@) && first_rw(
                w@,
                lhs@,
                rhs@,
                0,
            ) == Some(x@),
            None => first_rw(w@, lhs@, rhs@, 0) is None,
        },
{
    let mut i: usize = 0;
    while i < w.syms.len()
        invariant
            i <= w@.len(),
            first_rw(w@, lhs@, rhs@, 0) == first_rw(w@, lhs@, rhs@, i as int),
        decreases w@.len() - i,
    {
        let sub = w.subword_at(i);
        proof {
            assert(sub@ == crate::model::sub_at(w@, i as int));
        }
        if let Some(m) = match_pattern(lhs, &sub) {
            let inst = lhs.subst(&m);
            if inst.eq_word(&sub) {
                let repl = rhs.subst(&m);
                proof {
                    lemma_wf_values_complete(&m);
                    lemma_apply_complete(rhs@, m@);
                    lemma_subtree(w@, i as int);
                }
                let e = seq_end(&w.syms, i);
                let mut out = crate::word::copy_range(&w.syms, 0, i);
                let mut t: usize = 0;
                while t < repl.syms.len()
                    invariant
                        t <= repl@.len(),
                        syms_model(out.syms@) == w@.subrange(0, i as int) + repl@.take(t as int),
                    decreases repl@.len() - t,
                {
                    let ghost before = syms_model(out.syms@);
                    out.syms.push(repl.syms[t].clone_sym());
                    proof {
                        assert(syms_model(out.syms@) =~= before.push(repl.syms@[t as int].model()));
                        assert(w@.subrange(0, i as int) + repl@.take(t + 1) =~= before.push(
                            repl@[t as int],
                        ));
                    }
                    t += 1;
                }
                proof {
                    assert(repl@.take(repl@.len() as int) =~= repl@);
                }
                let mut t2: usize = e;
                while t2 < w.syms.len()
                    invariant
                        e <= t2 <= w@.len(),
                        syms_model(out.syms@) == w@.subrange(0, i as int) + repl@ + w@.subrange(
                            e as int,
                            t2 as int,
                        ),
                    decreases w@.len() - t2,
                {
                    let ghost before = syms_model(out.syms@);
                    out.syms.push(w.syms[t2].clone_sym());
                    proof {
                        assert(syms_model(out.syms@) =~= before.push(w.syms@[t2 as int].model()));
                        assert(w@.subrange(0, i as int) + repl@ + w@.subrange(e as int, t2 + 1)
                            =~= before.push(w@[t2 as int]));
                    }
                    t2 += 1;
                }
                proof {
                    lemma_splice_complete(w@, i as int, e as int, repl@);
                    let la = apply_subst(lhs@, m@);
                    assert(inst@ == la);
                    assert(sub@ == la);
                    assert(w@.subrange(i as int, e as int) == la);
                    assert(i + la.len() == e);
                    assert(repl@ == apply_subst(rhs@, m@));
                    assert(syms_model(out.syms@) == w@.subrange(0, i as int) + apply_subst(
                        rhs@,
                        m@,
                    ) + w@.subrange(i as int + la.len() as int, w@.len() as int));
                    assert(step_with(lhs@, rhs@, w@, syms_model(out.syms@)));
                    assert(rw_at(w@, lhs@, rhs@, i as int) == Some(syms_model(out.syms@)));
                }
                return Some(out);
            }
            proof {
                assert(rw_at(w@, lhs@, rhs@, i as int) is None);
            }
        } else {
            proof {
                assert(rw_at(w@, lhs@, rhs@, i as int) is None);
            }
        }
        i += 1;
    }
    None
}

/// A rule as its two sides' meanings: what the spec-level completion
/// machine works on.
pub type RuleModel = (Seq<SymModel>, Seq<SymModel>);

/// The meanings of a list of rule or axiom pairs.
pub open spec fn pairs_view<V: Variable, O: Operator>(
    ps: Seq<(Word<V, O>, Word<V, O>)>,
) -> Seq<RuleModel> {
    ps.map_values(|p: (Word<V, O>, Word<V, O>)| (p.0@, p.1@))
}

/// The first rule, in order, that rewrites `w`, and the word it yields.
pub open spec fn first_rule_rw(w: Seq<SymModel>, rules: Seq<RuleModel>, t: int) -> Option<
    Seq<SymModel>,
>
    decreases rules.len() - t,
{
    if t < 0 || t >= rules.len() {
        None
    } else {
        match first_rw(w, rules[t].0, rules[t].1, 0) {
            Some(x) => Some(x),
            None => first_rule_rw(w, rules, t + 1),
        }
    }
}

/// `w` rewritten with the rules, first applicable rule first, until none
/// applies or the step budget is spent.
pub open spec fn spec_normalize(w: Seq<SymModel>, rules: Seq<RuleModel>, fuel: nat) -> Seq<
    SymModel,
>
    decreases fuel,
{
    if fuel == 0 {
        w
    } else {
        match first_rule_rw(w, rules, 0) {
            None => w,
            Some(x) => spec_normalize(x, rules, (fuel - 1) as nat),
        }
    }
}

/// Rewrites `w` with the rules until none applies or the step budget is
/// spent.
#[verifier::loop_isolation(false)]
fn normalize<V: Variable, O: Operator>(
    w: Word<V, O>,
    rules: &Vec<(Word<V, O>, Word<V, O>)>,
    fuel: usize,
) -> (r: Word<V, O>)
    requires
        complete(w@),
        pairs_complete(rules@),
    ensures
        complete(r@),
        r@ == spec_normalize(w@, pairs_view(rules@), fuel as nat),
        exists|n: nat| reduces(rules@, w@, r@, n),
{
    let ghost w0 = w@;
    let ghost rv = pairs_view(rules@);
    let mut cur = w;
    let ghost mut n: nat = 0;
    proof {
        assert(reduces(rules@, w0, cur@, 0nat));
    }
    let mut f = fuel;
    while f > 0
        invariant
            complete(cur@),
            reduces(rules@, w0, cur@, n),
            spec_normalize(w0, rv, fuel as nat) == spec_normalize(cur@, rv, f as nat),
        decreases f,
    {
        let ghost cur0 = cur@;
        let mut changed = false;
        let mut t: usize = 0;
        while t < rules.len()
            invariant
                t <= rules@.len(),
                complete(cur@),
                reduces(rules@, w0, cur@, n),
                !changed ==> cur@ == cur0 && first_rule_rw(cur0, rv, 0) == first_rule_rw(
                    cur0,
                    rv,
                    t as int,
                ),
                changed ==> first_rule_rw(cur0, rv, 0) == Some(cur@),
            decreases rules@.len() - t,
        {
            if !changed {
                proof {
                    assert(rv[t as int] == (rules@[t as int].0@, rules@[t as int].1@));
                }
                if let Some(x) = rewrite_once(&cur, &rules[t].0, &rules[t].1) {
                    proof {
                        assert(step_with(rules@[t as int].0@, rules@[t as int].1@, cur@, x@));
                        assert(step_any(rules@, cur@, x@));
                        lemma_reduces_snoc(rules@, w0, cur@, x@, n);
                        n = n + 1;
                        assert(first_rw(cur0, rv[t as int].0, rv[t as int].1, 0) == Some(x@));
                        assert(first_rule_rw(cur0, rv, t as int) == Some(x@));
                    }
                    cur = x;
                    changed = true;
                } else {
                    proof {
                        assert(first_rw(cur0, rv[t as int].0, rv[t as int].1, 0) is None);
                        assert(first_rule_rw(cur0, rv, t as int) == first_rule_rw(
                            cur0,
                            rv,
                            t as int + 1,
                        ));
                    }
                }
            }
            t += 1;
        }
        if !changed {
            proof {
                assert(first_rule_rw(cur0, rv, rules@.len() as int) is None);
                assert(spec_normalize(cur0, rv, f as nat) == cur0);
            }
            return cur;
        }
        proof {
            assert(spec_normalize(cur0, rv, f as nat) == spec_normalize(
                cur@,
                rv,
                (f - 1) as nat,
            ));
        }
        f -= 1;
    }
    cur
}

/// Whether the rule `l -> r` rewrites either side of the pair.
pub open spec fn pair_reducible(p: RuleModel, l: Seq<SymModel>, r: Seq<SymModel>) -> bool {
    first_rw(p.0, l, r, 0) is Some || first_rw(p.1, l, r, 0) is Some
}

/// The rules the new rule cannot reduce, in their old order.
pub open spec fn kept_of(rs: Seq<RuleModel>, l: Seq<SymModel>, r: Seq<SymModel>) -> Seq<RuleModel>
    decreases rs.len(),
{
    if rs.len() == 0 {
        Seq::empty()
    } else {
        kept_of(rs.drop_last(), l, r) + (if pair_reducible(rs.last(), l, r) {
            Seq::empty()
        } else {
            seq![rs.last()]
        })
    }
}

/// The rules the new rule reduces, re-queued as axioms, in their old order.
pub open spec fn requeued_of(
    rs: Seq<RuleModel>,
    l: Seq<SymModel>,
    r: Seq<SymModel>,
) -> Seq<RuleModel>
    decreases rs.len(),
{
    if rs.len() == 0 {
        Seq::empty()
    } else {
        requeued_of(rs.drop_last(), l, r) + (if pair_reducible(rs.last(), l, r) {
            seq![rs.last()]
        } else {
            Seq::empty()
        })
    }
}

/// The axiom that superposing the new rule `l -> r` on a kept rule yields:
/// the critical term reduced once by each of the two overlapping rules,
/// kept only when the two reducts differ.
pub open spec fn sup_pair(l: Seq<SymModel>, r: Seq<SymModel>, p: RuleModel) -> Option<RuleModel> {
    match crate::critical::spec_critical(l, p.0) {
        Some(c) => {
            let c1 = match first_rw(c, l, r, 0) {
                Some(x) => x,
                None => c,
            };
            let c2 = match first_rw(c, p.0, p.1, 0) {
                Some(x) => x,
                None => c,
            };
            if c1 != c2 {
                Some((c1, c2))
            } else {
                None
            }
        },
        None => None,
    }
}

/// The axioms that superposing the new rule on every kept rule yields, in
/// rule order.
pub open spec fn sup_of(kept: Seq<RuleModel>, l: Seq<SymModel>, r: Seq<SymModel>) -> Seq<
    RuleModel,
>
    decreases kept.len(),
{
    if kept.len() == 0 {
        Seq::empty()
    } else {
        sup_of(kept.drop_last(), l, r) + (match sup_pair(l, r, kept.last()) {
            Some(p) => seq![p],
            None => Seq::empty(),
        })
    }
}

/// What installing the oriented rule `l -> r` does to the rule set and the
/// axiom queue.
pub open spec fn spec_add_rule(
    rules: Seq<RuleModel>,
    pending: Seq<RuleModel>,
    l: Seq<SymModel>,
    r: Seq<SymModel>,
) -> (Seq<RuleModel>, Seq<RuleModel>) {
    let kept = kept_of(rules, l, r);
    (kept + seq![(l, r)], pending + requeued_of(rules, l, r) + sup_of(kept, l, r))
}

proof fn lemma_kept_take_step(rs: Seq<RuleModel>, l: Seq<SymModel>, r: Seq<SymModel>, t: int)
    requires
        0 <= t < rs.len(),
    ensures
        kept_of(rs.take(t + 1), l, r) == kept_of(rs.take(t), l, r) + (if pair_reducible(
            rs[t],
            l,
            r,
        ) {
            Seq::<RuleModel>::empty()
        } else {
            seq![rs[t]]
        }),
        requeued_of(rs.take(t + 1), l, r) == requeued_of(rs.take(t), l, r) + (if pair_reducible(
            rs[t],
            l,
            r,
        ) {
            seq![rs[t]]
        } else {
            Seq::<RuleModel>::empty()
        }),
{
    assert(rs.take(t + 1).drop_last() =~= rs.take(t));
    assert(rs.take(t + 1).last() == rs[t]);
}

proof fn lemma_sup_take_step(kept: Seq<RuleModel>, l: Seq<SymModel>, r: Seq<SymModel>, t: int)
    requires
        0 <= t < kept.len(),
    ensures
        sup_of(kept.take(t + 1), l, r) == sup_of(kept.take(t), l, r) + (match sup_pair(
            l,
            r,
            kept[t],
        ) {
            Some(p) => seq![p],
            None => Seq::<RuleModel>::empty(),
        }),
{
    assert(kept.take(t + 1).drop_last() =~= kept.take(t));
    assert(kept.take(t + 1).last() == kept[t]);
}

/// Installs an oriented rule: existing rules it can reduce go back to the
/// axiom queue, the rest are superposed against it, and every critical term
/// yields a fresh axiom from its two one-step reductions.
#[verifier::loop_isolation(false)]
fn add_rule<V: Variable, O: Operator>(
    rules: &mut Vec<(Word<V, O>, Word<V, O>)>,
    pending: &mut Vec<(Word<V, O>, Word<V, O>)>,
    l: Word<V, O>,
    rr: Word<V, O>,
)
    requires
        rules_oriented::<V, O>(old(rules)@),
        pairs_complete(old(pending)@),
        complete(l@),
        complete(rr@),
        cmp_words(l@, rr@, O::min_weight_spec()) == Some(Ordering::Greater),
    ensures
        rules_oriented::<V, O>(final(rules)@),
        pairs_complete(final(pending)@),
        pairs_view(final(rules)@) == spec_add_rule(
            pairs_view(old(rules)@),
            pairs_view(old(pending)@),
            l@,
            rr@,
        ).0,
        pairs_view(final(pending)@) == spec_add_rule(
            pairs_view(old(rules)@),
            pairs_view(old(pending)@),
            l@,
            rr@,
        ).1,
{
    let ghost rv0 = pairs_view(rules@);
    let ghost pv0 = pairs_view(pending@);
    let mut kept: Vec<(Word<V, O>, Word<V, O>)> = Vec::new();
    proof {
        assert(rv0.take(0) =~= Seq::<RuleModel>::empty());
        assert(pairs_view(kept@) =~= kept_of(rv0.take(0), l@, rr@));
        assert(pairs_view(pending@) =~= pv0 + requeued_of(rv0.take(0), l@, rr@));
    }
    let mut t: usize = 0;
    while t < rules.len()
        invariant
            t <= rules@.len(),
            rules_oriented::<V, O>(rules@),
            rules_oriented::<V, O>(kept@),
            pairs_complete(pending@),
            pairs_view(kept@) == kept_of(rv0.take(t as int), l@, rr@),
            pairs_view(pending@) == pv0 + requeued_of(rv0.take(t as int), l@, rr@),
        decreases rules@.len() - t,
    {
        proof {
            assert(rv0[t as int] == (rules@[t as int].0@, rules@[t as int].1@));
            lemma_kept_take_step(rv0, l@, rr@, t as int);
        }
        let reducible_l = rewrite_once(&rules[t].0, &l, &rr);
        let reducible_r = rewrite_once(&rules[t].1, &l, &rr);
        let drop_rule = match (&reducible_l, &reducible_r) {
            (Option::None, Option::None) => false,
            _ => true,
        };
        proof {
            assert(drop_rule == pair_reducible(rv0[t as int], l@, rr@));
        }
        let pair = (rules[t].0.clone_word(), rules[t].1.clone_word());
        if drop_rule {
            let ghost before = pairs_view(pending@);
            pending.push(pair);
            proof {
                assert(pairs_view(pending@) =~= before.push(rv0[t as int]));
                assert(pairs_view(pending@) =~= pv0 + requeued_of(rv0.take(t + 1), l@, rr@));
            }
        } else {
            let ghost before = pairs_view(kept@);
            kept.push(pair);
            proof {
                assert(pairs_view(kept@) =~= before.push(rv0[t as int]));
                assert(pairs_view(kept@) =~= kept_of(rv0.take(t + 1), l@, rr@));
                assert(pairs_view(pending@) =~= pv0 + requeued_of(rv0.take(t + 1), l@, rr@));
            }
        }
        t += 1;
    }
    proof {
        assert(rv0.take(rules@.len() as int) =~= rv0);
    }
    let ghost kv = pairs_view(kept@);
    proof {
        assert(kv.take(0) =~= Seq::<RuleModel>::empty());
        assert(pairs_view(pending@) =~= pv0 + requeued_of(rv0, l@, rr@) + sup_of(
            kv.take(0),
            l@,
            rr@,
        ));
    }
    let mut t2: usize = 0;
    while t2 < kept.len()
        invariant
            t2 <= kept@.len(),
            rules_oriented::<V, O>(kept@),
            pairs_complete(pending@),
            pairs_view(kept@) == kv,
            pairs_view(pending@) == pv0 + requeued_of(rv0, l@, rr@) + sup_of(
                kv.take(t2 as int),
                l@,
                rr@,
            ),
        decreases kept@.len() - t2,
    {
        proof {
            assert(kv[t2 as int] == (kept@[t2 as int].0@, kept@[t2 as int].1@));
            lemma_sup_take_step(kv, l@, rr@, t2 as int);
        }
        if let Some(c) = critical_term(&l, &kept[t2].0) {
            let c1 = match rewrite_once(&c, &l, &rr) {
                Some(x) => x,
                None => c.clone_word(),
            };
            let c2 = match rewrite_once(&c, &kept[t2].0, &kept[t2].1) {
                Some(x) => x,
                None => c.clone_word(),
            };
            if !c1.eq_word(&c2) {
                let ghost before = pairs_view(pending@);
                proof {
                    assert(sup_pair(l@, rr@, kv[t2 as int]) == Some((c1@, c2@)));
                }
                pending.push((c1, c2));
                proof {
                    assert(pairs_view(pending@) =~= before.push((c1@, c2@)));
                    assert(pairs_view(pending@) =~= pv0 + requeued_of(rv0, l@, rr@) + sup_of(
                        kv.take(t2 + 1),
                        l@,
                        rr@,
                    ));
                }
            } else {
                proof {
                    assert(sup_pair(l@, rr@, kv[t2 as int]) is None);
                    assert(pairs_view(pending@) =~= pv0 + requeued_of(rv0, l@, rr@) + sup_of(
                        kv.take(t2 + 1),
                        l@,
                        rr@,
                    ));
                }
            }
        } else {
            proof {
                assert(sup_pair(l@, rr@, kv[t2 as int]) is None);
                assert(pairs_view(pending@) =~= pv0 + requeued_of(rv0, l@, rr@) + sup_of(
                    kv.take(t2 + 1),
                    l@,
                    rr@,
                ));
            }
        }
        t2 += 1;
    }
    proof {
        assert(kv.take(kept@.len() as int) =~= kv);
    }
    // Superposing the new rule against itself adds nothing here: the
    // whole-word overlap is found first and yields the left side back, and
    // rewriting it two ways with the one overlapping rule gives the same
    // reduct twice.
    let ghost before = pairs_view(kept@);
    kept.push((l, rr));
    proof {
        assert(pairs_view(kept@) =~= before.push((l@, rr@)));
        assert(pairs_view(kept@) =~= kept_of(rv0, l@, rr@) + seq![(l@, rr@)]);
    }
    *rules = kept;
}

/// The outcome of the completion machine, over meanings.
pub enum KbOutcome {
    Converged(Seq<RuleModel>),
    Stuck(RuleModel),
    GaveUp,
}

/// The completion machine itself, one popped axiom per step.  Both sides of
/// the axiom are normalized with the current rules; a trivial axiom
/// (ordering-Equal sides) is discarded; an orientable one is installed as a
/// rule the greater side first; an unorientable one stops the machine with
/// that pair.  With axioms still pending and no step left, the machine
/// gives up.
pub open spec fn kb_spec(
    pending: Seq<RuleModel>,
    rules: Seq<RuleModel>,
    steps_left: nat,
    fuel: nat,
    minw: nat,
) -> KbOutcome
    decreases steps_left,
{
    if pending.len() == 0 {
        KbOutcome::Converged(rules)
    } else if steps_left == 0 {
        KbOutcome::GaveUp
    } else {
        let ax = pending.last();
        let rest = pending.drop_last();
        let na = spec_normalize(ax.0, rules, fuel);
        let nb = spec_normalize(ax.1, rules, fuel);
        match cmp_words(na, nb, minw) {
            Some(Ordering::Equal) => kb_spec(rest, rules, (steps_left - 1) as nat, fuel, minw),
            Some(Ordering::Greater) => {
                let next = spec_add_rule(rules, rest, na, nb);
                kb_spec(next.1, next.0, (steps_left - 1) as nat, fuel, minw)
            },
            Some(Ordering::Less) => {
                let next = spec_add_rule(rules, rest, nb, na);
                kb_spec(next.1, next.0, (steps_left - 1) as nat, fuel, minw)
            },
            None => KbOutcome::Stuck((na, nb)),
        }
    }
}

/// What completing the given axioms within the given bound yields: the
/// machine starts with the axioms pending, no rules, the bound as its step
/// budget, and the same bound as each normalization's rewrite budget.
pub open spec fn kb_outcome<V: Variable, O: Operator>(
    axioms: Seq<(Word<V, O>, Word<V, O>)>,
    bound: nat,
) -> KbOutcome {
    kb_spec(pairs_view(axioms), Seq::empty(), bound, bound, O::min_weight_spec())
}

/// Knuth–Bendix completion of the given axioms, within the iteration bound:
/// exactly what the spec-level machine computes.  In particular every rule
/// of a converged rule set is strictly oriented and the pending queue was
/// exhausted; a stuck outcome carries the normalized axiom whose sides the
/// ordering cannot relate; and giving up happens only with axioms still
/// pending and the bound spent.
#[verifier::loop_isolation(false)]
pub fn knuth_bendix<V: Variable, O: Operator>(
    axioms: &Vec<(Word<V, O>, Word<V, O>)>,
    bound: usize,
) -> (r: KbResult<V, O>)
    requires
        pairs_complete(axioms@),
    ensures
        match r {
            KbResult::Converged(rules) => rules_oriented::<V, O>(rules@) && kb_outcome::<V, O>(
                axioms@,
                bound as nat,
            ) == KbOutcome::Converged(pairs_view(rules@)),
            KbResult::Stuck(ax) => complete(ax.0@) && complete(ax.1@) && cmp_words(
                ax.0@,
                ax.1@,
                O::min_weight_spec(),
            ) is None && kb_outcome::<V, O>(axioms@, bound as nat) == KbOutcome::Stuck(
                (ax.0@, ax.1@),
            ),
            KbResult::GaveUp => kb_outcome::<V, O>(axioms@, bound as nat) == KbOutcome::GaveUp,
        },
        axioms@.len() == 0 ==> (r matches KbResult::Converged(rules) && rules@.len() == 0),
{
    let ghost minw = O::min_weight_spec();
    let ghost av = pairs_view(axioms@);
    let mut pending: Vec<(Word<V, O>, Word<V, O>)> = Vec::new();
    proof {
        assert(pairs_view(pending@) =~= av.take(0));
    }
    let mut t: usize = 0;
    while t < axioms.len()
        invariant
            t <= axioms@.len(),
            pending@.len() == t,
            pairs_complete(pending@),
            pairs_view(pending@) == av.take(t as int),
        decreases axioms@.len() - t,
    {
        let ghost before = pairs_view(pending@);
        pending.push((axioms[t].0.clone_word(), axioms[t].1.clone_word()));
        proof {
            assert(av[t as int] == (axioms@[t as int].0@, axioms@[t as int].1@));
            assert(pairs_view(pending@) =~= before.push(av[t as int]));
            assert(pairs_view(pending@) =~= av.take(t + 1));
        }
        t += 1;
    }
    proof {
        assert(av.take(axioms@.len() as int) =~= av);
    }
    let mut rules: Vec<(Word<V, O>, Word<V, O>)> = Vec::new();
    proof {
        assert(pairs_view(rules@) =~= Seq::<RuleModel>::empty());
    }
    let mut steps: usize = 0;
    while pending.len() > 0
        invariant
            pairs_complete(pending@),
            rules_oriented::<V, O>(rules@),
            steps <= bound,
            axioms@.len() == 0 ==> pending@.len() == 0 && rules@.len() == 0,
            kb_spec(
                pairs_view(pending@),
                pairs_view(rules@),
                (bound - steps) as nat,
                bound as nat,
                minw,
            ) == kb_outcome::<V, O>(axioms@, bound as nat),
        decreases bound - steps,
    {
        let ghost pv = pairs_view(pending@);
        let ghost rv = pairs_view(rules@);
        let ghost sl: nat = (bound - steps) as nat;
        proof {
            assert(pv.len() == pending@.len());
        }
        if steps >= bound {
            proof {
                assert(sl == 0);
                assert(kb_spec(pv, rv, sl, bound as nat, minw) == KbOutcome::GaveUp);
            }
            return KbResult::GaveUp;
        }
        steps += 1;
        let ax = match pending.pop() {
            Some(ax) => ax,
            None => {
                return KbResult::GaveUp;
            },
        };
        proof {
            assert(pairs_view(pending@) =~= pv.drop_last());
            assert(pv.last() == (ax.0@, ax.1@));
        }
        let na = normalize(ax.0, &rules, bound);
        let nb = normalize(ax.1, &rules, bound);
        proof {
            assert(na@ == spec_normalize(pv.last().0, rv, bound as nat));
            assert(nb@ == spec_normalize(pv.last().1, rv, bound as nat));
        }
        match na.partial_cmp(&nb) {
            Some(Ordering::Equal) => {
                proof {
                    assert(kb_spec(pv, rv, sl, bound as nat, minw) == kb_spec(
                        pv.drop_last(),
                        rv,
                        (sl - 1) as nat,
                        bound as nat,
                        minw,
                    ));
                }
            },
            Some(Ordering::Greater) => {
                add_rule(&mut rules, &mut pending, na, nb);
                proof {
                    assert(kb_spec(pv, rv, sl, bound as nat, minw) == kb_spec(
                        spec_add_rule(rv, pv.drop_last(), na@, nb@).1,
                        spec_add_rule(rv, pv.drop_last(), na@, nb@).0,
                        (sl - 1) as nat,
                        bound as nat,
                        minw,
                    ));
                }
            },
            Some(Ordering::Less) => {
                proof {
                    crate::order::lemma_words_coherent(&na, &nb);
                    crate::order::lemma_cmp_flip(na@, nb@, O::min_weight_spec());
                }
                add_rule(&mut rules, &mut pending, nb, na);
                proof {
                    assert(kb_spec(pv, rv, sl, bound as nat, minw) == kb_spec(
                        spec_add_rule(rv, pv.drop_last(), nb@, na@).1,
                        spec_add_rule(rv, pv.drop_last(), nb@, na@).0,
                        (sl - 1) as nat,
                        bound as nat,
                        minw,
                    ));
                }
            },
            None => {
                proof {
                    assert(kb_spec(pv, rv, sl, bound as nat, minw) == KbOutcome::Stuck(
                        (na@, nb@),
                    ));
                }
                return KbResult::Stuck((na, nb));
            },
        }
    }
    proof {
        assert(pairs_view(pending@).len() == 0);
        assert(kb_spec(
            pairs_view(pending@),
            pairs_view(rules@),
            (bound - steps) as nat,
            bound as nat,
            minw,
        ) == KbOutcome::Converged(pairs_view(rules@)));
    }
    KbResult::Converged(rules)
}

} // verus!
