//! The reduction ordering: a Knuth–Bendix weight ordering over words.
//!
//! The order is partial: two words may be Greater, Less, Equal, or stand in
//! no relation at all, and the last is the common case for unrelated terms.

use vstd::prelude::*;

use core::cmp::Ordering;
use crate::model::SymModel;
use crate::model::count_var;
use crate::model::lemma_scan_props;
use crate::model::scan;
use crate::model::seq_weight;
use crate::model::sym_arity;
use crate::model::wend;

verus! {

/// Every variable occurs in `a` at least as often as in `b`.
pub open spec fn counts_ge(a: Seq<SymModel>, b: Seq<SymModel>) -> bool {
    forall|id: Seq<char>| #[trigger] count_var(a, id) >= count_var(b, id)
}

/// Every variable occurs in `a` exactly as often as in `b`.
pub open spec fn counts_eq(a: Seq<SymModel>, b: Seq<SymModel>) -> bool {
    forall|id: Seq<char>| #[trigger] count_var(a, id) == count_var(b, id)
}

/// The reduction ordering on words.  Greater weight wins if no variable
/// count speaks against it; at equal weight and equal counts, an operator
/// beats a variable, operators are ordered by their index, and the same
/// operator is decided by its arguments, first difference first.
pub open spec fn cmp_words(a: Seq<SymModel>, b: Seq<SymModel>, minw: nat) -> Option<Ordering>
    decreases (a.len() + b.len()) as int, 0int, 0int,
{
    let wa = seq_weight(a, minw);
    let wb = seq_weight(b, minw);
    if wa > wb {
        if counts_ge(a, b) {
            Some(Ordering::Greater)
        } else {
            None
        }
    } else if wa < wb {
        if counts_ge(b, a) {
            Some(Ordering::Less)
        } else {
            None
        }
    } else if !counts_eq(a, b) {
        None
    } else if a.len() == 0 || b.len() == 0 {
        None
    } else {
        match (a[0], b[0]) {
            (SymModel::Op { .. }, SymModel::Var { .. }) => Some(Ordering::Greater),
            (SymModel::Var { .. }, SymModel::Op { .. }) => Some(Ordering::Less),
            (SymModel::Var { .. }, SymModel::Var { .. }) => Some(Ordering::Equal),
            (
                SymModel::Op { arity: ka, index: ia, .. },
                SymModel::Op { index: ib, .. },
            ) => if ia > ib {
                Some(Ordering::Greater)
            } else if ia < ib {
                Some(Ordering::Less)
            } else {
                cmp_rest(a, b, 1, 1, ka, minw)
            },
        }
    }
}

/// Compares `k` argument subwords of `a` starting at `i` against those of
/// `b` starting at `j`, pairwise, deciding on the first pair not Equal.
pub open spec fn cmp_rest(
    a: Seq<SymModel>,
    b: Seq<SymModel>,
    i: int,
    j: int,
    k: nat,
    minw: nat,
) -> Option<Ordering>
    decreases a.len() - i + b.len() - j, 1int, k as int,
    when 0 <= i <= a.len() && 0 <= j <= b.len()
    via cmp_rest_dec
{
    if k == 0 {
        Some(Ordering::Equal)
    } else {
        let e = wend(a, i);
        let e2 = wend(b, j);
        if e < 0 || e2 < 0 {
            None
        } else {
            match cmp_words(a.subrange(i, e), b.subrange(j, e2), minw) {
                Some(Ordering::Equal) => cmp_rest(a, b, e, e2, (k - 1) as nat, minw),
                c => c,
            }
        }
    }
}

#[via_fn]
proof fn cmp_rest_dec(a: Seq<SymModel>, b: Seq<SymModel>, i: int, j: int, k: nat, minw: nat) {
    if k > 0 {
        lemma_scan_props(a, i, 1);
        lemma_scan_props(b, j, 1);
    }
}

/// Two symbols of one operator family never share an order index without
/// sharing arity and weight.
pub open spec fn coherent_pair(x: SymModel, y: SymModel) -> bool {
    match (x, y) {
        (
            SymModel::Op { arity: k1, weight: w1, index: i1 },
            SymModel::Op { arity: k2, weight: w2, index: i2 },
        ) => i1 == i2 ==> (k1 == k2 && w1 == w2),
        _ => true,
    }
}

/// Every symbol of `a` is coherent with every symbol of `b`: what holds of
/// two words over one operator family.
pub open spec fn coherent2(a: Seq<SymModel>, b: Seq<SymModel>) -> bool {
    forall|p: int, q: int|
        0 <= p < a.len() && 0 <= q < b.len() ==> coherent_pair(#[trigger] a[p], #[trigger] b[q])
}

/// Any two words over one operator family are coherent.
pub proof fn lemma_words_coherent<V: crate::word::Variable, O: crate::word::Operator>(
    w1: &crate::word::Word<V, O>,
    w2: &crate::word::Word<V, O>,
)
    ensures
        coherent2(w1@, w2@),
{
    assert forall|p: int, q: int|
        0 <= p < w1@.len() && 0 <= q < w2@.len() implies coherent_pair(
        #[trigger] w1@[p],
        #[trigger] w2@[q],
    ) by {
        assert(w1@[p] == w1.syms@[p].model());
        assert(w2@[q] == w2.syms@[q].model());
        let x = w1.syms@[p];
        let y = w2.syms@[q];
        match (x, y) {
            (crate::word::Symbol::Op(f), crate::word::Symbol::Op(g)) => {
                O::index_determines(&f, &g);
            },
            _ => {},
        }
    }
}

/// Coherence passes to subranges.
pub proof fn lemma_coherent_sub(a: Seq<SymModel>, b: Seq<SymModel>, i: int, e: int, j: int, e2: int)
    requires
        coherent2(a, b),
        0 <= i <= e <= a.len(),
        0 <= j <= e2 <= b.len(),
    ensures
        coherent2(a.subrange(i, e), b.subrange(j, e2)),
{
    assert forall|p: int, q: int|
        0 <= p < a.subrange(i, e).len() && 0 <= q < b.subrange(j, e2).len() implies coherent_pair(
        #[trigger] a.subrange(i, e)[p],
        #[trigger] b.subrange(j, e2)[q],
    ) by {
        assert(a.subrange(i, e)[p] == a[i + p]);
        assert(b.subrange(j, e2)[q] == b[j + q]);
        assert(coherent_pair(a[i + p], b[j + q]));
    }
}

/// The same relation read from the other side.
pub open spec fn flip_ord(c: Option<Ordering>) -> Option<Ordering> {
    match c {
        Some(Ordering::Greater) => Some(Ordering::Less),
        Some(Ordering::Less) => Some(Ordering::Greater),
        x => x,
    }
}

/// The ordering is antisymmetric: comparing the other way round flips
/// Greater and Less and keeps Equal and no-relation.
pub proof fn lemma_cmp_flip(a: Seq<SymModel>, b: Seq<SymModel>, minw: nat)
    requires
        coherent2(a, b),
    ensures
        cmp_words(b, a, minw) == flip_ord(cmp_words(a, b, minw)),
    decreases (a.len() + b.len()) as int, 0int, 0int,
{
    if seq_weight(a, minw) == seq_weight(b, minw) && counts_eq(a, b) && a.len() >= 1 && b.len()
        >= 1 {
        assert(counts_eq(b, a));
        match (a[0], b[0]) {
            (SymModel::Op { arity: ka, index: ia, .. }, SymModel::Op { arity: kb, index: ib, .. }) => {
                if ia == ib {
                    assert(coherent_pair(a[0], b[0]));
                    assert(ka == kb);
                    lemma_cmp_rest_flip(a, b, 1, 1, ka, minw);
                }
            },
            _ => {},
        }
    } else if seq_weight(a, minw) == seq_weight(b, minw) && !counts_eq(a, b) {
        let id = choose|id: Seq<char>| !(#[trigger] count_var(a, id) == count_var(b, id));
        assert(count_var(b, id) != count_var(a, id));
        assert(!counts_eq(b, a));
    }
}

proof fn lemma_cmp_rest_flip(a: Seq<SymModel>, b: Seq<SymModel>, i: int, j: int, k: nat, minw: nat)
    requires
        coherent2(a, b),
        0 <= i <= a.len(),
        0 <= j <= b.len(),
    ensures
        cmp_rest(b, a, j, i, k, minw) == flip_ord(cmp_rest(a, b, i, j, k, minw)),
    decreases a.len() - i + b.len() - j, 1int, k as int,
{
    if k > 0 {
        let e = wend(a, i);
        let e2 = wend(b, j);
        lemma_scan_props(a, i, 1);
        lemma_scan_props(b, j, 1);
        if e >= 0 && e2 >= 0 {
            lemma_coherent_sub(a, b, i, e, j, e2);
            lemma_cmp_flip(a.subrange(i, e), b.subrange(j, e2), minw);
            match cmp_words(a.subrange(i, e), b.subrange(j, e2), minw) {
                Some(Ordering::Equal) => {
                    lemma_cmp_rest_flip(a, b, e, e2, (k - 1) as nat, minw);
                },
                _ => {},
            }
        }
    }
}

/// The ordering is reflexive in Equal: a complete word is Equal to itself,
/// and in particular never Greater or Less than itself.
pub proof fn lemma_cmp_refl(a: Seq<SymModel>, minw: nat)
    requires
        crate::model::complete(a),
    ensures
        cmp_words(a, a, minw) == Some(Ordering::Equal),
    decreases a.len() as int, 0int, 0int,
{
    assert(a.len() >= 1) by {
        assert(crate::model::bal(a, 0) == 1);
    }
    match a[0] {
        SymModel::Var { .. } => {},
        SymModel::Op { arity: ka, .. } => {
            crate::model::lemma_complete_scan(a);
            lemma_cmp_rest_refl(a, 1, ka, minw);
        },
    }
}

/// Ordering-Equal means the same word: two complete words over one operator
/// family that compare Equal are identical.
pub proof fn lemma_cmp_equal_structural(a: Seq<SymModel>, b: Seq<SymModel>, minw: nat)
    requires
        crate::model::complete(a),
        crate::model::complete(b),
        coherent2(a, b),
        cmp_words(a, b, minw) == Some(Ordering::Equal),
    ensures
        a == b,
    decreases (a.len() + b.len()) as int, 0int, 0int,
{
    assert(a.len() >= 1) by {
        assert(crate::model::bal(a, 0) == 1);
    }
    assert(b.len() >= 1) by {
        assert(crate::model::bal(b, 0) == 1);
    }
    match (a[0], b[0]) {
        (SymModel::Var { id: x }, SymModel::Var { id: y }) => {
            crate::model::lemma_var_word(a);
            crate::model::lemma_var_word(b);
            assert(count_var(a, x) == 1) by {
                assert(a =~= seq![a[0]]);
                assert(a.drop_last().len() == 0);
                assert(count_var(a.drop_last(), x) == 0);
                assert(a.last() == (SymModel::Var { id: x }));
            }
            assert(counts_eq(a, b));
            assert(count_var(b, x) == 1);
            assert(y == x) by {
                if y != x {
                    assert(b =~= seq![b[0]]);
                    assert(b.drop_last().len() == 0);
                    assert(count_var(b.drop_last(), x) == 0);
                    assert(b.last() != (SymModel::Var { id: x }));
                    assert(count_var(b, x) == 0);
                }
            }
            assert(a =~= b);
        },
        (
            SymModel::Op { arity: ka, index: ia, .. },
            SymModel::Op { arity: kb, index: ib, .. },
        ) => {
            assert(ia == ib);
            assert(coherent_pair(a[0], b[0]));
            assert(a[0] == b[0]);
            crate::model::lemma_complete_scan(a);
            crate::model::lemma_complete_scan(b);
            lemma_rest_equal_structural(a, b, 1, 1, ka, minw);
            assert(a =~= seq![a[0]] + a.subrange(1, a.len() as int));
            assert(b =~= seq![b[0]] + b.subrange(1, b.len() as int));
            assert(a =~= b);
        },
        _ => {},
    }
}

proof fn lemma_rest_equal_structural(
    a: Seq<SymModel>,
    b: Seq<SymModel>,
    i: int,
    j: int,
    k: nat,
    minw: nat,
)
    requires
        coherent2(a, b),
        0 <= i <= a.len(),
        0 <= j <= b.len(),
        scan(a, i, k as int) != -1,
        scan(b, j, k as int) != -1,
        cmp_rest(a, b, i, j, k, minw) == Some(Ordering::Equal),
    ensures
        a.subrange(i, scan(a, i, k as int)) == b.subrange(j, scan(b, j, k as int)),
    decreases a.len() - i + b.len() - j, 1int, k as int,
{
    lemma_scan_props(a, i, k as int);
    lemma_scan_props(b, j, k as int);
    if k == 0 {
        assert(a.subrange(i, i) =~= b.subrange(j, j));
    } else {
        crate::model::lemma_scan_decompose(a, i, 1, k - 1);
        crate::model::lemma_scan_decompose(b, j, 1, k - 1);
        let e = wend(a, i);
        let e2 = wend(b, j);
        if e == -1 {
            assert(scan(a, i, k as int) == -1);
        }
        if e2 == -1 {
            assert(scan(b, j, k as int) == -1);
        }
        crate::model::lemma_scan_sub_complete(a, i);
        crate::model::lemma_scan_sub_complete(b, j);
        crate::model::lemma_scan_props(a, e, k - 1);
        crate::model::lemma_scan_props(b, e2, k - 1);
        let sub_a = a.subrange(i, e);
        let sub_b = b.subrange(j, e2);
        lemma_coherent_sub(a, b, i, e, j, e2);
        lemma_cmp_equal_structural(sub_a, sub_b, minw);
        lemma_rest_equal_structural(a, b, e, e2, (k - 1) as nat, minw);
        let end_a = scan(a, i, k as int);
        let end_b = scan(b, j, k as int);
        assert(a.subrange(i, end_a) =~= sub_a + a.subrange(e, end_a));
        assert(b.subrange(j, end_b) =~= sub_b + b.subrange(e2, end_b));
        assert(a.subrange(i, end_a) =~= b.subrange(j, end_b));
    }
}

/// The ordering is transitive on Greater: whenever one word beats a second
/// and the second beats a third, the first beats the third.  With the flip
/// of antisymmetry the same holds of Less.
pub proof fn lemma_cmp_transitive(a: Seq<SymModel>, b: Seq<SymModel>, c: Seq<SymModel>, minw: nat)
    requires
        crate::model::complete(a),
        crate::model::complete(b),
        crate::model::complete(c),
        coherent2(a, b),
        coherent2(b, c),
        coherent2(a, c),
        cmp_words(a, b, minw) == Some(Ordering::Greater),
        cmp_words(b, c, minw) == Some(Ordering::Greater),
    ensures
        cmp_words(a, c, minw) == Some(Ordering::Greater),
    decreases (a.len() + b.len() + c.len()) as int, 0int, 0int,
{
    let wa = seq_weight(a, minw);
    let wb = seq_weight(b, minw);
    let wc = seq_weight(c, minw);
    assert(a.len() >= 1) by {
        assert(crate::model::bal(a, 0) == 1);
    }
    assert(b.len() >= 1) by {
        assert(crate::model::bal(b, 0) == 1);
    }
    assert(c.len() >= 1) by {
        assert(crate::model::bal(c, 0) == 1);
    }
    assert(wa >= wb >= wc);
    assert forall|id: Seq<char>| #[trigger] count_var(a, id) >= count_var(c, id) by {
        assert(count_var(a, id) >= count_var(b, id));
        assert(count_var(b, id) >= count_var(c, id));
    }
    if wa > wc {
        assert(counts_ge(a, c));
    } else {
        assert(wa == wb == wc);
        assert(counts_eq(a, b));
        assert(counts_eq(b, c));
        assert forall|id: Seq<char>| #[trigger] count_var(a, id) == count_var(c, id) by {
            assert(count_var(a, id) == count_var(b, id));
            assert(count_var(b, id) == count_var(c, id));
        }
        assert(counts_eq(a, c));
        match b[0] {
            SymModel::Var { .. } => {
                assert(false);
            },
            SymModel::Op { arity: kb, index: ib, .. } => {
                match a[0] {
                    SymModel::Var { .. } => {
                        assert(false);
                    },
                    SymModel::Op { arity: ka, index: ia, .. } => {
                        match c[0] {
                            SymModel::Var { .. } => {},
                            SymModel::Op { arity: kc, index: ic, .. } => {
                                assert(ia >= ib >= ic);
                                if ia == ib && ib == ic {
                                    assert(coherent_pair(a[0], b[0]));
                                    assert(coherent_pair(b[0], c[0]));
                                    assert(ka == kb && kb == kc);
                                    crate::model::lemma_complete_scan(a);
                                    crate::model::lemma_complete_scan(b);
                                    crate::model::lemma_complete_scan(c);
                                    lemma_rest_trans(a, b, c, 1, 1, 1, ka, minw);
                                }
                            },
                        }
                    },
                }
            },
        }
    }
}

proof fn lemma_rest_trans(
    a: Seq<SymModel>,
    b: Seq<SymModel>,
    c: Seq<SymModel>,
    i: int,
    j: int,
    l: int,
    k: nat,
    minw: nat,
)
    requires
        coherent2(a, b),
        coherent2(b, c),
        coherent2(a, c),
        0 <= i <= a.len(),
        0 <= j <= b.len(),
        0 <= l <= c.len(),
        scan(a, i, k as int) != -1,
        scan(b, j, k as int) != -1,
        scan(c, l, k as int) != -1,
        cmp_rest(a, b, i, j, k, minw) == Some(Ordering::Greater),
        cmp_rest(b, c, j, l, k, minw) == Some(Ordering::Greater),
    ensures
        cmp_rest(a, c, i, l, k, minw) == Some(Ordering::Greater),
    decreases a.len() - i + b.len() - j + c.len() - l, 1int, k as int,
{
    if k == 0 {
        assert(false);
    } else {
        crate::model::lemma_scan_decompose(a, i, 1, k - 1);
        crate::model::lemma_scan_decompose(b, j, 1, k - 1);
        crate::model::lemma_scan_decompose(c, l, 1, k - 1);
        let e = wend(a, i);
        let e2 = wend(b, j);
        let e3 = wend(c, l);
        if e == -1 {
            assert(scan(a, i, k as int) == -1);
        }
        if e2 == -1 {
            assert(scan(b, j, k as int) == -1);
        }
        if e3 == -1 {
            assert(scan(c, l, k as int) == -1);
        }
        crate::model::lemma_scan_sub_complete(a, i);
        crate::model::lemma_scan_sub_complete(b, j);
        crate::model::lemma_scan_sub_complete(c, l);
        crate::model::lemma_scan_props(a, e, k - 1);
        crate::model::lemma_scan_props(b, e2, k - 1);
        crate::model::lemma_scan_props(c, e3, k - 1);
        let sub_a = a.subrange(i, e);
        let sub_b = b.subrange(j, e2);
        let sub_c = c.subrange(l, e3);
        lemma_coherent_sub(a, b, i, e, j, e2);
        lemma_coherent_sub(b, c, j, e2, l, e3);
        lemma_coherent_sub(a, c, i, e, l, e3);
        let c_ab = cmp_words(sub_a, sub_b, minw);
        let c_bc = cmp_words(sub_b, sub_c, minw);
        if c_ab == Some(Ordering::Equal) && c_bc == Some(Ordering::Equal) {
            lemma_cmp_equal_structural(sub_a, sub_b, minw);
            lemma_cmp_equal_structural(sub_b, sub_c, minw);
            lemma_cmp_refl(sub_a, minw);
            assert(cmp_words(sub_a, sub_c, minw) == Some(Ordering::Equal));
            lemma_rest_trans(a, b, c, e, e2, e3, (k - 1) as nat, minw);
        } else if c_ab == Some(Ordering::Equal) {
            lemma_cmp_equal_structural(sub_a, sub_b, minw);
            assert(c_bc == Some(Ordering::Greater));
            assert(cmp_words(sub_a, sub_c, minw) == Some(Ordering::Greater));
        } else if c_bc == Some(Ordering::Equal) {
            lemma_cmp_equal_structural(sub_b, sub_c, minw);
            assert(c_ab == Some(Ordering::Greater));
            assert(cmp_words(sub_a, sub_c, minw) == Some(Ordering::Greater));
        } else {
            assert(c_ab == Some(Ordering::Greater));
            assert(c_bc == Some(Ordering::Greater));
            lemma_cmp_transitive(sub_a, sub_b, sub_c, minw);
        }
    }
}

proof fn lemma_cmp_rest_refl(a: Seq<SymModel>, i: int, k: nat, minw: nat)
    requires
        0 <= i <= a.len(),
        scan(a, i, k as int) != -1,
    ensures
        cmp_rest(a, a, i, i, k, minw) == Some(Ordering::Equal),
    decreases a.len() - i, 1int, k as int,
{
    if k > 0 {
        crate::model::lemma_scan_decompose(a, i, 1, k - 1);
        let e = wend(a, i);
        if e == -1 {
            assert(scan(a, i, k as int) == -1);
        }
        lemma_scan_props(a, i, 1);
        crate::model::lemma_scan_sub_complete(a, i);
        lemma_cmp_refl(a.subrange(i, e), minw);
        lemma_cmp_rest_refl(a, e, (k - 1) as nat, minw);
    }
}

} // verus!
