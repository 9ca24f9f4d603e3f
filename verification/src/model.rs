//! The mathematical model of terms.
//!
//! A term is stored as a word: a sequence of symbols in prefix (Polish)
//! notation.  At the specification level a symbol is reduced to what the
//! algorithms read of it: a variable is known by its identifier, an operator
//! by its arity, its weight and its order index.  Everything the library
//! promises is stated over sequences of these symbol models.

use vstd::prelude::*;

verus! {

/// What one symbol contributes to the meaning of a word: a variable carries
/// an identifier, an operator carries its arity, weight and total order index.
pub enum SymModel {
    Var { id: Seq<char> },
    Op { arity: nat, weight: nat, index: int },
}

pub open spec fn sym_arity(s: SymModel) -> nat {
    match s {
        SymModel::Var { .. } => 0,
        SymModel::Op { arity, .. } => arity,
    }
}

pub open spec fn sym_weight(s: SymModel, minw: nat) -> nat {
    match s {
        SymModel::Var { .. } => minw,
        SymModel::Op { weight, .. } => weight,
    }
}

/// Total weight of a word: the sum of its symbols' weights, a variable
/// weighing the operator family's minimum weight.
pub open spec fn seq_weight(s: Seq<SymModel>, minw: nat) -> nat
    decreases s.len(),
{
    if s.len() == 0 {
        0
    } else {
        seq_weight(s.drop_last(), minw) + sym_weight(s.last(), minw)
    }
}

/// How often the variable `id` occurs in the word.
pub open spec fn count_var(s: Seq<SymModel>, id: Seq<char>) -> nat
    decreases s.len(),
{
    if s.len() == 0 {
        0
    } else {
        count_var(s.drop_last(), id) + (if s.last() == (SymModel::Var { id }) {
            1nat
        } else {
            0nat
        })
    }
}

/// Sum of `arity - 1` over the symbols at positions `[i, j)`.
pub open spec fn delta(s: Seq<SymModel>, i: int, j: int) -> int
    decreases j - i,
{
    if j <= i {
        0
    } else {
        delta(s, i, j - 1) + sym_arity(s[j - 1]) - 1
    }
}

/// The number of complete subtrees still owed after reading the first `n`
/// symbols, starting from the one owed for the word itself.
pub open spec fn bal(s: Seq<SymModel>, n: int) -> int {
    1 + delta(s, 0, n)
}

/// A word is complete when its symbols decode to exactly one tree: the
/// balance reaches zero at the end and never before.
pub open spec fn complete(s: Seq<SymModel>) -> bool {
    &&& bal(s, s.len() as int) == 0
    &&& forall|i: int| 0 <= i < s.len() ==> bal(s, i) >= 1
}

/// Scans forward from position `i` while `pending` complete subtrees are
/// still owed; returns the position just past the last of them, or -1 when
/// the sequence ends too early.
pub open spec fn scan(s: Seq<SymModel>, i: int, pending: int) -> int
    decreases s.len() - i,
{
    if pending <= 0 {
        i
    } else if i < 0 || i >= s.len() {
        -1
    } else {
        scan(s, i + 1, pending - 1 + sym_arity(s[i]))
    }
}

/// The end of the single complete subtree that starts at position `i`.
pub open spec fn wend(s: Seq<SymModel>, i: int) -> int {
    scan(s, i, 1)
}

/// The complete subtree that starts at position `i`.
pub open spec fn sub_at(s: Seq<SymModel>, i: int) -> Seq<SymModel> {
    s.subrange(i, wend(s, i))
}

/// A single symbol of arity zero is a complete word.
pub proof fn lemma_single_complete(s: Seq<SymModel>)
    requires
        s.len() == 1,
        sym_arity(s[0]) == 0,
    ensures
        complete(s),
{
    assert(delta(s, 0, 1) == delta(s, 0, 0) + sym_arity(s[0]) - 1);
}

pub proof fn lemma_delta_concat(s: Seq<SymModel>, i: int, j: int, k: int)
    requires
        i <= j <= k,
    ensures
        delta(s, i, k) == delta(s, i, j) + delta(s, j, k),
    decreases k - j,
{
    if k > j {
        lemma_delta_concat(s, i, j, k - 1);
    }
}

/// `delta` reads only the symbols of the range, so it is the same on a
/// subrange shifted to the left.
pub proof fn lemma_delta_subrange(s: Seq<SymModel>, a: int, b: int, i: int, j: int)
    requires
        0 <= a <= b <= s.len(),
        0 <= i,
        j <= b - a,
    ensures
        delta(s.subrange(a, b), i, j) == delta(s, a + i, a + j),
    decreases j - i,
{
    if j > i {
        lemma_delta_subrange(s, a, b, i, j - 1);
        assert(s.subrange(a, b)[j - 1] == s[a + j - 1]);
    }
}

/// What `scan` returns: on success, the first position where the owed count
/// reaches zero; on failure, the owed count stays positive to the end.
pub proof fn lemma_scan_props(s: Seq<SymModel>, i: int, p: int)
    requires
        0 <= i <= s.len(),
        p >= 0,
    ensures
        scan(s, i, p) == -1 ==> forall|m: int| i <= m <= s.len() ==> p + delta(s, i, m) >= 1,
        scan(s, i, p) != -1 ==> i <= scan(s, i, p) <= s.len(),
        scan(s, i, p) != -1 ==> p + delta(s, i, scan(s, i, p)) == 0,
        scan(s, i, p) != -1 ==> forall|m: int|
            i <= m < scan(s, i, p) ==> p + delta(s, i, m) >= 1,
        p == 0 ==> scan(s, i, p) == i,
        (p >= 1 && scan(s, i, p) != -1) ==> scan(s, i, p) >= i + 1,
    decreases s.len() - i,
{
    if p <= 0 {
        assert(delta(s, i, i) == 0);
    } else if i >= s.len() {
        assert forall|m: int| i <= m <= s.len() implies p + delta(s, i, m) >= 1 by {
            assert(m == i);
            assert(delta(s, i, i) == 0);
        }
    } else {
        let q = p - 1 + sym_arity(s[i]);
        lemma_scan_props(s, i + 1, q);
        assert(delta(s, i, i + 1) == delta(s, i, i) + sym_arity(s[i]) - 1);
        assert forall|m: int| i + 1 <= m <= s.len() implies p + delta(s, i, m) == q + delta(
            s,
            i + 1,
            m,
        ) by {
            lemma_delta_concat(s, i, i + 1, m);
        }
        assert(delta(s, i, i) == 0);
    }
}

/// `scan` returns the first zero crossing: any position where the owed count
/// first reaches zero is what `scan` returns.
pub proof fn lemma_scan_first(s: Seq<SymModel>, i: int, p: int, e: int)
    requires
        0 <= i <= e <= s.len(),
        p >= 0,
        p + delta(s, i, e) == 0,
        forall|m: int| i <= m < e ==> p + delta(s, i, m) >= 1,
    ensures
        scan(s, i, p) == e,
    decreases s.len() - i,
{
    if p <= 0 {
        assert(delta(s, i, i) == 0);
        if e > i {
            assert(p + delta(s, i, i) >= 1);
        }
    } else {
        assert(delta(s, i, i) == 0);
        assert(e > i);
        let q = p - 1 + sym_arity(s[i]);
        assert(delta(s, i, i + 1) == sym_arity(s[i]) - 1);
        assert forall|m: int| i + 1 <= m <= s.len() implies p + delta(s, i, m) == q + delta(
            s,
            i + 1,
            m,
        ) by {
            lemma_delta_concat(s, i, i + 1, m);
        }
        if i + 1 == e {
            assert(q == 0);
        } else {
            assert(p + delta(s, i, i + 1) >= 1);
        }
        assert forall|m: int| i + 1 <= m < e implies q + #[trigger] delta(s, i + 1, m) >= 1 by {
            lemma_delta_concat(s, i, i + 1, m);
            assert(p + delta(s, i, m) >= 1);
        }
        assert(q + delta(s, i + 1, e) == 0) by {
            lemma_delta_concat(s, i, i + 1, e);
        }
        lemma_scan_first(s, i + 1, q, e);
    }
}

/// Scanning for `p + q` subtrees is scanning for `p`, then for `q` more.
pub proof fn lemma_scan_decompose(s: Seq<SymModel>, i: int, p: int, q: int)
    requires
        0 <= i <= s.len(),
        p >= 0,
        q >= 0,
    ensures
        scan(s, i, p) != -1 ==> scan(s, i, p + q) == scan(s, scan(s, i, p), q),
        scan(s, i, p) == -1 ==> scan(s, i, p + q) == -1,
{
    lemma_scan_props(s, i, p);
    if scan(s, i, p) == -1 {
        if scan(s, i, p + q) != -1 {
            lemma_scan_props(s, i, p + q);
            let e = scan(s, i, p + q);
            assert(p + delta(s, i, e) >= 1);
        }
    } else {
        let e1 = scan(s, i, p);
        lemma_scan_props(s, e1, q);
        if scan(s, e1, q) == -1 {
            if scan(s, i, p + q) != -1 {
                lemma_scan_props(s, i, p + q);
                let e = scan(s, i, p + q);
                if e >= e1 {
                    lemma_delta_concat(s, i, e1, e);
                    assert(q + delta(s, e1, e) >= 1);
                } else {
                    assert(p + q + delta(s, i, e) >= 1);
                }
            }
        } else {
            let e = scan(s, e1, q);
            lemma_delta_concat(s, i, e1, e);
            assert forall|m: int| i <= m < e implies p + q + delta(s, i, m) >= 1 by {
                if m < e1 {
                    assert(p + delta(s, i, m) >= 1);
                } else {
                    lemma_delta_concat(s, i, e1, m);
                    assert(q + delta(s, e1, m) >= 1);
                }
            }
            lemma_scan_first(s, i, p + q, e);
        }
    }
}

/// In a complete word every position starts a complete subtree, and the
/// subtree is found by `wend`.
pub proof fn lemma_subtree(s: Seq<SymModel>, i: int)
    requires
        complete(s),
        0 <= i < s.len(),
    ensures
        i + 1 <= wend(s, i) <= s.len(),
        complete(sub_at(s, i)),
        sub_at(s, i).len() == wend(s, i) - i,
{
    lemma_delta_concat(s, 0, i, s.len() as int);
    assert(bal(s, i) >= 1);
    assert(bal(s, s.len() as int) == 0);
    assert(1 + delta(s, i, s.len() as int) <= 0);
    lemma_scan_props(s, i, 1);
    if scan(s, i, 1) == -1 {
        assert(1 + delta(s, i, s.len() as int) >= 1);
    }
    let e = wend(s, i);
    let sub = sub_at(s, i);
    assert(sub.len() == e - i);
    assert forall|m: int| 0 <= m <= sub.len() implies bal(sub, m) == 1 + delta(s, i, i + m) by {
        lemma_delta_subrange(s, i, e, 0, m);
    }
    assert(bal(sub, sub.len() as int) == 0);
    assert forall|m: int| 0 <= m < sub.len() implies bal(sub, m) >= 1 by {
        assert(1 + delta(s, i, i + m) >= 1);
    }
}

/// A complete word is one whole subtree: scanning for it from the start
/// reaches exactly the end.
pub proof fn lemma_complete_scan(s: Seq<SymModel>)
    requires
        complete(s),
    ensures
        s.len() >= 1,
        scan(s, 0, 1) == s.len(),
        scan(s, 1, sym_arity(s[0]) as int) == s.len(),
{
    assert(bal(s, s.len() as int) == 0);
    assert forall|m: int| 0 <= m < s.len() implies 1 + delta(s, 0, m) >= 1 by {
        assert(bal(s, m) >= 1);
    }
    lemma_scan_first(s, 0, 1, s.len() as int);
    lemma_scan_decompose(s, 0, 0, 1);
}

/// The converse: a word that scans as one whole subtree is complete.
pub proof fn lemma_scan_complete(s: Seq<SymModel>)
    requires
        s.len() >= 1,
        scan(s, 0, 1) == s.len(),
    ensures
        complete(s),
{
    lemma_scan_props(s, 0, 1);
}

pub proof fn lemma_count_concat(a: Seq<SymModel>, b: Seq<SymModel>, id: Seq<char>)
    ensures
        count_var(a + b, id) == count_var(a, id) + count_var(b, id),
    decreases b.len(),
{
    if b.len() == 0 {
        assert(a + b =~= a);
    } else {
        lemma_count_concat(a, b.drop_last(), id);
        assert((a + b).drop_last() =~= a + b.drop_last());
        assert((a + b).last() == b.last());
    }
}

/// One more symbol adds its weight.
pub proof fn lemma_weight_take_step(s: Seq<SymModel>, minw: nat, i: int)
    requires
        0 <= i < s.len(),
    ensures
        seq_weight(s.take(i + 1), minw) == seq_weight(s.take(i), minw) + sym_weight(s[i], minw),
{
    assert(s.take(i + 1).drop_last() =~= s.take(i));
    assert(s.take(i + 1).last() == s[i]);
}

/// One more symbol adds one occurrence when it is that variable.
pub proof fn lemma_count_take_step(s: Seq<SymModel>, id: Seq<char>, i: int)
    requires
        0 <= i < s.len(),
    ensures
        count_var(s.take(i + 1), id) == count_var(s.take(i), id) + (if s[i] == (SymModel::Var {
            id,
        }) {
            1nat
        } else {
            0nat
        }),
{
    assert(s.take(i + 1).drop_last() =~= s.take(i));
    assert(s.take(i + 1).last() == s[i]);
}

/// The concatenation of a list of words.
pub open spec fn cat_args(ws: Seq<Seq<SymModel>>) -> Seq<SymModel>
    decreases ws.len(),
{
    if ws.len() == 0 {
        Seq::empty()
    } else {
        cat_args(ws.drop_last()) + ws.last()
    }
}

pub proof fn lemma_cat_take_step(ws: Seq<Seq<SymModel>>, t: int)
    requires
        0 <= t < ws.len(),
    ensures
        cat_args(ws.take(t + 1)) == cat_args(ws.take(t)) + ws[t],
{
    assert(ws.take(t + 1).drop_last() =~= ws.take(t));
    assert(ws.take(t + 1).last() == ws[t]);
}

pub proof fn lemma_cat_head(ws: Seq<Seq<SymModel>>)
    requires
        ws.len() >= 1,
    ensures
        cat_args(ws) == ws[0] + cat_args(ws.skip(1)),
    decreases ws.len(),
{
    if ws.len() == 1 {
        assert(ws.drop_last().len() == 0);
        assert(ws.skip(1).len() == 0);
        assert(cat_args(ws.drop_last()) =~= Seq::empty());
        assert(cat_args(ws.skip(1)) =~= Seq::empty());
        assert(cat_args(ws) == cat_args(ws.drop_last()) + ws.last());
        assert(cat_args(ws) =~= ws[0] + cat_args(ws.skip(1)));
    } else {
        lemma_cat_head(ws.drop_last());
        assert(ws.drop_last()[0] == ws[0]);
        assert(ws.drop_last().skip(1) =~= ws.skip(1).drop_last());
        assert(ws.skip(1).last() == ws.last());
        assert(ws.skip(1).len() >= 1);
        assert(cat_args(ws.skip(1)) == cat_args(ws.skip(1).drop_last()) + ws.skip(1).last());
        assert(cat_args(ws) == cat_args(ws.drop_last()) + ws.last());
        assert(cat_args(ws.drop_last()) == ws[0] + cat_args(ws.skip(1).drop_last()));
        let x = ws[0];
        let y = cat_args(ws.skip(1).drop_last());
        let z = ws.last();
        assert((x + y) + z =~= x + (y + z));
        assert(cat_args(ws) =~= ws[0] + cat_args(ws.skip(1)));
    }
}

/// A stretch of a sequence that is the concatenation of complete words scans
/// as exactly that many subtrees.
pub proof fn lemma_cat_scan(s: Seq<SymModel>, i: int, parts: Seq<Seq<SymModel>>)
    requires
        0 <= i,
        i + cat_args(parts).len() <= s.len(),
        s.subrange(i, i + cat_args(parts).len() as int) == cat_args(parts),
        forall|t: int| 0 <= t < parts.len() ==> complete(#[trigger] parts[t]),
    ensures
        scan(s, i, parts.len() as int) == i + cat_args(parts).len(),
    decreases parts.len(),
{
    if parts.len() == 0 {
        assert(scan(s, i, 0) == i);
    } else {
        lemma_cat_head(parts);
        let p0 = parts[0];
        let l0 = p0.len() as int;
        let cat = cat_args(parts);
        assert(complete(p0));
        assert(p0.len() >= 1) by {
            assert(bal(p0, 0) == 1);
        }
        assert(s.subrange(i, i + l0) =~= p0) by {
            assert forall|m: int| 0 <= m < l0 implies s.subrange(i, i + l0)[m] == p0[m] by {
                assert(s.subrange(i, i + cat.len() as int)[m] == cat[m]);
                assert(cat[m] == p0[m]);
            }
        }
        assert forall|m: int| 0 <= m <= l0 implies delta(s, i, i + m) == delta(p0, 0, m) by {
            lemma_delta_subrange(s, i, i + l0, 0, m);
        }
        assert forall|m: int| i <= m < i + l0 implies 1 + delta(s, i, m) >= 1 by {
            assert(bal(p0, m - i) >= 1);
        }
        assert(1 + delta(s, i, i + l0) == 0) by {
            assert(bal(p0, l0) == 0);
        }
        lemma_scan_first(s, i, 1, i + l0);
        lemma_scan_decompose(s, i, 1, parts.len() - 1);
        let rest = parts.skip(1);
        assert(s.subrange(i + l0, i + l0 + cat_args(rest).len() as int) =~= cat_args(rest)) by {
            assert forall|m: int| 0 <= m < cat_args(rest).len() implies s.subrange(
                i + l0,
                i + l0 + cat_args(rest).len() as int,
            )[m] == cat_args(rest)[m] by {
                assert(s.subrange(i, i + cat.len() as int)[l0 + m] == cat[l0 + m]);
                assert(cat[l0 + m] == cat_args(rest)[m]);
            }
        }
        lemma_cat_scan(s, i + l0, rest);
    }
}

/// A word made of an operator symbol followed by as many complete arguments
/// as its arity asks for is complete.
pub proof fn lemma_op_complete(s: Seq<SymModel>, parts: Seq<Seq<SymModel>>)
    requires
        s.len() >= 1,
        sym_arity(s[0]) == parts.len(),
        s.skip(1) == cat_args(parts),
        forall|t: int| 0 <= t < parts.len() ==> complete(#[trigger] parts[t]),
    ensures
        complete(s),
{
    assert(s.subrange(1, 1 + cat_args(parts).len() as int) =~= s.skip(1));
    lemma_cat_scan(s, 1, parts);
    assert(scan(s, 0, 1) == scan(s, 1, sym_arity(s[0]) as int));
    lemma_scan_complete(s);
}

/// The argument subtrees found by scanning `k` complete subtrees from
/// position `i`.
pub open spec fn args_from(s: Seq<SymModel>, i: int, k: nat) -> Seq<Seq<SymModel>>
    decreases k,
{
    if k == 0 {
        Seq::empty()
    } else {
        let e = wend(s, i);
        if e < 0 {
            Seq::empty()
        } else {
            seq![s.subrange(i, e)] + args_from(s, e, (k - 1) as nat)
        }
    }
}

/// A successful scan of one subtree found a complete word.
pub proof fn lemma_scan_sub_complete(s: Seq<SymModel>, i: int)
    requires
        0 <= i <= s.len(),
        wend(s, i) >= 0,
    ensures
        i + 1 <= wend(s, i) <= s.len(),
        complete(sub_at(s, i)),
        sub_at(s, i).len() == wend(s, i) - i,
{
    lemma_scan_props(s, i, 1);
    let e = wend(s, i);
    let sub = sub_at(s, i);
    assert forall|m: int| 0 <= m <= sub.len() implies bal(sub, m) == 1 + delta(s, i, i + m) by {
        lemma_delta_subrange(s, i, e, 0, m);
    }
    assert(bal(sub, sub.len() as int) == 0);
    assert forall|m: int| 0 <= m < sub.len() implies bal(sub, m) >= 1 by {
        assert(1 + delta(s, i, i + m) >= 1);
    }
}

/// A successful scan of `k` subtrees decomposes the scanned stretch into `k`
/// complete argument words.
pub proof fn lemma_args_cat(s: Seq<SymModel>, i: int, k: nat)
    requires
        0 <= i <= s.len(),
        scan(s, i, k as int) != -1,
    ensures
        args_from(s, i, k).len() == k,
        forall|t: int| 0 <= t < k ==> complete(#[trigger] args_from(s, i, k)[t]),
        cat_args(args_from(s, i, k)) == s.subrange(i, scan(s, i, k as int)),
        i <= scan(s, i, k as int) <= s.len(),
    decreases k,
{
    lemma_scan_props(s, i, k as int);
    if k == 0 {
        assert(args_from(s, i, k).len() == 0);
        assert(cat_args(args_from(s, i, k)) =~= s.subrange(i, i));
    } else {
        lemma_scan_decompose(s, i, 1, k - 1);
        let e = wend(s, i);
        if e == -1 {
            assert(scan(s, i, k as int) == -1);
        }
        lemma_scan_sub_complete(s, i);
        lemma_args_cat(s, e, (k - 1) as nat);
        let ps = args_from(s, i, k);
        let rest = args_from(s, e, (k - 1) as nat);
        assert(ps == seq![s.subrange(i, e)] + rest);
        assert(ps.len() == k);
        lemma_cat_head(ps);
        assert(ps[0] == s.subrange(i, e));
        assert(ps.skip(1) =~= rest);
        assert forall|t: int| 0 <= t < k implies complete(#[trigger] ps[t]) by {
            if t > 0 {
                assert(ps[t] == rest[t - 1]);
            }
        }
        let end = scan(s, i, k as int);
        assert(cat_args(ps) == s.subrange(i, e) + s.subrange(e, end));
        assert(s.subrange(i, e) + s.subrange(e, end) =~= s.subrange(i, end));
    }
}

/// A complete word whose head needs no arguments is that one symbol.
pub proof fn lemma_var_word(s: Seq<SymModel>)
    requires
        complete(s),
        s.len() >= 1,
        sym_arity(s[0]) == 0,
    ensures
        s.len() == 1,
        s =~= seq![s[0]],
{
    assert(delta(s, 0, 1) == delta(s, 0, 0) + sym_arity(s[0]) - 1);
    assert(bal(s, 1) == 0);
    if s.len() > 1 {
        assert(bal(s, 1) >= 1);
    }
}

/// Replacing a complete subterm of a complete word by another complete word
/// leaves the word complete.
pub proof fn lemma_splice_complete(x: Seq<SymModel>, i: int, e: int, repl: Seq<SymModel>)
    requires
        complete(x),
        0 <= i < e <= x.len(),
        complete(x.subrange(i, e)),
        complete(repl),
    ensures
        complete(x.subrange(0, i) + repl + x.subrange(e, x.len() as int)),
{
    let p = x.subrange(0, i);
    let q = x.subrange(e, x.len() as int);
    let s = x.subrange(i, e);
    let y = p + repl + q;
    let rl = repl.len() as int;
    assert(y.len() == i + rl + q.len());
    assert(repl.len() >= 1) by {
        assert(bal(repl, 0) == 1);
    }
    assert forall|m: int| 0 <= m <= i implies delta(y, 0, m) == delta(x, 0, m) by {
        lemma_delta_subrange(y, 0, i, 0, m);
        lemma_delta_subrange(x, 0, i, 0, m);
        assert(y.subrange(0, i) =~= p);
    }
    assert forall|l: int| 0 <= l <= rl implies delta(y, i, i + l) == delta(repl, 0, l) by {
        lemma_delta_subrange(y, i, i + rl, 0, l);
        assert(y.subrange(i, i + rl) =~= repl);
    }
    assert forall|l: int| 0 <= l <= q.len() implies delta(y, i + rl, i + rl + l) == #[trigger] delta(
        x,
        e,
        e + l,
    ) by {
        lemma_delta_subrange(y, i + rl, y.len() as int, 0, l);
        assert(y.subrange(i + rl, y.len() as int) =~= q);
        lemma_delta_subrange(x, e, x.len() as int, 0, l);
    }
    assert(delta(x, i, e) == -1) by {
        lemma_delta_subrange(x, i, e, 0, e - i);
        assert(bal(s, s.len() as int) == 0);
        assert(x.subrange(i, e).len() == e - i);
    }
    assert forall|m: int| 0 <= m < y.len() implies bal(y, m) >= 1 by {
        if m <= i {
            assert(delta(y, 0, m) == delta(x, 0, m));
            assert(bal(x, m) >= 1);
        } else if m < i + rl {
            let l = m - i;
            lemma_delta_concat(y, 0, i, m);
            assert(delta(y, i, i + l) == delta(repl, 0, l));
            assert(delta(y, 0, i) == delta(x, 0, i));
            assert(bal(x, i) >= 1);
            assert(bal(repl, l) >= 1);
        } else {
            let l = m - i - rl;
            lemma_delta_concat(y, 0, i + rl, m);
            lemma_delta_concat(y, 0, i, i + rl);
            assert(delta(y, i, i + rl) == delta(repl, 0, rl));
            assert(delta(y, 0, i) == delta(x, 0, i));
            assert(delta(y, i + rl, i + rl + l) == delta(x, e, e + l));
            assert(bal(repl, rl) == 0);
            lemma_delta_concat(x, 0, i, e);
            lemma_delta_concat(x, 0, e, e + l);
            assert(bal(x, e + l) >= 1);
        }
    }
    assert(bal(y, y.len() as int) == 0) by {
        let l = q.len() as int;
        lemma_delta_concat(y, 0, i + rl, y.len() as int);
        lemma_delta_concat(y, 0, i, i + rl);
        assert(delta(y, i, i + rl) == delta(repl, 0, rl));
        assert(delta(y, 0, i) == delta(x, 0, i));
        assert(y.len() == i + rl + l);
        assert(delta(y, i + rl, i + rl + l) == delta(x, e, e + l));
        assert(bal(repl, rl) == 0);
        lemma_delta_concat(x, 0, i, e);
        lemma_delta_concat(x, 0, e, e + l);
        assert(e + l == x.len());
        assert(bal(x, x.len() as int) == 0);
    }
}

/// A slice of a word holds no more occurrences of a variable than the word.
pub proof fn lemma_count_subrange(s: Seq<SymModel>, i: int, e: int, id: Seq<char>)
    requires
        0 <= i <= e <= s.len(),
    ensures
        count_var(s.subrange(i, e), id) <= count_var(s, id),
{
    assert(s =~= s.subrange(0, i) + s.subrange(i, e) + s.subrange(e, s.len() as int));
    lemma_count_concat(s.subrange(0, i) + s.subrange(i, e), s.subrange(e, s.len() as int), id);
    lemma_count_concat(s.subrange(0, i), s.subrange(i, e), id);
}

/// A variable occurs somewhere exactly when its count is positive.
pub proof fn lemma_count_occurs(s: Seq<SymModel>, id: Seq<char>)
    ensures
        (count_var(s, id) > 0) == (exists|j: int|
            0 <= j < s.len() && s[j] == (SymModel::Var { id })),
    decreases s.len(),
{
    if s.len() > 0 {
        lemma_count_occurs(s.drop_last(), id);
        if s.last() == (SymModel::Var { id }) {
            assert(s[s.len() - 1] == (SymModel::Var { id }));
        } else if count_var(s.drop_last(), id) > 0 {
            let j = choose|j: int|
                0 <= j < s.drop_last().len() && s.drop_last()[j] == (SymModel::Var { id });
            assert(s[j] == (SymModel::Var { id }));
        } else {
            assert forall|j: int| 0 <= j < s.len() implies s[j] != (SymModel::Var { id }) by {
                if j < s.len() - 1 {
                    assert(s.drop_last()[j] == s[j]);
                }
            }
        }
    }
}

} // verus!
