use knuth_bendix::critical::critical_term;
use knuth_bendix::prod::inv;
use knuth_bendix::prod::one;
use knuth_bendix::subst::Subst;
use knuth_bendix::sum::negate;
use knuth_bendix::sum::var;

#[test]
fn subst() {
    let a = var("a");
    let b = var("b");
    let c = var("c");
    let bc = b.add(&c);
    let mut vars = Subst::new();
    vars.insert("a".to_string(), bc.clone_word());
    assert_eq!(a.subst(&vars), bc);
}

#[test]
fn unify() {
    let a = var("a");
    let b = var("b");
    let c = var("c");
    let bc = b.add(&c);
    if let Some(subs) = a.unify(&bc) {
        for (v, w) in subs.pairs.iter() {
            println!("{} -> {:?}", v, w);
        }
    }
}

#[test]
fn critical() {
    let t = negate(&var("x")).add(&var("x"));
    let u = var("x").add(&var("y")).add(&var("z"));
    println!("t: {:?}", t);
    println!("u: {:?}", u);
    if let Some(ct) = critical_term(&t, &u) {
        println!("critical term: {:?}", ct);
    } else {
        println!("no critical term found");
    }
}

#[test]
fn unify_applies_both_ways() {
    // the unifier of two words with no variables in common turns each word
    // into the second one
    let t = var("x").add(&negate(&var("y")));
    let u = var("a").add(&negate(&zero_sum()));
    let subs = t.unify(&u).expect("these words unify");
    assert_eq!(t.subst(&subs), u);
    assert_eq!(u.subst(&subs), u);
}

fn zero_sum() -> knuth_bendix::sum::Word {
    knuth_bendix::sum::zero()
}

#[test]
fn unify_conflict() {
    // f(x, x) against f(a, b) for distinct ground terms a and b: the second
    // occurrence of x conflicts with the first binding
    let x = knuth_bendix::prod::var("x");
    let t = x.mul(&x);
    let ca = one();
    let cb = inv(&one());
    let u = ca.mul(&cb);
    assert!(t.unify(&u).is_none());
    // the same shape with both arguments alike unifies
    let w = ca.mul(&one());
    let subs = t.unify(&w).expect("equal arguments unify");
    assert_eq!(t.subst(&subs), w);
}

#[test]
fn unify_is_not_symmetric() {
    // an operator application does not unify against a bare variable; the
    // caller tries the other order
    let x = var("x");
    let ab = var("a").add(&var("b"));
    assert!(ab.unify(&x).is_none());
    assert!(x.unify(&ab).is_some());
}

#[test]
fn subwords_are_the_arguments() {
    let a = var("a");
    let b = var("b");
    let ab = a.add(&b);
    let w = negate(&ab).add(&a);
    let mut sw = w.subwords();
    assert_eq!(sw.next(), Some(negate(&ab)));
    assert_eq!(sw.next(), Some(a.clone_word()));
    assert_eq!(sw.next(), None);
}

#[test]
fn critical_term_is_reducible() {
    // negate(x) + x overlaps (x + y) + z inside the left argument; the
    // critical term is an instance of both words
    let t = negate(&var("x")).add(&var("x"));
    let u = var("u1").add(&var("u2")).add(&var("u3"));
    let ct = critical_term(&t, &u).expect("the words overlap");
    // the overlap instantiates the whole of `u`, so the critical term is
    // reducible at the root by a rule with left side `u`
    let m = u.unify(&ct).expect("the critical term is an instance of u");
    assert_eq!(u.subst(&m), ct);
}

#[test]
fn occurs_check_rejects_cycles() {
    // binding x to a word that contains x would make substitution loop, so
    // unification refuses it
    let x = var("x");
    let nx = negate(&x);
    assert!(x.unify(&nx).is_none());
    // a variable still unifies with itself
    let subs = x.unify(&x).expect("a variable unifies with itself");
    assert_eq!(x.subst(&subs), x);
}

#[test]
fn bare_variable_has_no_subwords() {
    let x = var("x");
    let mut sw = x.subwords();
    assert_eq!(sw.next(), None);
}
