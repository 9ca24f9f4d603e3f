use std::cmp::Ordering;

use knuth_bendix::sum::negate;
use knuth_bendix::sum::var;
use knuth_bendix::sum::zero;

#[test]
fn sum_well_formed() {
    let a = var("a");
    let p = a.add(&zero());
    assert!(a.is_well_formed());
    assert!(p.is_well_formed());
}

#[test]
fn sum_subwords() {
    let a = var("a");
    let b = var("b");
    let c = var("c");
    let d = var("d");
    let p = a.add(&b).add(&c).add(&d).add(&zero());

    let mut sw = p.subwords();
    while let Some(w) = sw.next() {
        println!("{:?}", w);
    }
}

#[test]
fn sum_display() {
    let a = var("a");
    let b = var("b");
    let ab = a.add(&b);
    let aab = a.add(&ab);
    let aab_left = a.add(&a).add(&b);
    let negateaab = negate(&aab);
    let negatezero = negate(&zero());
    println!("{:?}", ab);
    println!("{:?}", aab);
    println!("{:?}", aab_left);
    println!("{:?}", negateaab);
    println!("{:?}", negatezero);
}

#[test]
fn sum_eq() {
    let a = var("a");
    let b = var("b");
    let c = var("c");
    let d = var("d");
    let ab = a.add(&b);
    let cd = c.add(&d);
    let aa = a.add(&a);
    let bb = b.add(&b);
    assert!(ab != cd);
    assert!(aa != bb);
    assert!(aa != ab);
    assert_eq!(ab, ab);
}

#[test]
fn sum_partial_cmp() {
    let o = zero();
    let a = var("a");
    let b = var("b");
    let c = var("c");
    let negatec = negate(&c);
    let negatenegatec = negate(&negate(&c));
    assert_eq!(o.partial_cmp(&o), Some(Ordering::Equal));
    assert_eq!(o.partial_cmp(&a), None);
    assert_eq!(a.partial_cmp(&o), None);
    assert_eq!(a.partial_cmp(&a), Some(Ordering::Equal));
    assert_eq!(a.partial_cmp(&b), None);
    let ab = a.add(&b);
    let abc = ab.add(&c);
    assert_eq!(o.partial_cmp(&ab), Some(Ordering::Less));
    assert_eq!(ab.partial_cmp(&abc), Some(Ordering::Less));
    let aa = a.add(&a);
    assert_eq!(aa.partial_cmp(&ab), None);
    assert_eq!(negatec.partial_cmp(&c), Some(Ordering::Greater));
    assert_eq!(negatec.partial_cmp(&negatenegatec), Some(Ordering::Less));
}
