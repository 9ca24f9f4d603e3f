use std::cmp::Ordering;

use knuth_bendix::prod::Prod;
use knuth_bendix::prod::inv;
use knuth_bendix::prod::one;
use knuth_bendix::prod::var;
use knuth_bendix::word::Word;

#[test]
fn prod_well_formed() {
    let a = var("a");
    let p = a.mul(&one());
    assert!(a.is_well_formed());
    assert!(p.is_well_formed());
}

#[test]
fn prod_subwords() {
    let a = var("a");
    let b = var("b");
    let c = var("c");
    let d = var("d");
    let p = a.mul(&b).mul(&c).mul(&d).mul(&one());

    let mut sw = p.subwords();
    while let Some(w) = sw.next() {
        println!("{:?}", w);
    }
}

#[test]
fn prod_display() {
    let a = var("a");
    let b = var("b");
    let ab = a.mul(&b);
    let aab = a.mul(&ab);
    let aab_left = a.mul(&a).mul(&b);
    let invaab = inv(&aab);
    let invone = inv(&one());
    println!("{:?}", ab);
    println!("{:?}", aab);
    println!("{:?}", aab_left);
    println!("{:?}", invaab);
    println!("{:?}", invone);
}

#[test]
fn prod_eq() {
    let a = var("a");
    let b = var("b");
    let c = var("c");
    let d = var("d");
    let ab = a.mul(&b);
    let cd = c.mul(&d);
    let aa = a.mul(&a);
    let bb = b.mul(&b);
    assert!(ab != cd);
    assert!(aa != bb);
    assert!(aa != ab);
    assert_eq!(ab, ab);
}

#[test]
fn prod_partial_cmp() {
    let o = one();
    let a = var("a");
    let b = var("b");
    let c = var("c");
    let invc = inv(&c);
    let invinvc = inv(&inv(&c));
    assert_eq!(o.partial_cmp(&o), Some(Ordering::Equal));
    assert_eq!(o.partial_cmp(&a), None);
    assert_eq!(a.partial_cmp(&o), None);
    assert_eq!(a.partial_cmp(&a), Some(Ordering::Equal));
    assert_eq!(a.partial_cmp(&b), None);
    let ab = a.mul(&b);
    let abc = ab.mul(&c);
    assert_eq!(o.partial_cmp(&ab), Some(Ordering::Less));
    assert_eq!(ab.partial_cmp(&abc), Some(Ordering::Less));
    let aa = a.mul(&a);
    assert_eq!(aa.partial_cmp(&ab), None);
    assert_eq!(invc.partial_cmp(&c), Some(Ordering::Greater));
    assert_eq!(invc.partial_cmp(&invinvc), Some(Ordering::Less));
}

#[test]
fn prod_weights() {
    let a = var("a");
    let b = var("b");
    assert_eq!(a.weight(), 1);
    assert_eq!(one().weight(), 1);
    assert_eq!(inv(&a).weight(), 1);
    assert_eq!(a.mul(&b).weight(), 3);
    let aa = a.mul(&a);
    assert_eq!(aa.n(&"a".to_string()), 2);
    assert_eq!(aa.n(&"b".to_string()), 0);
}

#[test]
fn prod_arity_mismatch() {
    let a = var("a");
    let r = Word::op(Prod::Mul, &[a]);
    match r {
        Ok(_) => panic!("a product of one argument was built"),
        Err(e) => {
            assert_eq!(e.expected, 2);
            assert_eq!(e.got, 1);
        },
    }
}

#[test]
fn ordering_is_strict_partial_order() {
    // reflexivity in Equal, antisymmetry, and transitivity on concrete words
    let o = one();
    let a = var("a");
    let b = var("b");
    let c = var("c");
    let ab = a.mul(&b);
    let abc = ab.mul(&c);
    assert_eq!(ab.partial_cmp(&ab), Some(Ordering::Equal));
    assert_eq!(abc.partial_cmp(&ab), Some(Ordering::Greater));
    assert_eq!(ab.partial_cmp(&abc), Some(Ordering::Less));
    assert_eq!(ab.partial_cmp(&o), Some(Ordering::Greater));
    assert_eq!(o.partial_cmp(&ab), Some(Ordering::Less));
    assert_eq!(abc.partial_cmp(&o), Some(Ordering::Greater));
}
