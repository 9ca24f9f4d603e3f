use knuth_bendix::completion::KbResult;
use knuth_bendix::completion::knuth_bendix;
use knuth_bendix::prod::Word;
use knuth_bendix::prod::inv;
use knuth_bendix::prod::one;
use knuth_bendix::prod::var;

fn assoc_axiom() -> (Word, Word) {
    let x = var("x");
    let y = var("y");
    let z = var("z");
    (x.mul(&y).mul(&z), x.mul(&y.mul(&z)))
}

#[test]
fn single_identity_rule() {
    // x * 1 = x orients into the single rule x * 1 -> x
    let x = var("x");
    let axioms = vec![(x.mul(&one()), x.clone_word())];
    match knuth_bendix(&axioms, 50) {
        KbResult::Converged(rules) => {
            assert_eq!(rules.len(), 1);
            assert_eq!(rules[0].0, x.mul(&one()));
            assert_eq!(rules[0].1, x);
        },
        KbResult::Stuck(ax) => panic!("stuck on {:?}", ax),
        KbResult::GaveUp => panic!("gave up"),
    }
}

#[test]
fn monoid_identities() {
    // associativity with the two identity laws: completion must orient the
    // identity axioms into rules and must not get stuck
    let x = var("x");
    let axioms = vec![
        assoc_axiom(),
        (x.mul(&one()), x.clone_word()),
        (one().mul(&x), x.clone_word()),
    ];
    let result = knuth_bendix(&axioms, 200);
    match result {
        KbResult::Stuck(ax) => panic!("stuck on {:?}", ax),
        KbResult::GaveUp => panic!("gave up"),
        KbResult::Converged(rules) => {
            let right_identity = (x.mul(&one()), x.clone_word());
            let left_identity = (one().mul(&x), x.clone_word());
            assert!(rules.iter().any(|r| r.0 == right_identity.0 && r.1 == right_identity.1));
            assert!(rules.iter().any(|r| r.0 == left_identity.0 && r.1 == left_identity.1));
            for (l, r) in rules.iter() {
                assert_eq!(l.partial_cmp(r), Some(std::cmp::Ordering::Greater));
            }
        },
    }
}

#[test]
fn orientation_failure() {
    // two distinct bare variables cannot be oriented: completion reports
    // the axiom instead of pretending to converge
    let x = var("x");
    let y = var("y");
    let axioms = vec![(x.clone_word(), y.clone_word())];
    match knuth_bendix(&axioms, 10) {
        KbResult::Stuck(ax) => {
            assert_eq!(ax.0, x);
            assert_eq!(ax.1, y);
        },
        KbResult::Converged(_) => panic!("converged on an unorientable axiom"),
        KbResult::GaveUp => panic!("gave up instead of reporting the axiom"),
    }
}

#[test]
fn bounded_divergence() {
    // a group-like presentation with a bound too small to finish: the
    // bound turns the open-ended run into an explicit giveup
    let x = var("x");
    let axioms = vec![
        assoc_axiom(),
        (one().mul(&x), x.clone_word()),
        (inv(&x).mul(&x), one()),
    ];
    match knuth_bendix(&axioms, 2) {
        KbResult::GaveUp => {},
        KbResult::Converged(_) => panic!("converged within two steps"),
        KbResult::Stuck(ax) => panic!("stuck on {:?}", ax),
    }
}

#[test]
fn trivial_axioms_converge_empty() {
    let x = var("x");
    let axioms = vec![(x.mul(&one()), x.mul(&one()))];
    match knuth_bendix(&axioms, 10) {
        KbResult::Converged(rules) => assert_eq!(rules.len(), 0),
        _ => panic!("a trivial axiom must be discarded"),
    }
}

#[test]
fn no_axioms_converge_empty() {
    let axioms: Vec<(Word, Word)> = Vec::new();
    match knuth_bendix(&axioms, 5) {
        KbResult::Converged(rules) => assert_eq!(rules.len(), 0),
        _ => panic!("nothing to do must converge"),
    }
}
