use std::cmp::Ordering;

use alpmver::vercomp;
use alpmver::atend;

fn samples() -> Vec<&'static str> {
    vec![
        "", "0", "1", "2", "9", "10", "1.0", "1.0.0", "1.0.1", "1.05", "1.5", "1..0", "1a", "1b",
        "a", "ab", "b", "1.a", "1.1", "2.0", "0.5", "00", "007", "7", "1-1", "1_1", "alpha",
        "beta", "1.0a", "1.0rc1", "3:1", "2:9",
    ]
}

#[test]
fn reflexive_on_samples() {
    for v in samples() {
        assert_eq!(vercomp(v, v), Ordering::Equal, "compare({:?}, {:?})", v, v);
    }
}

#[test]
fn antisymmetric_on_samples() {
    for a in samples() {
        for b in samples() {
            let fwd = vercomp(a, b);
            let bwd = vercomp(b, a);
            assert_eq!(fwd.reverse(), bwd, "compare({:?}, {:?}) vs swapped", a, b);
        }
    }
}

#[test]
fn transitive_on_samples() {
    let vs = samples();
    for a in &vs {
        for b in &vs {
            for c in &vs {
                let ab = vercomp(a, b);
                let bc = vercomp(b, c);
                if ab != Ordering::Greater && bc != Ordering::Greater {
                    assert_ne!(
                        vercomp(a, c),
                        Ordering::Greater,
                        "transitivity broke on {:?} {:?} {:?}",
                        a,
                        b,
                        c
                    );
                }
            }
        }
    }
}

// The induced order is total but not transitive on pathological inputs:
// the trailing-remainder rule makes a lone separator beat a lone letter
// run and lose to a lone digit run, while separator-length comparison
// puts the digit run below the letter run.  This is accepted legacy
// behaviour; ordinary version strings (the samples above) stay
// transitive.
#[test]
fn intransitive_on_pathological_separators() {
    assert_eq!(vercomp("1", ".a"), Ordering::Less);
    assert_eq!(vercomp(".a", "."), Ordering::Less);
    assert_eq!(vercomp("1", "."), Ordering::Greater);
}

#[test]
fn identical_strings_equal() {
    assert_eq!(vercomp("1.2.3-4", "1.2.3-4"), Ordering::Equal);
    assert_eq!(vercomp("", ""), Ordering::Equal);
    assert_eq!(vercomp("--..", "--.."), Ordering::Equal);
    assert_eq!(vercomp("a1b2", "a1b2"), Ordering::Equal);
}

#[test]
fn digit_run_outranks_letter_run() {
    assert_eq!(vercomp("1.1", "1.a"), Ordering::Greater);
    assert_eq!(vercomp("1.a", "1.1"), Ordering::Less);
    assert_eq!(vercomp("1a", "1.0"), Ordering::Less);
}

#[test]
fn leading_zeros_do_not_matter() {
    assert_eq!(vercomp("1.05", "1.5"), Ordering::Equal);
    assert_eq!(vercomp("007", "7"), Ordering::Equal);
    assert_eq!(vercomp("00", "0"), Ordering::Equal);
    assert_eq!(vercomp("010", "9"), Ordering::Greater);
}

#[test]
fn separator_runs_compare_by_length() {
    assert_eq!(vercomp("1.0", "1..0"), Ordering::Less);
    assert_eq!(vercomp("1..0", "1.0"), Ordering::Greater);
    assert_eq!(vercomp("1._-0", "1.0"), Ordering::Greater);
    assert_eq!(vercomp("1.0", "1_0"), Ordering::Equal);
}

#[test]
fn huge_numeric_runs_compare_by_value() {
    let a = "340282366920938463463374607431768211456";
    let b = "340282366920938463463374607431768211455";
    assert_eq!(vercomp(a, b), Ordering::Greater);
    assert_eq!(vercomp(b, a), Ordering::Less);
    assert_eq!(vercomp(a, a), Ordering::Equal);
    assert_eq!(vercomp("099", "100"), Ordering::Less);
}

#[test]
fn trailing_remainder_rule() {
    assert_eq!(vercomp("1.0a", "1.0"), Ordering::Less);
    assert_eq!(vercomp("1.0", "1.0a"), Ordering::Greater);
    assert_eq!(vercomp("1.0.1", "1.0"), Ordering::Greater);
    assert_eq!(vercomp("1.0", "1.0.1"), Ordering::Less);
    assert_eq!(vercomp("1.", "1"), Ordering::Greater);
    assert_eq!(vercomp("1", "1."), Ordering::Less);
}

#[test]
fn letters_compare_lexicographically() {
    assert_eq!(vercomp("alpha", "beta"), Ordering::Less);
    assert_eq!(vercomp("a", "ab"), Ordering::Less);
    assert_eq!(vercomp("B", "a"), Ordering::Less);
    assert_eq!(vercomp("b", "ab"), Ordering::Greater);
}

#[test]
fn at_end_checks_either_side() {
    assert!(atend("", ""));
    assert!(atend("", "x"));
    assert!(atend("x", ""));
    assert!(!atend("x", "y"));
}
