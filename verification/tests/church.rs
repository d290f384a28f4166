//! Church numerals.
use m3lc::Term;

fn mkvar(s: &str) -> Term {
    Term::Var(s.to_string())
}

fn lam(p: &str, rule: Term) -> Term {
    Term::Lam { param: p.to_string(), rule: Box::new(rule) }
}

fn appl(left: Term, right: Term) -> Term {
    Term::Appl { left: Box::new(left), right: Box::new(right) }
}

#[test]
fn church_zero() {
    let got = Term::from_usize(0);
    let expected = lam("f", lam("a", mkvar("a")));
    assert_eq!(got, expected);
}

#[test]
fn three() {
    let got = Term::from_usize(3);
    let expected = lam(
        "f",
        lam(
            "a",
            appl(mkvar("f"), appl(mkvar("f"), appl(mkvar("f"), mkvar("a")))),
        ),
    );
    assert_eq!(got, expected);
}

#[test]
fn zero() {
    let zero = Term::from_usize(0);
    let one = lam("f", lam("a", appl(mkvar("f"), mkvar("a"))));
    assert!(zero.succ().alpha_equiv(&one));
}

#[test]
fn seventeen() {
    let seventeen = Term::from_usize(17);
    assert!(seventeen.succ().alpha_equiv(&Term::from_usize(18)));
}

fn roundtrip(n: usize) {
    let term = Term::from_usize(n);
    assert_eq!(term.to_usize().unwrap(), n);
}

#[test]
fn roundtrip_zero() {
    roundtrip(0);
}

#[test]
fn roundtrip_one() {
    roundtrip(1);
}

#[test]
fn roundtrip_two() {
    roundtrip(2);
}

#[test]
fn roundtrip_three() {
    roundtrip(3);
}

#[test]
fn roundtrip_seventeen() {
    roundtrip(17);
}

#[test]
fn roundtrip_one_forty_three() {
    roundtrip(143);
}

#[test]
fn one_weird_names() {
    let term = lam("f.1234", lam("qwerty", appl(mkvar("f.1234"), mkvar("qwerty"))));
    assert_eq!(term.to_usize().unwrap(), 1);
}

#[test]
fn three_weird_names() {
    let term = lam(
        "per.3141",
        lam(
            "aspera.5965",
            appl(
                mkvar("per.3141"),
                appl(mkvar("per.3141"), appl(mkvar("per.3141"), mkvar("aspera.5965"))),
            ),
        ),
    );
    assert_eq!(term.to_usize().unwrap(), 3);
}

#[test]
fn inconsistent_names() {
    let term = lam("g", lam("a", appl(mkvar("g"), appl(mkvar("f"), mkvar("a")))));
    assert!(term.to_usize().is_err());
}

#[test]
fn identity_is_no_numeral() {
    let term = lam("x", mkvar("x"));
    assert!(term.to_usize().is_err());
}

#[test]
fn shadowed_binders_are_not_numerals() {
    // fn x => fn x => x x: both occurrences refer to the inner binder,
    // so the term is no numeral at all
    let term = lam("x", lam("x", appl(mkvar("x"), mkvar("x"))));
    assert!(term.to_usize().is_err());
    assert!(!term.alpha_equiv(&Term::from_usize(1)));
}

#[test]
fn shadowed_binder_zero() {
    // fn x => fn x => x is the numeral zero up to renaming
    let term = lam("x", lam("x", mkvar("x")));
    assert_eq!(term.to_usize().unwrap(), 0);
    assert!(term.alpha_equiv(&Term::from_usize(0)));
}

#[test]
fn decode_agrees_with_alpha_equivalence() {
    // whatever the binders are named, decoding succeeds exactly on the
    // terms alpha-equivalent to a canonical numeral
    let candidates = vec![
        lam("f", lam("a", mkvar("a"))),
        lam("g", lam("b", appl(mkvar("g"), mkvar("b")))),
        lam("x", lam("x", appl(mkvar("x"), mkvar("x")))),
        lam("f", lam("a", appl(mkvar("a"), mkvar("a")))),
        lam("x", mkvar("x")),
    ];
    for term in &candidates {
        let decoded = term.to_usize();
        let equiv = (0..5).find(|&n| term.alpha_equiv(&Term::from_usize(n)));
        match (decoded, equiv) {
            (Ok(n), Some(m)) => assert_eq!(n, m),
            (Err(_), None) => {}
            (got, want) => panic!("decode {:?} but alpha-equivalent to {:?}", got, want),
        }
    }
}
