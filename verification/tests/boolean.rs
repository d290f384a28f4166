//! Church booleans.
use m3lc::Term;

#[test]
fn true_and_true() {
    let got = Term::from_bool(true).and(Term::from_bool(true));
    assert!(got.alpha_equiv(&Term::from_bool(true)));
}

#[test]
fn true_and_false() {
    let got = Term::from_bool(true).and(Term::from_bool(false));
    assert!(got.alpha_equiv(&Term::from_bool(false)));
}

#[test]
fn false_and_true() {
    let got = Term::from_bool(false).and(Term::from_bool(true));
    assert!(got.alpha_equiv(&Term::from_bool(false)));
}

#[test]
fn false_and_false() {
    let got = Term::from_bool(false).and(Term::from_bool(false));
    assert!(got.alpha_equiv(&Term::from_bool(false)));
}

#[test]
fn to_bool_true() {
    assert_eq!(Term::from_bool(true).to_bool().unwrap(), true);
}

#[test]
fn to_bool_false() {
    // a renamed encoding still counts
    let renamed = Term::Lam {
        param: "p".to_string(),
        rule: Box::new(Term::Lam {
            param: "q".to_string(),
            rule: Box::new(Term::Var("q".to_string())),
        }),
    };
    assert_eq!(renamed.to_bool().unwrap(), false);
}

#[test]
fn to_bool_rejects_other_terms() {
    let identity = Term::Lam {
        param: "x".to_string(),
        rule: Box::new(Term::Var("x".to_string())),
    };
    assert!(identity.to_bool().is_err());
}
