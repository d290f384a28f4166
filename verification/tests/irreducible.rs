//! The irreducibility test.
use m3lc::Term;

fn mkvar(s: &str) -> Term {
    Term::Var(s.to_string())
}

#[test]
fn var() {
    assert!(mkvar("x").is_irreducible());
}

#[test]
fn lam() {
    assert!(Term::Lam { param: "x".to_string(), rule: Box::new(mkvar("y")) }.is_irreducible());
}

#[test]
fn lam_reducible_rule() {
    assert!(!Term::Lam {
        param: "x".to_string(),
        rule: Box::new(Term::Appl {
            left: Box::new(Term::Lam { param: "x".to_string(), rule: Box::new(mkvar("x")) }),
            right: Box::new(mkvar("z")),
        }),
    }
    .is_irreducible());
}

#[test]
fn lam_appl() {
    assert!(!Term::Appl {
        left: Box::new(Term::Lam { param: "x".to_string(), rule: Box::new(mkvar("x")) }),
        right: Box::new(mkvar("z")),
    }
    .is_irreducible());
}

#[test]
fn lam_app_lam() {
    let identity = || Term::Lam { param: "x".to_string(), rule: Box::new(mkvar("x")) };
    assert!(!Term::Appl {
        left: Box::new(Term::Appl {
            left: Box::new(identity()),
            right: Box::new(identity()),
        }),
        right: Box::new(mkvar("a")),
    }
    .is_irreducible());
}
