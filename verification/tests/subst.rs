//! Capture-avoiding substitution.
use m3lc::{NameGen, Term};

fn mkvar(s: &str) -> Term {
    Term::Var(s.to_string())
}

fn lam(p: &str, rule: Term) -> Term {
    Term::Lam { param: p.to_string(), rule: Box::new(rule) }
}

fn appl(left: Term, right: Term) -> Term {
    Term::Appl { left: Box::new(left), right: Box::new(right) }
}

#[test]
fn shadowing() {
    let init = lam("z", mkvar("x"));
    let mut term = lam("x", mkvar("y"));

    let mut gen = NameGen::for_term(&term);
    term.subst(&"y".to_string(), &init, &mut gen);
    // the x free in `init` must stay free, whatever the binder is named
    let expected = lam("z", lam("y", mkvar("x")));

    assert!(term.alpha_equiv(&expected), "got {}", term.render());
}

#[test]
fn no_sub() {
    let init = appl(mkvar("x"), mkvar("y"));
    let term = lam("x", mkvar("y"));

    let mut out = term.clone();
    let mut gen = NameGen::for_term(&out);
    // z is not free in `term`, so nothing is substituted
    out.subst(&"z".to_string(), &init, &mut gen);
    assert!(term.alpha_equiv(&out), "got {}", out.render());
}

#[test]
fn subst_avoids_capture() {
    // substituting y (free) for x under fn y => x must rename the binder
    let mut term = lam("y", mkvar("x"));
    let mut gen = NameGen::for_term(&term);
    term.subst(&"x".to_string(), &mkvar("y"), &mut gen);

    let expected = lam("w", mkvar("y"));
    assert!(term.alpha_equiv(&expected), "got {}", term.render());
    // the naive, capturing result would be fn y => y
    assert!(!term.alpha_equiv(&lam("y", mkvar("y"))));
}
