//! Alpha-equivalence checking.
use m3lc::Term;

fn mkvar(s: &str) -> Term {
    Term::Var(s.to_string())
}

fn lam(p: &str, rule: Term) -> Term {
    Term::Lam { param: p.to_string(), rule: Box::new(rule) }
}

fn appl(left: Term, right: Term) -> Term {
    Term::Appl { left: Box::new(left), right: Box::new(right) }
}

#[test]
fn identical() {
    assert!(lam("x", mkvar("x")).alpha_equiv(&lam("x", mkvar("x"))));
}

#[test]
fn simple_lam() {
    assert!(lam("x", mkvar("x")).alpha_equiv(&lam("y", mkvar("y"))));
}

#[test]
fn different_binding() {
    // only one side's occurrence refers to the binder
    assert!(!lam("x", mkvar("x")).alpha_equiv(&lam("y", mkvar("x"))));
}

#[test]
fn free_vars() {
    // different free variables are not alpha-equivalent
    assert!(!lam("x", appl(mkvar("x"), mkvar("y")))
        .alpha_equiv(&lam("x", appl(mkvar("x"), mkvar("z")))));
}

#[test]
fn different_structure() {
    assert!(!lam("x", mkvar("y")).alpha_equiv(&appl(mkvar("x"), mkvar("y"))));
}

#[test]
fn nested_lam() {
    assert!(lam("x", lam("y", mkvar("z"))).alpha_equiv(&lam("x", lam("y", mkvar("z")))));
}

#[test]
fn nested_lam_different_names() {
    assert!(lam("x", lam("y", mkvar("z"))).alpha_equiv(&lam("a", lam("b", mkvar("z")))));
}

#[test]
fn shadowed_binders() {
    // fn x => fn x => x pairs with fn a => fn b => b, not fn a => fn b => a
    let t = lam("x", lam("x", mkvar("x")));
    assert!(t.alpha_equiv(&lam("a", lam("b", mkvar("b")))));
    assert!(!t.alpha_equiv(&lam("a", lam("b", mkvar("a")))));
}

#[test]
fn equivalence_relation_on_samples() {
    // reflexive, symmetric and transitive on a sample of terms
    let terms = vec![
        mkvar("x"),
        lam("x", mkvar("x")),
        lam("y", mkvar("y")),
        lam("x", lam("y", appl(mkvar("x"), mkvar("y")))),
        lam("a", lam("b", appl(mkvar("a"), mkvar("b")))),
        appl(mkvar("x"), mkvar("y")),
    ];
    for t in &terms {
        assert!(t.alpha_equiv(t));
    }
    for t1 in &terms {
        for t2 in &terms {
            assert_eq!(t1.alpha_equiv(t2), t2.alpha_equiv(t1));
            for t3 in &terms {
                if t1.alpha_equiv(t2) && t2.alpha_equiv(t3) {
                    assert!(t1.alpha_equiv(t3));
                }
            }
        }
    }
}
