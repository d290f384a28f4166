//! Reduction to beta-normal form.
use m3lc::{to_term, Term};

fn mkvar(s: &str) -> Term {
    Term::Var(s.to_string())
}

#[test]
fn reduce_var() {
    assert_eq!(mkvar("x").reduce(), mkvar("x"));
}

#[test]
fn simple_lam_appl() {
    let input = Term::Appl {
        left: Box::new(Term::Lam { param: "x".to_string(), rule: Box::new(mkvar("x")) }),
        right: Box::new(mkvar("z")),
    };
    assert_eq!(input.reduce(), mkvar("z"));
}

#[test]
fn lam_appl_const() {
    let input = Term::Appl {
        left: Box::new(Term::Lam { param: "x".to_string(), rule: Box::new(mkvar("y")) }),
        right: Box::new(mkvar("z")),
    };
    assert_eq!(input.reduce(), mkvar("y"));
}

#[test]
fn reduce_lam_app_lam() {
    let identity = || Term::Lam { param: "x".to_string(), rule: Box::new(mkvar("x")) };
    let input = Term::Appl {
        left: Box::new(Term::Appl {
            left: Box::new(identity()),
            right: Box::new(identity()),
        }),
        right: Box::new(mkvar("a")),
    };
    assert_eq!(input.reduce(), mkvar("a"));
}

fn reduces_to(input: &str, expected: &str) {
    let got = to_term(input).unwrap().reduce();
    let want = to_term(expected).unwrap();
    assert!(got.alpha_equiv(&want), "{} reduced to {}", input, got.render());
}

#[test]
fn nested_sub() {
    reduces_to("(fn f => fn a => f) x", "fn a => x");
}

#[test]
fn order_matters() {
    reduces_to("(fn f => fn a => f (f a)) (fn q => r) a b", "r b");
}

#[test]
fn many_renames() {
    reduces_to("(fn f => fn y => fn x => x (y f)) y x f", "f (x y)");
}

#[test]
fn lazy_eval() {
    // normal order never forces the diverging argument
    reduces_to("(fn t => fn e => t) x ((fn x => x x)(fn x => x x))", "x");
}

#[test]
fn y_combinator() {
    reduces_to(
        "(fn g => ((fn y => g (y y)) (fn y => g (y y))))
         (fn f => fn x => x q (f (fn t => fn e => t))) (fn t => fn e => e)",
        "q",
    );
}

#[test]
fn renamed_binder_avoids_capture() {
    // (fn x => fn y => x) y: the bound y must be renamed, so the free y
    // stays free in the normal form fn y' => y.
    let input = Term::Appl {
        left: Box::new(Term::Lam {
            param: "x".to_string(),
            rule: Box::new(Term::Lam { param: "y".to_string(), rule: Box::new(mkvar("x")) }),
        }),
        right: Box::new(mkvar("y")),
    };
    let expected = Term::Lam { param: "w".to_string(), rule: Box::new(mkvar("y")) };
    let got = input.reduce();
    assert!(got.alpha_equiv(&expected), "got {}", got.render());
}

#[test]
fn fibbit() {
    // fib of the Church numeral ten, via pair-encoded iteration
    let input = "(fn n => (fn p => p (fn t => fn e => t)) (n (fn p => (fn a => fn b => fn s => s a b) ((fn p => p (fn t => fn e => e)) p) ((fn m => fn n => m (fn n => fn f => fn x => f (n f x)) n) ((fn p => p (fn t => fn e => t)) p) ((fn p => p (fn t => fn e => e)) p))) ((fn a => fn b => fn s => s a b) (fn f => fn x => x) ((fn n => fn f => fn x => f (n f x)) (fn f => fn x => x))))) (fn f => fn x => f (f (f (f (f (f (f (f (f (f x))))))))))";
    let expected = "fn f => fn x => f (f (f (f (f (f (f (f (f (f (f (f (f (f (f (f (f (f (f (f (f (f (f (f (f (f (f (f (f (f (f (f (f (f (f (f (f (f (f (f (f (f (f (f (f (f (f (f (f (f (f (f (f (f (f (x)))))))))))))))))))))))))))))))))))))))))))))))))))))))";
    reduces_to(input, expected);
}
