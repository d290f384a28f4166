//! The term model: rendering and unrolling.
use m3lc::{Defn, File, Term};

fn mkvar(s: &str) -> Term {
    Term::Var(s.to_string())
}

fn lam(p: &str, rule: Term) -> Term {
    Term::Lam { param: p.to_string(), rule: Box::new(rule) }
}

fn appl(left: Term, right: Term) -> Term {
    Term::Appl { left: Box::new(left), right: Box::new(right) }
}

#[test]
fn render_identifier() {
    assert_eq!(mkvar("s").render(), "s");
}

#[test]
fn render_identity() {
    assert_eq!(lam("x", mkvar("x")).render(), "fn x => x");
}

#[test]
fn render_one() {
    let one = lam("f", lam("a", appl(mkvar("f"), mkvar("a"))));
    assert_eq!(one.render(), "fn f => fn a => f a");
}

#[test]
fn render_succ() {
    let succ = lam(
        "n",
        lam("f", lam("a", appl(mkvar("f"), appl(appl(mkvar("n"), mkvar("f")), mkvar("a"))))),
    );
    assert_eq!(succ.render(), "fn n => fn f => fn a => f (n f a)");
}

#[test]
fn render_yc() {
    let half = || lam("x", appl(mkvar("g"), appl(mkvar("x"), mkvar("x"))));
    let yc = lam("g", appl(half(), half()));
    assert_eq!(yc.render(), "fn g => (fn x => g (x x)) (fn x => g (x x))");
}

#[test]
fn defn_display() {
    let defn = Defn::new("ident".to_string(), lam("x", mkvar("x")));
    assert_eq!(defn.render(), "ident := fn x => x");
}

#[test]
fn file_display() {
    let defns = vec![
        Defn::new("ident".to_string(), lam("x", mkvar("x"))),
        Defn::new("zero".to_string(), lam("f", lam("a", mkvar("a")))),
    ];
    let main = appl(mkvar("ident"), mkvar("zero"));
    let file = File::new(defns, main);
    let expected = "\
        ident := fn x => x;\n\
        zero := fn f => fn a => a;\n\
        main := ident zero;\
    ";
    assert_eq!(file.render(), expected);
}

#[test]
fn test_unroll() {
    let defns = vec![
        Defn::new("ident".to_string(), lam("x", mkvar("x"))),
        Defn::new("zero".to_string(), lam("f", lam("a", mkvar("a")))),
    ];
    let main = appl(mkvar("ident"), mkvar("zero"));
    let input = File::new(defns, main);
    let expected = appl(
        lam(
            "ident",
            appl(
                lam("zero", appl(mkvar("ident"), mkvar("zero"))),
                lam("f", lam("a", mkvar("a"))),
            ),
        ),
        lam("x", mkvar("x")),
    );
    assert_eq!(input.unroll(), expected);
}

#[test]
fn defn_getters() {
    let defn = Defn::new("ident".to_string(), lam("x", mkvar("x")));
    assert_eq!(defn.name(), "ident");
    assert_eq!(defn.term(), &lam("x", mkvar("x")));
}

#[test]
fn file_getters() {
    let defns = vec![Defn::new("ident".to_string(), lam("x", mkvar("x")))];
    let file = File::new(defns, mkvar("ident"));
    assert_eq!(file.defns().len(), 1);
    assert_eq!(file.defns()[0].name(), "ident");
    assert_eq!(file.main(), &mkvar("ident"));
}
