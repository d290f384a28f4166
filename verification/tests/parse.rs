//! Parsing the textual syntax.
use m3lc::{to_file, to_term, Defn, File, Term};

fn mkvar(s: &str) -> Term {
    Term::Var(s.to_string())
}

fn lam(p: &str, rule: Term) -> Term {
    Term::Lam { param: p.to_string(), rule: Box::new(rule) }
}

fn appl(left: Term, right: Term) -> Term {
    Term::Appl { left: Box::new(left), right: Box::new(right) }
}

#[test]
fn identity() {
    assert_eq!(to_term("fn x => x").unwrap(), lam("x", mkvar("x")));
}

#[test]
fn one() {
    assert_eq!(
        to_term("fn f => fn a => f a").unwrap(),
        lam("f", lam("a", appl(mkvar("f"), mkvar("a"))))
    );
}

#[test]
fn succ() {
    assert_eq!(
        to_term("fn n => fn f => fn a => f (n f a)").unwrap(),
        lam(
            "n",
            lam("f", lam("a", appl(mkvar("f"), appl(appl(mkvar("n"), mkvar("f")), mkvar("a")))))
        )
    );
}

#[test]
fn yc() {
    let half = || lam("x", appl(mkvar("g"), appl(mkvar("x"), mkvar("x"))));
    assert_eq!(
        to_term("fn g => (fn x => g (x x)) (fn x => g (x x))").unwrap(),
        lam("g", appl(half(), half()))
    );
}

#[test]
fn add() {
    assert_eq!(
        to_term("fn n => fn m => n succ m").unwrap(),
        lam("n", lam("m", appl(appl(mkvar("n"), mkvar("succ")), mkvar("m"))))
    );
}

#[test]
fn right_associative() {
    assert_eq!(
        to_term("x (y z)").unwrap(),
        appl(mkvar("x"), appl(mkvar("y"), mkvar("z")))
    );
}

#[test]
fn left_associative() {
    assert_eq!(
        to_term("(x y) z").unwrap(),
        appl(appl(mkvar("x"), mkvar("y")), mkvar("z"))
    );
}

#[test]
fn no_period_in_ident() {
    assert!(to_term(".").is_err());
    assert!(to_term("fn x.1 => x.1").is_err());
}

#[test]
fn file() {
    let input = "\
        ident := fn x => x;\n\
        zero := fn f => fn a => a;\n\
        main := ident zero;\
    ";
    let defns = vec![
        Defn::new("ident".to_string(), lam("x", mkvar("x"))),
        Defn::new("zero".to_string(), lam("f", lam("a", mkvar("a")))),
    ];
    let main = appl(mkvar("ident"), mkvar("zero"));
    let expected = File::new(defns, main);
    assert_eq!(to_file(input).unwrap(), expected);
}

#[test]
fn file_with_comments() {
    assert!(to_file("# comment\nfn f => x").is_ok());
}

#[test]
fn parse_errors() {
    assert!(to_term("").is_err());
    assert!(to_term("(x").is_err());
    assert!(to_term("fn => x").is_err());
    assert!(to_term("fn x =>").is_err());
    assert!(to_term("x y )").is_err());
    assert!(to_file("ident := fn x => x;").is_err());
}

#[test]
fn keywords_are_reserved() {
    assert!(to_term("main").is_err());
    assert!(to_term("fn fn => x").is_err());
    assert!(to_term("fnord").is_ok());
    assert!(to_term("mainly").is_ok());
}

#[test]
fn render_parse_round_trip() {
    // parse(render(t)) gives t back, for terms the grammar can write
    let terms = vec![
        mkvar("s"),
        lam("x", mkvar("x")),
        lam("f", lam("a", appl(mkvar("f"), mkvar("a")))),
        lam(
            "n",
            lam("f", lam("a", appl(mkvar("f"), appl(appl(mkvar("n"), mkvar("f")), mkvar("a"))))),
        ),
        appl(mkvar("x"), appl(mkvar("y"), mkvar("z"))),
        appl(appl(mkvar("x"), mkvar("y")), mkvar("z")),
        appl(lam("x", mkvar("x")), lam("y", mkvar("y"))),
    ];
    for t in terms {
        let parsed = to_term(&t.render()).unwrap();
        assert!(parsed.alpha_equiv(&t), "round trip changed {}", t.render());
        assert_eq!(parsed, t);
    }
}

#[test]
fn file_round_trip() {
    let input = "\
        ident := fn x => x;\n\
        zero := fn f => fn a => a;\n\
        main := ident zero;\
    ";
    let parsed = to_file(input).unwrap();
    assert_eq!(to_file(&parsed.render()).unwrap(), parsed);
}
