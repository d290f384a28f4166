//! Fresh identifier generation.
use std::collections::HashSet;

use m3lc::{get_fresh_ident, NameGen, Term};

#[test]
fn foo() {
    let mut gen = NameGen::new();
    let mut uniq = HashSet::new();
    assert!((0..100).map(|_| get_fresh_ident(&mut gen, "foo")).all(|x| uniq.insert(x)));
}

#[test]
fn mixed() {
    let mut gen = NameGen::new();
    let mut uniq = HashSet::new();
    assert!([
        "hello",
        "goodbye",
        "foo",
        "bar",
        "foo",
        "goodbye",
        "World",
        "x",
        "y",
        "foo",
        "foo_world"
    ]
    .into_iter()
    .map(|s| get_fresh_ident(&mut gen, s))
    .all(|x| uniq.insert(x)));
}

#[test]
fn fresh_name_shape() {
    let mut gen = NameGen::new();
    assert_eq!(get_fresh_ident(&mut gen, "foo"), "foo.1");
    assert_eq!(get_fresh_ident(&mut gen, "bar"), "bar.2");
}

#[test]
fn fresh_name_strips_old_suffix() {
    // renaming an already-renamed variable does not pile up suffixes
    let mut gen = NameGen::new();
    assert_eq!(get_fresh_ident(&mut gen, "foo.814"), "foo.1");
}

#[test]
fn for_term_skips_existing_stamps() {
    // the generator starts above any stamp the term already carries
    let term = Term::Var("x.7".to_string());
    let mut gen = NameGen::for_term(&term);
    let fresh = get_fresh_ident(&mut gen, "x");
    assert_ne!(fresh, "x.7");
}
