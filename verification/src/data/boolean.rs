//! The Church booleans.
use vstd::prelude::*;

use crate::fresh::init_counter;
use crate::grammar::{Term, TermX};
use crate::alpha::alpha_equiv_spec;
use crate::reduce::{is_irreducible_spec, norm_spec, normalizes};

verus! {

/// The encoding of truth: `fn t => fn e => t`.
pub open spec fn true_spec() -> TermX {
    TermX::Lam {
        param: seq!['t'],
        rule: Box::new(TermX::Lam { param: seq!['e'], rule: Box::new(TermX::Var(seq!['t'])) }),
    }
}

/// The encoding of falsehood: `fn t => fn e => e`.
pub open spec fn false_spec() -> TermX {
    TermX::Lam {
        param: seq!['t'],
        rule: Box::new(TermX::Lam { param: seq!['e'], rule: Box::new(TermX::Var(seq!['e'])) }),
    }
}

/// Conjunction on the encoded booleans: `fn a => fn b => a b FALSE`.
pub open spec fn and_spec() -> TermX {
    TermX::Lam {
        param: seq!['a'],
        rule: Box::new(
            TermX::Lam {
                param: seq!['b'],
                rule: Box::new(
                    TermX::Appl {
                        left: Box::new(
                            TermX::Appl {
                                left: Box::new(TermX::Var(seq!['a'])),
                                right: Box::new(TermX::Var(seq!['b'])),
                            },
                        ),
                        right: Box::new(false_spec()),
                    },
                ),
            },
        ),
    }
}

/// The conjunction function applied to two terms.
pub open spec fn and_app_spec(t1: TermX, t2: TermX) -> TermX {
    TermX::Appl {
        left: Box::new(TermX::Appl { left: Box::new(and_spec()), right: Box::new(t1) }),
        right: Box::new(t2),
    }
}

/// The `Term` is not an encoded boolean.
#[derive(Debug)]
pub struct NotBool;

impl Term {
    /// Build the encoding of a boolean.
    pub fn from_bool(b: bool) -> (r: Term)
        ensures
            r@ == if b {
                true_spec()
            } else {
                false_spec()
            },
    {
        proof {
            reveal_strlit("t");
            reveal_strlit("e");
        }
        let body = if b {
            Term::Var(String::from_str("t"))
        } else {
            Term::Var(String::from_str("e"))
        };
        let r = Term::Lam {
            param: String::from_str("t"),
            rule: Box::new(Term::Lam { param: String::from_str("e"), rule: Box::new(body) }),
        };
        proof {
            reveal_with_fuel(crate::grammar::term_view, 4);
            assert("t"@ =~= seq!['t']);
            assert("e"@ =~= seq!['e']);
            assert(r@ == if b { true_spec() } else { false_spec() });
        }
        r
    }

    /// Build the conjunction function `fn a => fn b => a b FALSE`.
    pub fn and_term() -> (r: Term)
        ensures
            r@ == and_spec(),
    {
        proof {
            reveal_strlit("a");
            reveal_strlit("b");
        }
        let body = Term::Appl {
            left: Box::new(
                Term::Appl {
                    left: Box::new(Term::Var(String::from_str("a"))),
                    right: Box::new(Term::Var(String::from_str("b"))),
                },
            ),
            right: Box::new(Term::from_bool(false)),
        };
        let r = Term::Lam {
            param: String::from_str("a"),
            rule: Box::new(Term::Lam { param: String::from_str("b"), rule: Box::new(body) }),
        };
        proof {
            reveal_with_fuel(crate::grammar::term_view, 6);
            assert("a"@ =~= seq!['a']);
            assert("b"@ =~= seq!['b']);
            assert(r@ == and_spec());
        }
        r
    }

    /// Read the term back as a boolean, up to alpha-equivalence with
    /// the two encodings.
    pub fn to_bool(&self) -> (r: Result<bool, NotBool>)
        ensures
            match r {
                Ok(b) => if b {
                    alpha_equiv_spec(self@, true_spec(), Seq::empty())
                } else {
                    !alpha_equiv_spec(self@, true_spec(), Seq::empty())
                        && alpha_equiv_spec(self@, false_spec(), Seq::empty())
                },
                Err(_) => !alpha_equiv_spec(self@, true_spec(), Seq::empty())
                    && !alpha_equiv_spec(self@, false_spec(), Seq::empty()),
            },
    {
        let t = Term::from_bool(true);
        if self.alpha_equiv(&t) {
            Ok(true)
        } else {
            let f = Term::from_bool(false);
            if self.alpha_equiv(&f) {
                Ok(false)
            } else {
                Err(NotBool)
            }
        }
    }

    /// Conjoin two encoded booleans: apply `fn a => fn b => a b FALSE`
    /// to both and reduce to normal form.
    pub fn and(self, other: Self) -> (r: Term)
        requires
            normalizes(and_app_spec(self@, other@), init_counter(and_app_spec(self@, other@))),
        ensures
            r@ == norm_spec(
                and_app_spec(self@, other@),
                init_counter(and_app_spec(self@, other@)),
            ).0,
            is_irreducible_spec(r@),
    {
        let ghost s0 = self@;
        let ghost o0 = other@;
        let app = Term::Appl {
            left: Box::new(
                Term::Appl { left: Box::new(Term::and_term()), right: Box::new(self) },
            ),
            right: Box::new(other),
        };
        proof {
            reveal_with_fuel(crate::grammar::term_view, 3);
            assert(app@ == and_app_spec(s0, o0));
        }
        app.reduce()
    }
}

} // verus!
