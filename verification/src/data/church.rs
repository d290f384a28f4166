//! The Church numerals.
use vstd::prelude::*;

use crate::alpha::{alpha_equiv_spec, alpha_var_spec};
use crate::fresh::init_counter;
use crate::grammar::{tsize, Term, TermX};
use crate::reduce::{is_irreducible_spec, norm_spec, normalizes};

verus! {

/// The body of the Church numeral `n`: `f (f ... (f a))`, with `n`
/// applications of `f`.
pub open spec fn church_body_spec(n: nat) -> TermX
    decreases n,
{
    if n == 0 {
        TermX::Var(seq!['a'])
    } else {
        TermX::Appl {
            left: Box::new(TermX::Var(seq!['f'])),
            right: Box::new(church_body_spec((n - 1) as nat)),
        }
    }
}

/// The Church numeral `n`: `fn f => fn a => f (f ... (f a))`.
pub open spec fn church_spec(n: nat) -> TermX {
    TermX::Lam {
        param: seq!['f'],
        rule: Box::new(TermX::Lam { param: seq!['a'], rule: Box::new(church_body_spec(n)) }),
    }
}

/// The successor function on Church numerals:
/// `fn n => fn f => fn a => f (n f a)`.
pub open spec fn succ_spec() -> TermX {
    TermX::Lam {
        param: seq!['n'],
        rule: Box::new(
            TermX::Lam {
                param: seq!['f'],
                rule: Box::new(
                    TermX::Lam {
                        param: seq!['a'],
                        rule: Box::new(
                            TermX::Appl {
                                left: Box::new(TermX::Var(seq!['f'])),
                                right: Box::new(
                                    TermX::Appl {
                                        left: Box::new(
                                            TermX::Appl {
                                                left: Box::new(TermX::Var(seq!['n'])),
                                                right: Box::new(TermX::Var(seq!['f'])),
                                            },
                                        ),
                                        right: Box::new(TermX::Var(seq!['a'])),
                                    },
                                ),
                            },
                        ),
                    },
                ),
            },
        ),
    }
}

/// The successor function applied to a term.
pub open spec fn succ_app_spec(t: TermX) -> TermX {
    TermX::Appl { left: Box::new(succ_spec()), right: Box::new(t) }
}

/// How many nested applications of `f` the body of a candidate Church
/// numeral holds: a right-nested chain of `f`-applications ending in
/// `a`, or nothing if the term has any other shape.  When the two
/// binders carry the same name, every occurrence in the body refers to
/// the inner one, so only the bare `a` — the numeral zero — qualifies;
/// with distinct binders this count agrees exactly with
/// alpha-equivalence to the canonical numerals
/// ([`lemma_church_value_alpha`]).
pub open spec fn church_count_spec(body: TermX, f: Seq<char>, a: Seq<char>) -> Option<nat>
    decreases body,
{
    match body {
        TermX::Var(x) => if x == a {
            Some(0)
        } else {
            None
        },
        TermX::Appl { left, right } => {
            if f != a && *left == TermX::Var(f) {
                match church_count_spec(*right, f, a) {
                    Some(n) => Some((n + 1) as nat),
                    None => None,
                }
            } else {
                None
            }
        },
        TermX::Lam { .. } => None,
    }
}

/// The Church numeral a term encodes, if any: `fn f => fn a => body`
/// with `body` a chain of `f`-applications ending in `a`.
pub open spec fn church_value_spec(t: TermX) -> Option<nat> {
    match t {
        TermX::Lam { param: f, rule } => match *rule {
            TermX::Lam { param: a, rule: body } => church_count_spec(*body, f, a),
            _ => None,
        },
        _ => None,
    }
}

/// The binder context a candidate numeral is compared under: its own
/// two parameters paired with the canonical `f` and `a`.
spec fn church_ctx(f: Seq<char>, a: Seq<char>) -> Seq<(Seq<char>, Seq<char>)> {
    seq![(f, seq!['f']), (a, seq!['a'])]
}

/// Under the paired binders, the structural count of a candidate body
/// coincides with alpha-equivalence to the canonical numeral body.
proof fn lemma_church_count_alpha(body: TermX, f: Seq<char>, a: Seq<char>, n: nat)
    ensures
        (church_count_spec(body, f, a) == Some(n)) <==> alpha_equiv_spec(
            body,
            church_body_spec(n),
            church_ctx(f, a),
        ),
    decreases body,
{
    reveal_with_fuel(alpha_var_spec, 4);
    reveal_with_fuel(alpha_equiv_spec, 3);
    let ctx = church_ctx(f, a);
    assert(ctx.last() == ((a, seq!['a'])));
    assert(ctx.drop_last() =~= seq![(f, seq!['f'])]);
    assert(seq![(f, seq!['f'])].last() == ((f, seq!['f'])));
    assert(seq![(f, seq!['f'])].drop_last() =~= Seq::<(Seq<char>, Seq<char>)>::empty());
    assert((seq!['a'])[0] == 'a' && (seq!['f'])[0] == 'f');
    assert(seq!['a'] != seq!['f']);
    match body {
        TermX::Var(x) => {
            if n == 0 {
                assert(alpha_var_spec(ctx, x, seq!['a']) == (x == a));
            } else {
                assert(church_body_spec(n) is Appl);
            }
        },
        TermX::Appl { left, right } => {
            if n == 0 {
                assert(church_body_spec(0) is Var);
                if church_count_spec(body, f, a) == Some(0nat) {
                    assert(false);
                }
            } else {
                assert(church_body_spec(n) == (TermX::Appl {
                    left: Box::new(TermX::Var(seq!['f'])),
                    right: Box::new(church_body_spec((n - 1) as nat)),
                }));
                // the left side pairs with the canonical `f` exactly
                // when it is this term's own `f` and the binders differ
                match *left {
                    TermX::Var(y) => {
                        if y == a {
                            assert(!alpha_var_spec(ctx, y, seq!['f']));
                        } else {
                            let tail = seq![(f, seq!['f'])];
                            assert(alpha_var_spec(tail, y, seq!['f']) == (y == f));
                            assert(alpha_var_spec(ctx, y, seq!['f']) == alpha_var_spec(
                                tail,
                                y,
                                seq!['f'],
                            ));
                        }
                        assert(alpha_equiv_spec(*left, TermX::Var(seq!['f']), ctx) == (y == f
                            && y != a));
                    },
                    TermX::Lam { .. } => {
                        assert(!alpha_equiv_spec(*left, TermX::Var(seq!['f']), ctx));
                    },
                    TermX::Appl { .. } => {
                        assert(!alpha_equiv_spec(*left, TermX::Var(seq!['f']), ctx));
                    },
                }
                lemma_church_count_alpha(*right, f, a, (n - 1) as nat);
            }
        },
        TermX::Lam { .. } => {
            if n == 0 {
                assert(church_body_spec(0) is Var);
            } else {
                assert(church_body_spec(n) is Appl);
            }
        },
    }
}

/// What the structural recognizer accepts is exactly what spec'd
/// recognition by comparison against canonical encodings accepts: a
/// term decodes to `n` precisely when it is alpha-equivalent to the
/// Church numeral `n`.
pub proof fn lemma_church_value_alpha(t: TermX, n: nat)
    ensures
        (church_value_spec(t) == Some(n)) <==> alpha_equiv_spec(
            t,
            church_spec(n),
            Seq::empty(),
        ),
{
    reveal_with_fuel(alpha_equiv_spec, 3);
    match t {
        TermX::Lam { param: f, rule } => {
            match *rule {
                TermX::Lam { param: a, rule: body } => {
                    let empty = Seq::<(Seq<char>, Seq<char>)>::empty();
                    assert(empty.push((f, seq!['f'])).push((a, seq!['a'])) =~= church_ctx(
                        f,
                        a,
                    ));
                    lemma_church_count_alpha(*body, f, a, n);
                },
                TermX::Var(_) => {
                    assert(!alpha_equiv_spec(t, church_spec(n), Seq::empty()));
                },
                TermX::Appl { .. } => {
                    assert(!alpha_equiv_spec(t, church_spec(n), Seq::empty()));
                },
            }
        },
        TermX::Var(_) => {},
        TermX::Appl { .. } => {},
    }
}

/// The `Term` is not a Church numeral.
#[derive(Debug)]
pub struct NotChurchNum;

impl Term {
    /// Build the Church numeral for `n`.
    pub fn from_usize(n: usize) -> (r: Term)
        ensures
            r@ == church_spec(n as nat),
    {
        proof {
            reveal_strlit("a");
            reveal_strlit("f");
        }
        let mut out = Term::Var(String::from_str("a"));
        proof {
            assert("a"@ =~= seq!['a']);
            assert(out@ == church_body_spec(0));
        }
        let mut i: usize = 0;
        while i < n
            invariant
                i <= n,
                out@ == church_body_spec(i as nat),
            decreases n - i,
        {
            out = Term::Appl {
                left: Box::new(Term::Var(String::from_str("f"))),
                right: Box::new(out),
            };
            proof {
                reveal_strlit("f");
                reveal_with_fuel(crate::grammar::term_view, 3);
                assert("f"@ =~= seq!['f']);
                assert(out@ == church_body_spec(i as nat + 1));
            }
            i = i + 1;
        }
        let r = Term::Lam {
            param: String::from_str("f"),
            rule: Box::new(Term::Lam { param: String::from_str("a"), rule: Box::new(out) }),
        };
        proof {
            reveal_with_fuel(crate::grammar::term_view, 4);
            assert("f"@ =~= seq!['f']);
            assert(r@ == church_spec(n as nat));
        }
        r
    }

    /// Build the successor function `fn n => fn f => fn a => f (n f a)`.
    pub fn succ_term() -> (r: Term)
        ensures
            r@ == succ_spec(),
    {
        proof {
            reveal_strlit("n");
            reveal_strlit("f");
            reveal_strlit("a");
        }
        let body = Term::Appl {
            left: Box::new(Term::Var(String::from_str("f"))),
            right: Box::new(
                Term::Appl {
                    left: Box::new(
                        Term::Appl {
                            left: Box::new(Term::Var(String::from_str("n"))),
                            right: Box::new(Term::Var(String::from_str("f"))),
                        },
                    ),
                    right: Box::new(Term::Var(String::from_str("a"))),
                },
            ),
        };
        let r = Term::Lam {
            param: String::from_str("n"),
            rule: Box::new(
                Term::Lam {
                    param: String::from_str("f"),
                    rule: Box::new(
                        Term::Lam { param: String::from_str("a"), rule: Box::new(body) },
                    ),
                },
            ),
        };
        proof {
            reveal_with_fuel(crate::grammar::term_view, 8);
            assert("n"@ =~= seq!['n']);
            assert("f"@ =~= seq!['f']);
            assert("a"@ =~= seq!['a']);
            assert(r@ == succ_spec());
        }
        r
    }

    /// Compute the successor of a Church numeral, by applying the
    /// successor function and reducing to normal form.
    pub fn succ(self) -> (r: Term)
        requires
            normalizes(succ_app_spec(self@), init_counter(succ_app_spec(self@))),
        ensures
            r@ == norm_spec(succ_app_spec(self@), init_counter(succ_app_spec(self@))).0,
            is_irreducible_spec(r@),
    {
        let app = Term::Appl { left: Box::new(Term::succ_term()), right: Box::new(self) };
        app.reduce()
    }

    /// Read the term back as a Church numeral: `Ok(n)` exactly when the
    /// term is alpha-equivalent to the canonical numeral
    /// `fn f => fn a => f (f ... (f a))` with `n` applications of `f`.
    /// Fails on every other term, and on the (practically unbuildable)
    /// chains longer than `usize` can count.
    pub fn to_usize(&self) -> (r: Result<usize, NotChurchNum>)
        ensures
            match r {
                Ok(n) => church_value_spec(self@) == Some(n as nat),
                Err(_) => church_value_spec(self@) is None || (church_value_spec(self@)
                    matches Some(v) && v > usize::MAX),
            },
            match r {
                Ok(n) => alpha_equiv_spec(self@, church_spec(n as nat), Seq::empty()),
                Err(_) => forall|k: nat|
                    k <= usize::MAX ==> !alpha_equiv_spec(
                        self@,
                        #[trigger] church_spec(k),
                        Seq::empty(),
                    ),
            },
    {
        let structural = self.decode_structural();
        proof {
            match structural {
                Ok(n) => {
                    lemma_church_value_alpha(self@, n as nat);
                },
                Err(_) => {
                    assert forall|k: nat| k <= usize::MAX implies !alpha_equiv_spec(
                        self@,
                        #[trigger] church_spec(k),
                        Seq::empty(),
                    ) by {
                        lemma_church_value_alpha(self@, k);
                    }
                },
            }
        }
        structural
    }

    /// The structural scan behind [`Term::to_usize`]: walk the chain of
    /// `f`-applications down to `a`.
    fn decode_structural(&self) -> (r: Result<usize, NotChurchNum>)
        ensures
            match r {
                Ok(n) => church_value_spec(self@) == Some(n as nat),
                Err(_) => church_value_spec(self@) is None || (church_value_spec(self@)
                    matches Some(v) && v > usize::MAX),
            },
    {
        match self {
            Term::Lam { param: f, rule } => {
                match &**rule {
                    Term::Lam { param: a, rule: body } => {
                        let ghost body0 = (**body)@;
                        let distinct = !(&*f).eq(a);
                        let mut curr: &Term = &**body;
                        let mut n: usize = 0;
                        proof {
                            reveal_with_fuel(crate::grammar::term_view, 3);
                            assert(self@ == (TermX::Lam {
                                param: f@,
                                rule: Box::new(
                                    TermX::Lam { param: a@, rule: Box::new(body0) },
                                ),
                            }));
                        }
                        loop
                            invariant
                                distinct == (f@ != a@),
                                church_value_spec(self@) == church_count_spec(body0, f@, a@),
                                match church_count_spec(curr@, f@, a@) {
                                    Some(m) => church_count_spec(body0, f@, a@) == Some(
                                        (n + m) as nat,
                                    ),
                                    None => church_count_spec(body0, f@, a@) is None,
                                },
                            decreases tsize(curr@),
                        {
                            match curr {
                                Term::Appl { left, right } => {
                                    proof {
                                        assert(curr@ == (TermX::Appl {
                                            left: Box::new((**left)@),
                                            right: Box::new((**right)@),
                                        }));
                                    }
                                    let is_f = match &**left {
                                        Term::Var(x) => (&*x).eq(f),
                                        Term::Lam { .. } => false,
                                        Term::Appl { .. } => false,
                                    };
                                    if !distinct || !is_f {
                                        return Err(NotChurchNum);
                                    }
                                    if n == usize::MAX {
                                        return Err(NotChurchNum);
                                    }
                                    n = n + 1;
                                    curr = &**right;
                                },
                                Term::Var(x) => {
                                    if (&*x).eq(a) {
                                        return Ok(n);
                                    } else {
                                        return Err(NotChurchNum);
                                    }
                                },
                                Term::Lam { .. } => {
                                    return Err(NotChurchNum);
                                },
                            }
                        }
                    },
                    Term::Var(_) => Err(NotChurchNum),
                    Term::Appl { .. } => Err(NotChurchNum),
                }
            },
            Term::Var(_) => Err(NotChurchNum),
            Term::Appl { .. } => Err(NotChurchNum),
        }
    }
}

} // verus!
