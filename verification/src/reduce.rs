//! Normal-order beta reduction of lambda terms.
use vstd::prelude::*;

use crate::fresh::{
    fresh_name_spec, get_fresh_ident, ident_ok, init_counter, lemma_fresh_ident_is_new,
    lemma_fresh_ident_ok, lemma_term_ok_mono, term_ok, NameGen,
};
use crate::alpha::{
    alpha_equiv_spec, alpha_var_spec, ctx_chain, ctx_reflexive, lemma_alpha_refl_free,
    lemma_alpha_trans_ctx, lemma_alpha_var_refl,
};
use crate::grammar::{free_in, tsize, Term, TermX};

verus! {

/// A term is irreducible when it contains no redex: variables always
/// are; an abstraction is iff its body is; an application whose left
/// side is an abstraction never is, and otherwise it is iff both sides
/// are.
pub open spec fn is_irreducible_spec(t: TermX) -> bool
    decreases t,
{
    match t {
        TermX::Var(_) => true,
        TermX::Lam { param: _, rule } => is_irreducible_spec(*rule),
        TermX::Appl { left, right } => if *left is Lam {
            false
        } else {
            is_irreducible_spec(*left) && is_irreducible_spec(*right)
        },
    }
}

/// Capture-avoiding substitution of `s` for the free occurrences of `x`
/// in `t`, with the fresh-name counter at `n`; yields the new term and
/// the counter after.  Substituting under an abstraction first renames
/// its bound variable to a fresh name, unconditionally, so no free
/// variable of `s` can be captured.
///
/// The size test guarding the second recursive call is always true —
/// renaming preserves the size of a term ([`lemma_subst_var_size`]) —
/// and only serves to bound the recursion.
pub open spec fn subst_spec(t: TermX, x: Seq<char>, s: TermX, n: nat) -> (TermX, nat)
    decreases tsize(t),
{
    match t {
        TermX::Var(y) => if y == x {
            (s, n)
        } else {
            (t, n)
        },
        TermX::Lam { param, rule } => {
            if param == x {
                (t, n)
            } else {
                let z = fresh_name_spec(param, n + 1);
                let (renamed, n1) = subst_spec(*rule, param, TermX::Var(z), n + 1);
                if tsize(renamed) <= tsize(*rule) {
                    let (new_rule, n2) = subst_spec(renamed, x, s, n1);
                    (TermX::Lam { param: z, rule: Box::new(new_rule) }, n2)
                } else {
                    (t, n)
                }
            }
        },
        TermX::Appl { left, right } => {
            let (l2, n1) = subst_spec(*left, x, s, n);
            let (r2, n2) = subst_spec(*right, x, s, n1);
            (TermX::Appl { left: Box::new(l2), right: Box::new(r2) }, n2)
        },
    }
}

/// Substituting one variable for another preserves the size of the
/// term; in particular the size test inside [`subst_spec`] always
/// passes when the replacement is a variable.
pub proof fn lemma_subst_var_size(t: TermX, x: Seq<char>, z: Seq<char>, n: nat)
    ensures
        tsize(subst_spec(t, x, TermX::Var(z), n).0) == tsize(t),
    decreases tsize(t),
{
    match t {
        TermX::Var(_) => {},
        TermX::Lam { param, rule } => {
            if param != x {
                let w = fresh_name_spec(param, n + 1);
                lemma_subst_var_size(*rule, param, w, n + 1);
                let (renamed, n1) = subst_spec(*rule, param, TermX::Var(w), n + 1);
                lemma_subst_var_size(renamed, x, z, n1);
            }
        },
        TermX::Appl { left, right } => {
            lemma_subst_var_size(*left, x, z, n);
            let n1 = subst_spec(*left, x, TermX::Var(z), n).1;
            lemma_subst_var_size(*right, x, z, n1);
        },
    }
}

impl Term {
    /// Check whether the term is in beta-normal form.
    pub fn is_irreducible(&self) -> (r: bool)
        ensures
            r == is_irreducible_spec(self@),
        decreases *self,
    {
        match self {
            Term::Var(_) => true,
            Term::Appl { left, right } => {
                proof {
                    assert(self@ == (TermX::Appl {
                        left: Box::new((**left)@),
                        right: Box::new((**right)@),
                    }));
                }
                if matches!(**left, Term::Lam { .. }) {
                    false
                } else {
                    left.is_irreducible() && right.is_irreducible()
                }
            },
            Term::Lam { param, rule } => {
                proof {
                    assert(self@ == (TermX::Lam { param: param@, rule: Box::new((**rule)@) }));
                }
                rule.is_irreducible()
            },
        }
    }

    /// Substitute `with` for the free occurrences of `replace` in the
    /// term, renaming bound variables with fresh names so that no free
    /// variable of `with` is captured.
    pub fn subst(&mut self, replace: &String, with: &Term, gen: &mut NameGen)
        requires
            old(gen).wf(),
        ensures
            final(gen).wf(),
            (final(self)@, final(gen)@) == subst_spec(
                old(self)@,
                replace@,
                with@,
                old(gen)@,
            ),
        decreases tsize(old(self)@),
    {
        match self {
            Term::Var(s) => {
                if (&*s).eq(replace) {
                    *self = with.clone();
                }
            },
            Term::Lam { param, rule } => {
                if (&*param).eq(replace) {
                } else {
                    let ghost rule0 = rule@;
                    let new_var = get_fresh_ident(gen, param.as_str());
                    let renaming = Term::Var(new_var.clone());
                    rule.subst(param, &renaming, gen);
                    proof {
                        lemma_subst_var_size(
                            rule0,
                            param@,
                            fresh_name_spec(param@, old(gen)@ + 1),
                            old(gen)@ + 1,
                        );
                    }
                    rule.subst(replace, with, gen);
                    *param = new_var;
                }
            },
            Term::Appl { left, right } => {
                left.subst(replace, with, gen);
                right.subst(replace, with, gen);
            },
        }
    }
}

/// Whether the root of the term is a redex: an application whose left
/// side is an abstraction.
pub open spec fn is_root_redex(t: TermX) -> bool {
    match t {
        TermX::Appl { left, right: _ } => *left is Lam,
        _ => false,
    }
}

/// Beta reduction at the root: `(fn x => t) s` becomes `t` with `s`
/// substituted for `x`.  On any other term this is the identity.
pub open spec fn beta_spec(t: TermX, n: nat) -> (TermX, nat) {
    match t {
        TermX::Appl { left, right } => match *left {
            TermX::Lam { param, rule } => subst_spec(*rule, param, *right, n),
            _ => (t, n),
        },
        _ => (t, n),
    }
}

/// One step of normal-order reduction: the beta rule at the root where
/// it applies; otherwise descend into an abstraction's body, into the
/// left side of an application while it is reducible, and into the
/// right side once the left is irreducible.
pub open spec fn step_spec(t: TermX, n: nat) -> (TermX, nat)
    decreases t,
{
    match t {
        TermX::Var(_) => (t, n),
        TermX::Lam { param, rule } => {
            let (r2, n1) = step_spec(*rule, n);
            (TermX::Lam { param, rule: Box::new(r2) }, n1)
        },
        TermX::Appl { left, right } => {
            if *left is Lam {
                beta_spec(t, n)
            } else if is_irreducible_spec(*left) {
                let (r2, n1) = step_spec(*right, n);
                (TermX::Appl { left, right: Box::new(r2) }, n1)
            } else {
                let (l2, n1) = step_spec(*left, n);
                (TermX::Appl { left: Box::new(l2), right }, n1)
            }
        },
    }
}

impl Term {
    /// Given an application with an abstraction on the left, apply the
    /// left to the right by substitution.
    pub fn apply(&mut self, gen: &mut NameGen)
        requires
            old(gen).wf(),
            is_root_redex(old(self)@),
        ensures
            final(gen).wf(),
            (final(self)@, final(gen)@) == beta_spec(old(self)@, old(gen)@),
    {
        // Swap a placeholder into `self` to take ownership of the tree;
        // the placeholder is then overwritten with the contracted redex.
        let mut taken = Term::Var(String::new());
        core::mem::swap(self, &mut taken);
        proof {
            assert(taken@ == old(self)@);
        }
        match taken {
            Term::Appl { left, right } => {
                proof {
                    assert(old(self)@ == (TermX::Appl {
                        left: Box::new((*left)@),
                        right: Box::new((*right)@),
                    }));
                }
                let lam = *left;
                let ghost lam_view = lam@;
                match lam {
                    Term::Lam { param, mut rule } => {
                        proof {
                            assert(lam_view == (TermX::Lam {
                                param: param@,
                                rule: Box::new((*rule)@),
                            }));
                        }
                        rule.subst(&param, &right, gen);
                        *self = *rule;
                    },
                    Term::Var(v) => {
                        proof {
                            assert(lam_view == TermX::Var(v@));
                            assert(false);
                        }
                    },
                    Term::Appl { left: l2, right: r2 } => {
                        proof {
                            assert(lam_view == (TermX::Appl {
                                left: Box::new((*l2)@),
                                right: Box::new((*r2)@),
                            }));
                            assert(false);
                        }
                    },
                }
            },
            Term::Var(_) => {
                proof {
                    assert(false);
                }
            },
            Term::Lam { .. } => {
                proof {
                    assert(false);
                }
            },
        }
    }

    /// Perform one step of normal-order reduction on a reducible term.
    pub fn reduction_step(&mut self, gen: &mut NameGen)
        requires
            old(gen).wf(),
            !is_irreducible_spec(old(self)@),
        ensures
            final(gen).wf(),
            (final(self)@, final(gen)@) == step_spec(old(self)@, old(gen)@),
        decreases tsize(old(self)@),
    {
        let root_redex = match self {
            Term::Appl { left, right: _ } => matches!(**left, Term::Lam { .. }),
            _ => false,
        };
        if root_redex {
            self.apply(gen);
            return ;
        }
        match self {
            Term::Var(_) => {
                proof {
                    assert(false);
                }
            },
            Term::Lam { param, rule } => {
                proof {
                    assert(old(self)@ == (TermX::Lam { param: param@, rule: Box::new((**rule)@) }));
                }
                rule.reduction_step(gen);
            },
            Term::Appl { left, right } => {
                proof {
                    assert(old(self)@ == (TermX::Appl {
                        left: Box::new((**left)@),
                        right: Box::new((**right)@),
                    }));
                }
                if left.is_irreducible() {
                    right.reduction_step(gen);
                } else {
                    left.reduction_step(gen);
                }
            },
        }
    }
}

/// The fresh-name counter never moves backwards through a substitution.
proof fn lemma_subst_counter_mono(t: TermX, x: Seq<char>, s: TermX, n: nat)
    ensures
        subst_spec(t, x, s, n).1 >= n,
    decreases tsize(t),
{
    match t {
        TermX::Var(_) => {},
        TermX::Lam { param, rule } => {
            if param != x {
                let z = fresh_name_spec(param, n + 1);
                lemma_subst_var_size(*rule, param, z, n + 1);
                lemma_subst_counter_mono(*rule, param, TermX::Var(z), n + 1);
                let (renamed, n1) = subst_spec(*rule, param, TermX::Var(z), n + 1);
                lemma_subst_counter_mono(renamed, x, s, n1);
            }
        },
        TermX::Appl { left, right } => {
            lemma_subst_counter_mono(*left, x, s, n);
            let n1 = subst_spec(*left, x, s, n).1;
            lemma_subst_counter_mono(*right, x, s, n1);
        },
    }
}

/// Substitution keeps every stamp in the result below the counter it
/// hands back.
proof fn lemma_subst_preserves_ok(t: TermX, x: Seq<char>, s: TermX, n: nat)
    requires
        term_ok(t, n),
        term_ok(s, n),
    ensures
        term_ok(subst_spec(t, x, s, n).0, subst_spec(t, x, s, n).1),
    decreases tsize(t),
{
    match t {
        TermX::Var(_) => {},
        TermX::Lam { param, rule } => {
            if param != x {
                let z = fresh_name_spec(param, n + 1);
                lemma_subst_var_size(*rule, param, z, n + 1);
                lemma_fresh_ident_ok(param, n + 1);
                lemma_term_ok_mono(*rule, n, n + 1);
                assert(term_ok(TermX::Var(z), n + 1));
                lemma_subst_preserves_ok(*rule, param, TermX::Var(z), n + 1);
                lemma_subst_counter_mono(*rule, param, TermX::Var(z), n + 1);
                let (renamed, n1) = subst_spec(*rule, param, TermX::Var(z), n + 1);
                lemma_term_ok_mono(s, n, n1);
                lemma_subst_preserves_ok(renamed, x, s, n1);
                lemma_subst_counter_mono(renamed, x, s, n1);
            }
        },
        TermX::Appl { left, right } => {
            lemma_subst_preserves_ok(*left, x, s, n);
            lemma_subst_counter_mono(*left, x, s, n);
            let n1 = subst_spec(*left, x, s, n).1;
            lemma_term_ok_mono(*right, n, n1);
            lemma_term_ok_mono(s, n, n1);
            lemma_subst_preserves_ok(*right, x, s, n1);
            lemma_subst_counter_mono(*right, x, s, n1);
            let n2 = subst_spec(*right, x, s, n1).1;
            lemma_term_ok_mono(subst_spec(*left, x, s, n).0, n1, n2);
        },
    }
}

/// Free variables of a term all carry stamps below the term's bound.
proof fn lemma_free_ident_ok(t: TermX, n: nat, w: Seq<char>)
    requires
        term_ok(t, n),
        free_in(t, w),
    ensures
        ident_ok(w, n),
    decreases t,
{
    match t {
        TermX::Var(_) => {},
        TermX::Lam { param: _, rule } => {
            lemma_free_ident_ok(*rule, n, w);
        },
        TermX::Appl { left, right } => {
            if free_in(*left, w) {
                lemma_free_ident_ok(*left, n, w);
            } else {
                lemma_free_ident_ok(*right, n, w);
            }
        },
    }
}

/// A variable free after substituting a variable for a variable was
/// either the substituted-in name, or free before and not the name
/// substituted away.
proof fn lemma_subst_var_free_source(t: TermX, y: Seq<char>, z: Seq<char>, n: nat, v: Seq<char>)
    requires
        term_ok(t, n),
        free_in(subst_spec(t, y, TermX::Var(z), n).0, v),
    ensures
        v == z || (free_in(t, v) && v != y),
    decreases tsize(t),
{
    match t {
        TermX::Var(_) => {},
        TermX::Lam { param, rule } => {
            if param != y {
                let z2 = fresh_name_spec(param, n + 1);
                lemma_subst_var_size(*rule, param, z2, n + 1);
                lemma_fresh_ident_ok(param, n + 1);
                lemma_term_ok_mono(*rule, n, n + 1);
                assert(term_ok(TermX::Var(z2), n + 1));
                lemma_subst_preserves_ok(*rule, param, TermX::Var(z2), n + 1);
                let (renamed, n1) = subst_spec(*rule, param, TermX::Var(z2), n + 1);
                lemma_subst_var_free_source(renamed, y, z, n1, v);
                if v != z && free_in(renamed, v) && v != y {
                    lemma_subst_var_free_source(*rule, param, z2, n + 1, v);
                }
            }
        },
        TermX::Appl { left, right } => {
            let (l2, n1) = subst_spec(*left, y, TermX::Var(z), n);
            let (r2, n2) = subst_spec(*right, y, TermX::Var(z), n1);
            assert(subst_spec(t, y, TermX::Var(z), n).0 == (TermX::Appl {
                left: Box::new(l2),
                right: Box::new(r2),
            }));
            assert(free_in(l2, v) || free_in(r2, v));
            if free_in(l2, v) {
                lemma_subst_var_free_source(*left, y, z, n, v);
            } else {
                lemma_subst_counter_mono(*left, y, TermX::Var(z), n);
                lemma_term_ok_mono(*right, n, n1);
                lemma_subst_var_free_source(*right, y, z, n1, v);
            }
        },
    }
}

/// A name generated with a counter beyond the stamps of a term does not
/// occur free in it.
proof fn lemma_fresh_not_free(t: TermX, n: nat, b: Seq<char>, k: nat)
    requires
        term_ok(t, n),
        k > n,
    ensures
        !free_in(t, fresh_name_spec(b, k)),
    decreases t,
{
    match t {
        TermX::Var(s) => {
            lemma_fresh_ident_is_new(s, n, b, k);
        },
        TermX::Lam { param: _, rule } => {
            lemma_fresh_not_free(*rule, n, b, k);
        },
        TermX::Appl { left, right } => {
            lemma_fresh_not_free(*left, n, b, k);
            lemma_fresh_not_free(*right, n, b, k);
        },
    }
}

/// Substitution never captures: substituting a term `s` with a free
/// variable `y` for `x` under the binder `fn y => x` renames the binder
/// to a fresh `z` first, so the result is `fn z => s` with `z != y` and
/// `z` not free in `s` — the `y` free in `s` stays free in the result
/// instead of being captured by the binder.
pub proof fn lemma_subst_avoids_capture(y: Seq<char>, x: Seq<char>, s: TermX, n: nat)
    requires
        x != y,
        free_in(s, y),
        ident_ok(y, n),
        term_ok(s, n),
    ensures
        ({
            let t = TermX::Lam { param: y, rule: Box::new(TermX::Var(x)) };
            let z = fresh_name_spec(y, n + 1);
            &&& subst_spec(t, x, s, n).0 == (TermX::Lam { param: z, rule: Box::new(s) })
            &&& z != y
            &&& !free_in(s, z)
            &&& free_in(subst_spec(t, x, s, n).0, y)
        }),
{
    let t = TermX::Lam { param: y, rule: Box::new(TermX::Var(x)) };
    let z = fresh_name_spec(y, n + 1);
    let (renamed, n1) = subst_spec(TermX::Var(x), y, TermX::Var(z), n + 1);
    assert(renamed == TermX::Var(x));
    assert(subst_spec(renamed, x, s, n1) == (s, n1));
    lemma_fresh_ident_is_new(y, n, y, n + 1);
    lemma_fresh_not_free(s, n, y, n + 1);
}

/// The common core of the substitution laws, by induction over the
/// term.  Substituting into `t` gives a term alpha-equivalent to `t`
/// under the context `ctx` in two situations: renaming (`rep` is a
/// variable `z` that the context pairs with `x`), and the no-op case
/// (`x` is not free in `t`, so `rep` never enters).  The context must
/// resolve every other free variable of `t` to itself.
proof fn lemma_subst_alpha_ctx(
    t: TermX,
    x: Seq<char>,
    rep: TermX,
    z: Seq<char>,
    n: nat,
    ctx: Seq<(Seq<char>, Seq<char>)>,
    renaming: bool,
)
    requires
        term_ok(t, n),
        ident_ok(x, n),
        renaming ==> rep == TermX::Var(z) && alpha_var_spec(ctx, z, x) && ident_ok(z, n),
        !renaming ==> !free_in(t, x),
        forall|w: Seq<char>| #[trigger] free_in(t, w) && w != x ==> alpha_var_spec(ctx, w, w),
    ensures
        alpha_equiv_spec(subst_spec(t, x, rep, n).0, t, ctx),
    decreases tsize(t),
{
    match t {
        TermX::Var(u) => {
            if u == x {
                assert(free_in(t, x));
                assert(renaming);
            } else {
                assert(free_in(t, u));
            }
        },
        TermX::Lam { param, rule } => {
            if param == x {
                assert forall|w: Seq<char>| #[trigger] free_in(t, w) implies alpha_var_spec(
                    ctx,
                    w,
                    w,
                ) by {
                    assert(w != x);
                }
                lemma_alpha_refl_free(t, ctx);
            } else {
                let z2 = fresh_name_spec(param, n + 1);
                lemma_subst_var_size(*rule, param, z2, n + 1);
                let (c1, n1) = subst_spec(*rule, param, TermX::Var(z2), n + 1);
                let (c2, n2) = subst_spec(c1, x, rep, n1);
                assert(subst_spec(t, x, rep, n).0 == (TermX::Lam {
                    param: z2,
                    rule: Box::new(c2),
                }));
                lemma_fresh_ident_ok(param, n + 1);
                lemma_term_ok_mono(*rule, n, n + 1);
                assert(term_ok(TermX::Var(z2), n + 1));
                lemma_subst_preserves_ok(*rule, param, TermX::Var(z2), n + 1);
                lemma_subst_counter_mono(*rule, param, TermX::Var(z2), n + 1);
                lemma_fresh_ident_is_new(x, n, param, n + 1);
                let refl_part = ctx.map_values(|p: (Seq<char>, Seq<char>)| (p.1, p.1));
                let ctx_b = refl_part.push((z2, param));
                let ctx_a = ctx.push((z2, z2));
                let ctx_c = ctx.push((z2, param));
                assert(ctx_reflexive(refl_part));
                // pass one: renaming the binder to the fresh name
                assert(ctx_b.drop_last() =~= refl_part);
                assert forall|w: Seq<char>| #[trigger] free_in(*rule, w) && w != param
                    implies alpha_var_spec(ctx_b, w, w) by {
                    lemma_free_ident_ok(*rule, n, w);
                    lemma_fresh_ident_is_new(w, n, param, n + 1);
                    lemma_alpha_var_refl(refl_part, w);
                }
                lemma_subst_alpha_ctx(*rule, param, TermX::Var(z2), z2, n + 1, ctx_b, true);
                // pass two: the original substitution inside the
                // renamed body
                assert(ctx_a.drop_last() =~= ctx);
                if renaming {
                    lemma_fresh_ident_is_new(z, n, param, n + 1);
                    assert(alpha_var_spec(ctx_a, z, x));
                } else {
                    if free_in(c1, x) {
                        lemma_subst_var_free_source(*rule, param, z2, n + 1, x);
                        assert(false);
                    }
                }
                assert forall|w: Seq<char>| #[trigger] free_in(c1, w) && w != x
                    implies alpha_var_spec(ctx_a, w, w) by {
                    if w == z2 {
                    } else {
                        lemma_subst_var_free_source(*rule, param, z2, n + 1, w);
                        assert(free_in(t, w));
                        lemma_free_ident_ok(*rule, n, w);
                        lemma_fresh_ident_is_new(w, n, param, n + 1);
                    }
                }
                lemma_subst_alpha_ctx(c1, x, rep, z, n1, ctx_a, renaming);
                // stitch the two passes together
                assert(ctx_chain(ctx_a, ctx_b, ctx_c)) by {
                    assert(forall|i: int|
                        0 <= i < ctx.len() ==> (#[trigger] ctx_a[i]) == ctx[i]);
                    assert(forall|i: int|
                        0 <= i < ctx.len() ==> (#[trigger] ctx_b[i]) == ((ctx[i].1, ctx[i].1)));
                    assert(forall|i: int|
                        0 <= i < ctx.len() ==> (#[trigger] ctx_c[i]) == ctx[i]);
                    assert(ctx_a[ctx.len() as int] == ((z2, z2)));
                    assert(ctx_b[ctx.len() as int] == ((z2, param)));
                    assert(ctx_c[ctx.len() as int] == ((z2, param)));
                }
                lemma_alpha_trans_ctx(c2, c1, *rule, ctx_a, ctx_b, ctx_c);
            }
        },
        TermX::Appl { left, right } => {
            let (l2, n1) = subst_spec(*left, x, rep, n);
            assert forall|w: Seq<char>| #[trigger] free_in(*left, w) && w != x
                implies alpha_var_spec(ctx, w, w) by {
                assert(free_in(t, w));
            }
            lemma_subst_alpha_ctx(*left, x, rep, z, n, ctx, renaming);
            lemma_subst_counter_mono(*left, x, rep, n);
            lemma_term_ok_mono(*right, n, n1);
            assert forall|w: Seq<char>| #[trigger] free_in(*right, w) && w != x
                implies alpha_var_spec(ctx, w, w) by {
                assert(free_in(t, w));
            }
            lemma_subst_alpha_ctx(*right, x, rep, z, n1, ctx, renaming);
        },
    }
}

/// Substituting for a variable that is not free in the term leaves the
/// term alpha-equivalent to itself, whatever is substituted in.  The
/// stamp conditions say the fresh-name counter stands above every
/// machine-generated name in sight, which every generator made by
/// [`NameGen::for_term`] and every run of reduction maintains; without
/// them a fresh binder name could collide with a name already in the
/// term.
pub proof fn lemma_subst_noop(t: TermX, x: Seq<char>, s: TermX, n: nat)
    requires
        !free_in(t, x),
        term_ok(t, n),
        ident_ok(x, n),
    ensures
        alpha_equiv_spec(subst_spec(t, x, s, n).0, t, Seq::empty()),
{
    lemma_subst_alpha_ctx(t, x, s, x, n, Seq::empty(), false);
}

/// `k` steps of normal-order reduction, stopping early at an
/// irreducible term.
pub open spec fn steps_spec(t: TermX, n: nat, k: nat) -> (TermX, nat)
    decreases k,
{
    if k == 0 || is_irreducible_spec(t) {
        (t, n)
    } else {
        let (t1, n1) = step_spec(t, n);
        steps_spec(t1, n1, (k - 1) as nat)
    }
}

/// Reduction started on `t` with the counter at `n` reaches a normal
/// form.  Terms without one — `(fn x => x x) (fn x => x x)` — do not
/// satisfy this, and reducing them would not return.
pub open spec fn normalizes(t: TermX, n: nat) -> bool {
    exists|k: nat| is_irreducible_spec(steps_spec(t, n, k).0)
}

/// The number of steps from `t` to its normal form.
pub open spec fn steps_to_normal(t: TermX, n: nat) -> nat {
    choose|k: nat|
        is_irreducible_spec(steps_spec(t, n, k).0) && forall|j: nat|
            j < k ==> !is_irreducible_spec(steps_spec(t, n, j).0)
}

/// The normal form reached from `t` with the counter at `n`, together
/// with the counter after.
pub open spec fn norm_spec(t: TermX, n: nat) -> (TermX, nat) {
    steps_spec(t, n, steps_to_normal(t, n))
}

/// If some iterate is irreducible, `steps_to_normal` names the least
/// such index.
proof fn lemma_minimal_steps(t: TermX, n: nat, k: nat)
    requires
        is_irreducible_spec(steps_spec(t, n, k).0),
    ensures
        is_irreducible_spec(steps_spec(t, n, steps_to_normal(t, n)).0),
        forall|j: nat| j < steps_to_normal(t, n) ==> !is_irreducible_spec(steps_spec(t, n, j).0),
        steps_to_normal(t, n) <= k,
    decreases k,
{
    if exists|j: nat| j < k && is_irreducible_spec(steps_spec(t, n, j).0) {
        let j = choose|j: nat| j < k && is_irreducible_spec(steps_spec(t, n, j).0);
        lemma_minimal_steps(t, n, j);
    } else {
        assert(is_irreducible_spec(steps_spec(t, n, k).0) && forall|j: nat|
            j < k ==> !is_irreducible_spec(steps_spec(t, n, j).0));
    }
}

/// A step taken on a reducible, normalizing term keeps the normal form
/// and comes one step closer to it.
proof fn lemma_step_towards_normal(t: TermX, n: nat)
    requires
        !is_irreducible_spec(t),
        normalizes(t, n),
    ensures
        ({
            let (t1, n1) = step_spec(t, n);
            &&& normalizes(t1, n1)
            &&& steps_to_normal(t, n) >= 1
            &&& steps_to_normal(t1, n1) == steps_to_normal(t, n) - 1
            &&& norm_spec(t1, n1) == norm_spec(t, n)
        }),
{
    let k = choose|k: nat| is_irreducible_spec(steps_spec(t, n, k).0);
    lemma_minimal_steps(t, n, k);
    let m = steps_to_normal(t, n);
    assert(steps_spec(t, n, 0) == (t, n));
    assert(m >= 1);
    let (t1, n1) = step_spec(t, n);
    assert forall|j: nat| j >= 1 implies steps_spec(t, n, j) == steps_spec(
        t1,
        n1,
        (j - 1) as nat,
    ) by {
        assert(steps_spec(t, n, j) == steps_spec(step_spec(t, n).0, step_spec(t, n).1, (j
            - 1) as nat));
    }
    assert(steps_spec(t, n, m) == steps_spec(t1, n1, (m - 1) as nat));
    assert(is_irreducible_spec(steps_spec(t1, n1, (m - 1) as nat).0));
    assert(normalizes(t1, n1));
    lemma_minimal_steps(t1, n1, (m - 1) as nat);
    let m1 = steps_to_normal(t1, n1);
    assert(m1 <= m - 1);
    if m1 < m - 1 {
        assert(steps_spec(t, n, m1 + 1) == steps_spec(t1, n1, m1));
        assert(is_irreducible_spec(steps_spec(t, n, (m1 + 1) as nat).0));
        assert(false);
    }
    assert(norm_spec(t1, n1) == steps_spec(t1, n1, (m - 1) as nat));
}

impl Term {
    /// Perform normal-order beta reduction until the term is
    /// irreducible, and return the resulting beta-normal form.
    ///
    /// The term must have a normal form: on terms without one the
    /// original procedure would simply never return, and verified code
    /// must show its loop finishes, so here the caller owes that the
    /// reduction terminates.
    pub fn reduce(self) -> (r: Term)
        requires
            normalizes(self@, init_counter(self@)),
        ensures
            is_irreducible_spec(r@),
            r@ == norm_spec(self@, init_counter(self@)).0,
    {
        let ghost orig = self@;
        let gen = NameGen::for_term(&self);
        let ghost n0 = init_counter(orig);
        let mut gen = gen;
        let mut t = self;
        loop
            invariant
                gen.wf(),
                normalizes(t@, gen@),
                norm_spec(t@, gen@) == norm_spec(orig, n0),
            ensures
                is_irreducible_spec(t@),
                t@ == norm_spec(orig, n0).0,
            decreases steps_to_normal(t@, gen@),
        {
            if t.is_irreducible() {
                proof {
                    assert(steps_spec(t@, gen@, steps_to_normal(t@, gen@)) == (t@, gen@));
                }
                break ;
            }
            proof {
                lemma_step_towards_normal(t@, gen@);
            }
            t.reduction_step(&mut gen);
        }
        t
    }
}

} // verus!
