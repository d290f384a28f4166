//! Alpha-equivalence: equality of terms up to consistent renaming of
//! bound variables.
use vstd::prelude::*;

use crate::grammar::{free_in, Term, TermX};

verus! {

/// The context of paired binders entered so far, innermost last.
pub open spec fn ctx_view(ctx: Seq<(String, String)>) -> Seq<(Seq<char>, Seq<char>)> {
    ctx.map_values(|p: (String, String)| (p.0@, p.1@))
}

/// Whether two variable occurrences are the same under a context of
/// paired binders: the most recently pushed entry that binds either
/// name must bind both, and names bound by no entry must be equal.
pub open spec fn alpha_var_spec(
    ctx: Seq<(Seq<char>, Seq<char>)>,
    x: Seq<char>,
    y: Seq<char>,
) -> bool
    decreases ctx.len(),
{
    if ctx.len() == 0 {
        x == y
    } else {
        let (a, b) = ctx.last();
        if a == x || b == y {
            a == x && b == y
        } else {
            alpha_var_spec(ctx.drop_last(), x, y)
        }
    }
}

/// Alpha-equivalence of two terms under a context of paired binders:
/// variables must be the same binding occurrence, abstractions pair
/// their parameters and compare bodies, applications compare both
/// sides, and different shapes are never equivalent.
pub open spec fn alpha_equiv_spec(t1: TermX, t2: TermX, ctx: Seq<(Seq<char>, Seq<char>)>) -> bool
    decreases t1,
{
    match (t1, t2) {
        (TermX::Var(x), TermX::Var(y)) => alpha_var_spec(ctx, x, y),
        (
            TermX::Lam { param: p1, rule: r1 },
            TermX::Lam { param: p2, rule: r2 },
        ) => alpha_equiv_spec(*r1, *r2, ctx.push((p1, p2))),
        (
            TermX::Appl { left: l1, right: r1 },
            TermX::Appl { left: l2, right: r2 },
        ) => alpha_equiv_spec(*l1, *l2, ctx) && alpha_equiv_spec(*r1, *r2, ctx),
        _ => false,
    }
}

/// Find, from the innermost end of the context, whether `x` and `y` are
/// the same binding occurrence.
fn alpha_var_lookup(ctx: &Vec<(String, String)>, x: &String, y: &String) -> (r: bool)
    ensures
        r == alpha_var_spec(ctx_view(ctx@), x@, y@),
{
    let mut i: usize = ctx.len();
    proof {
        assert(ctx_view(ctx@).take(ctx@.len() as int) =~= ctx_view(ctx@));
    }
    while i > 0
        invariant
            i <= ctx@.len(),
            alpha_var_spec(ctx_view(ctx@).take(i as int), x@, y@) == alpha_var_spec(
                ctx_view(ctx@),
                x@,
                y@,
            ),
        decreases i,
    {
        let a_eq = (&ctx[i - 1].0).eq(x);
        let b_eq = (&ctx[i - 1].1).eq(y);
        proof {
            assert(ctx_view(ctx@).take(i as int).last() == (ctx@[i - 1].0@, ctx@[i - 1].1@));
        }
        if a_eq || b_eq {
            return a_eq && b_eq;
        }
        proof {
            assert(ctx_view(ctx@).take(i as int).drop_last() =~= ctx_view(ctx@).take(i - 1));
        }
        i = i - 1;
    }
    proof {
        assert(ctx_view(ctx@).take(0) =~= Seq::<(Seq<char>, Seq<char>)>::empty());
    }
    x.eq(y)
}

impl Term {
    /// Check equivalence under alpha-renaming, with an explicit context
    /// of the paired binders entered so far; the context is handed back
    /// as it was.
    pub fn alpha_equiv_impl(&self, other: &Term, ctx: &mut Vec<(String, String)>) -> (r: bool)
        ensures
            r == alpha_equiv_spec(self@, other@, ctx_view(old(ctx)@)),
            final(ctx)@ == old(ctx)@,
        decreases *self,
    {
        match (self, other) {
            (Term::Var(x), Term::Var(y)) => alpha_var_lookup(ctx, x, y),
            (
                Term::Lam { param: p1, rule: r1 },
                Term::Lam { param: p2, rule: r2 },
            ) => {
                ctx.push((p1.clone(), p2.clone()));
                let r = r1.alpha_equiv_impl(r2, ctx);
                ctx.pop();
                proof {
                    assert(ctx_view(old(ctx)@.push((*p1, *p2))) =~= ctx_view(old(ctx)@).push(
                        (p1@, p2@),
                    ));
                    assert(final(ctx)@ =~= old(ctx)@);
                }
                r
            },
            (
                Term::Appl { left: l1, right: r1 },
                Term::Appl { left: l2, right: r2 },
            ) => {
                let left_eq = l1.alpha_equiv_impl(l2, ctx);
                let right_eq = r1.alpha_equiv_impl(r2, ctx);
                left_eq && right_eq
            },
            (Term::Var(_), Term::Lam { .. }) => false,
            (Term::Var(_), Term::Appl { .. }) => false,
            (Term::Lam { .. }, Term::Var(_)) => false,
            (Term::Lam { .. }, Term::Appl { .. }) => false,
            (Term::Appl { .. }, Term::Var(_)) => false,
            (Term::Appl { .. }, Term::Lam { .. }) => false,
        }
    }

    /// Check term equivalence under alpha-renaming.
    pub fn alpha_equiv(&self, other: &Term) -> (r: bool)
        ensures
            r == alpha_equiv_spec(self@, other@, Seq::empty()),
    {
        let mut ctx: Vec<(String, String)> = Vec::new();
        let r = self.alpha_equiv_impl(other, &mut ctx);
        proof {
            assert(ctx_view(Seq::<(String, String)>::empty()) =~= Seq::<
                (Seq<char>, Seq<char>),
            >::empty());
        }
        r
    }
}

/// A context whose entries pair each name with itself.
pub open spec fn ctx_reflexive(ctx: Seq<(Seq<char>, Seq<char>)>) -> bool {
    forall|i: int| 0 <= i < ctx.len() ==> (#[trigger] ctx[i]).0 == ctx[i].1
}

pub proof fn lemma_alpha_var_refl(ctx: Seq<(Seq<char>, Seq<char>)>, x: Seq<char>)
    requires
        ctx_reflexive(ctx),
    ensures
        alpha_var_spec(ctx, x, x),
    decreases ctx.len(),
{
    if ctx.len() > 0 {
        assert(ctx[ctx.len() - 1].0 == ctx[ctx.len() - 1].1);
        let (a, b) = ctx.last();
        if a == x || b == x {
        } else {
            assert(ctx_reflexive(ctx.drop_last())) by {
                assert(forall|i: int|
                    0 <= i < ctx.drop_last().len() ==> (#[trigger] ctx.drop_last()[i])
                        == ctx[i]);
            }
            lemma_alpha_var_refl(ctx.drop_last(), x);
        }
    }
}

proof fn lemma_alpha_refl_ctx(t: TermX, ctx: Seq<(Seq<char>, Seq<char>)>)
    requires
        ctx_reflexive(ctx),
    ensures
        alpha_equiv_spec(t, t, ctx),
    decreases t,
{
    match t {
        TermX::Var(x) => {
            lemma_alpha_var_refl(ctx, x);
        },
        TermX::Lam { param, rule } => {
            let pushed = ctx.push((param, param));
            assert(ctx_reflexive(pushed)) by {
                assert(forall|i: int|
                    0 <= i < ctx.len() ==> (#[trigger] pushed[i]) == ctx[i]);
                assert(pushed[pushed.len() - 1].0 == pushed[pushed.len() - 1].1);
            }
            lemma_alpha_refl_ctx(*rule, pushed);
        },
        TermX::Appl { left, right } => {
            lemma_alpha_refl_ctx(*left, ctx);
            lemma_alpha_refl_ctx(*right, ctx);
        },
    }
}

/// Alpha-equivalence is reflexive: every term is alpha-equivalent to
/// itself.
pub proof fn lemma_alpha_equiv_reflexive(t: TermX)
    ensures
        alpha_equiv_spec(t, t, Seq::empty()),
{
    lemma_alpha_refl_ctx(t, Seq::empty());
}

/// The same context with every pair turned around.
spec fn ctx_swap(ctx: Seq<(Seq<char>, Seq<char>)>) -> Seq<(Seq<char>, Seq<char>)> {
    ctx.map_values(|p: (Seq<char>, Seq<char>)| (p.1, p.0))
}

proof fn lemma_alpha_var_sym(ctx: Seq<(Seq<char>, Seq<char>)>, x: Seq<char>, y: Seq<char>)
    ensures
        alpha_var_spec(ctx, x, y) == alpha_var_spec(ctx_swap(ctx), y, x),
    decreases ctx.len(),
{
    if ctx.len() > 0 {
        assert(ctx_swap(ctx).last() == (ctx.last().1, ctx.last().0));
        assert(ctx_swap(ctx).drop_last() =~= ctx_swap(ctx.drop_last()));
        lemma_alpha_var_sym(ctx.drop_last(), x, y);
    } else {
        assert(ctx_swap(ctx).len() == 0);
    }
}

proof fn lemma_alpha_sym_ctx(t1: TermX, t2: TermX, ctx: Seq<(Seq<char>, Seq<char>)>)
    ensures
        alpha_equiv_spec(t1, t2, ctx) == alpha_equiv_spec(t2, t1, ctx_swap(ctx)),
    decreases t1,
{
    match (t1, t2) {
        (TermX::Var(x), TermX::Var(y)) => {
            lemma_alpha_var_sym(ctx, x, y);
        },
        (
            TermX::Lam { param: p1, rule: r1 },
            TermX::Lam { param: p2, rule: r2 },
        ) => {
            assert(ctx_swap(ctx.push((p1, p2))) =~= ctx_swap(ctx).push((p2, p1)));
            lemma_alpha_sym_ctx(*r1, *r2, ctx.push((p1, p2)));
        },
        (
            TermX::Appl { left: l1, right: r1 },
            TermX::Appl { left: l2, right: r2 },
        ) => {
            lemma_alpha_sym_ctx(*l1, *l2, ctx);
            lemma_alpha_sym_ctx(*r1, *r2, ctx);
        },
        (TermX::Var(_), TermX::Lam { .. }) => {},
        (TermX::Var(_), TermX::Appl { .. }) => {},
        (TermX::Lam { .. }, TermX::Var(_)) => {},
        (TermX::Lam { .. }, TermX::Appl { .. }) => {},
        (TermX::Appl { .. }, TermX::Var(_)) => {},
        (TermX::Appl { .. }, TermX::Lam { .. }) => {},
    }
}

/// Alpha-equivalence is symmetric.
pub proof fn lemma_alpha_equiv_symmetric(t1: TermX, t2: TermX)
    ensures
        alpha_equiv_spec(t1, t2, Seq::empty()) == alpha_equiv_spec(t2, t1, Seq::empty()),
{
    lemma_alpha_sym_ctx(t1, t2, Seq::empty());
    assert(ctx_swap(Seq::empty()) =~= Seq::<(Seq<char>, Seq<char>)>::empty());
}

/// A term is alpha-equivalent to itself under any context that resolves
/// each of its free variables to itself.
pub proof fn lemma_alpha_refl_free(t: TermX, ctx: Seq<(Seq<char>, Seq<char>)>)
    requires
        forall|w: Seq<char>| #[trigger] free_in(t, w) ==> alpha_var_spec(ctx, w, w),
    ensures
        alpha_equiv_spec(t, t, ctx),
    decreases t,
{
    match t {
        TermX::Var(x) => {
            assert(free_in(t, x));
        },
        TermX::Lam { param, rule } => {
            let pushed = ctx.push((param, param));
            assert forall|w: Seq<char>| #[trigger] free_in(*rule, w) implies alpha_var_spec(
                pushed,
                w,
                w,
            ) by {
                assert(pushed.last() == ((param, param)));
                assert(pushed.drop_last() =~= ctx);
                if w != param {
                    assert(free_in(t, w));
                }
            }
            lemma_alpha_refl_free(*rule, pushed);
        },
        TermX::Appl { left, right } => {
            assert forall|w: Seq<char>| #[trigger] free_in(*left, w) implies alpha_var_spec(
                ctx,
                w,
                w,
            ) by {
                assert(free_in(t, w));
            }
            assert forall|w: Seq<char>| #[trigger] free_in(*right, w) implies alpha_var_spec(
                ctx,
                w,
                w,
            ) by {
                assert(free_in(t, w));
            }
            lemma_alpha_refl_free(*left, ctx);
            lemma_alpha_refl_free(*right, ctx);
        },
    }
}

/// Three contexts chain when the middle names agree and the outer
/// context pairs the outer names.
pub open spec fn ctx_chain(
    c12: Seq<(Seq<char>, Seq<char>)>,
    c23: Seq<(Seq<char>, Seq<char>)>,
    c13: Seq<(Seq<char>, Seq<char>)>,
) -> bool {
    &&& c12.len() == c23.len()
    &&& c12.len() == c13.len()
    &&& forall|i: int| 0 <= i < c12.len() ==> (#[trigger] c12[i]).1 == c23[i].0
    &&& forall|i: int| 0 <= i < c12.len() ==> (#[trigger] c13[i]) == ((c12[i].0, c23[i].1))
}

proof fn lemma_ctx_chain_drop(
    c12: Seq<(Seq<char>, Seq<char>)>,
    c23: Seq<(Seq<char>, Seq<char>)>,
    c13: Seq<(Seq<char>, Seq<char>)>,
)
    requires
        ctx_chain(c12, c23, c13),
        c12.len() > 0,
    ensures
        ctx_chain(c12.drop_last(), c23.drop_last(), c13.drop_last()),
{
    assert(forall|i: int|
        0 <= i < c12.drop_last().len() ==> (#[trigger] c12.drop_last()[i]) == c12[i]);
    assert(forall|i: int|
        0 <= i < c23.drop_last().len() ==> (#[trigger] c23.drop_last()[i]) == c23[i]);
    assert(forall|i: int|
        0 <= i < c13.drop_last().len() ==> (#[trigger] c13.drop_last()[i]) == c13[i]);
}

proof fn lemma_alpha_var_trans(
    c12: Seq<(Seq<char>, Seq<char>)>,
    c23: Seq<(Seq<char>, Seq<char>)>,
    c13: Seq<(Seq<char>, Seq<char>)>,
    x: Seq<char>,
    y: Seq<char>,
    z: Seq<char>,
)
    requires
        ctx_chain(c12, c23, c13),
        alpha_var_spec(c12, x, y),
        alpha_var_spec(c23, y, z),
    ensures
        alpha_var_spec(c13, x, z),
    decreases c12.len(),
{
    if c12.len() > 0 {
        let last = c12.len() - 1;
        assert(c12[last].1 == c23[last].0);
        assert(c13[last] == ((c12[last].0, c23[last].1)));
        let (a, b) = c12.last();
        let (b2, c) = c23.last();
        if a == x || b == y {
            assert(a == x && b == y);
            assert(b2 == y);
            assert(c == z);
        } else {
            if c == z {
                assert(b2 == y && c == z);
                assert(false);
            }
            lemma_ctx_chain_drop(c12, c23, c13);
            lemma_alpha_var_trans(
                c12.drop_last(),
                c23.drop_last(),
                c13.drop_last(),
                x,
                y,
                z,
            );
        }
    }
}

pub proof fn lemma_alpha_trans_ctx(
    t1: TermX,
    t2: TermX,
    t3: TermX,
    c12: Seq<(Seq<char>, Seq<char>)>,
    c23: Seq<(Seq<char>, Seq<char>)>,
    c13: Seq<(Seq<char>, Seq<char>)>,
)
    requires
        ctx_chain(c12, c23, c13),
        alpha_equiv_spec(t1, t2, c12),
        alpha_equiv_spec(t2, t3, c23),
    ensures
        alpha_equiv_spec(t1, t3, c13),
    decreases t1,
{
    match (t1, t2) {
        (TermX::Var(x), TermX::Var(y)) => {
            match t3 {
                TermX::Var(z) => {
                    lemma_alpha_var_trans(c12, c23, c13, x, y, z);
                },
                TermX::Lam { .. } => {
                    assert(false);
                },
                TermX::Appl { .. } => {
                    assert(false);
                },
            }
        },
        (
            TermX::Lam { param: p1, rule: r1 },
            TermX::Lam { param: p2, rule: r2 },
        ) => {
            match t3 {
                TermX::Lam { param: p3, rule: r3 } => {
                    let d12 = c12.push((p1, p2));
                    let d23 = c23.push((p2, p3));
                    let d13 = c13.push((p1, p3));
                    assert(ctx_chain(d12, d23, d13)) by {
                        assert(forall|i: int|
                            0 <= i < c12.len() ==> (#[trigger] d12[i]) == c12[i]);
                        assert(forall|i: int|
                            0 <= i < c23.len() ==> (#[trigger] d23[i]) == c23[i]);
                        assert(forall|i: int|
                            0 <= i < c13.len() ==> (#[trigger] d13[i]) == c13[i]);
                        assert(d12[d12.len() - 1] == ((p1, p2)));
                        assert(d23[d23.len() - 1] == ((p2, p3)));
                        assert(d13[d13.len() - 1] == ((p1, p3)));
                    }
                    lemma_alpha_trans_ctx(*r1, *r2, *r3, d12, d23, d13);
                },
                TermX::Var(_) => {
                    assert(false);
                },
                TermX::Appl { .. } => {
                    assert(false);
                },
            }
        },
        (
            TermX::Appl { left: l1, right: r1 },
            TermX::Appl { left: l2, right: r2 },
        ) => {
            match t3 {
                TermX::Appl { left: l3, right: r3 } => {
                    lemma_alpha_trans_ctx(*l1, *l2, *l3, c12, c23, c13);
                    lemma_alpha_trans_ctx(*r1, *r2, *r3, c12, c23, c13);
                },
                TermX::Var(_) => {
                    assert(false);
                },
                TermX::Lam { .. } => {
                    assert(false);
                },
            }
        },
        (TermX::Var(_), TermX::Lam { .. }) => {
            assert(false);
        },
        (TermX::Var(_), TermX::Appl { .. }) => {
            assert(false);
        },
        (TermX::Lam { .. }, TermX::Var(_)) => {
            assert(false);
        },
        (TermX::Lam { .. }, TermX::Appl { .. }) => {
            assert(false);
        },
        (TermX::Appl { .. }, TermX::Var(_)) => {
            assert(false);
        },
        (TermX::Appl { .. }, TermX::Lam { .. }) => {
            assert(false);
        },
    }
}

/// Alpha-equivalence is transitive.
pub proof fn lemma_alpha_equiv_transitive(t1: TermX, t2: TermX, t3: TermX)
    requires
        alpha_equiv_spec(t1, t2, Seq::empty()),
        alpha_equiv_spec(t2, t3, Seq::empty()),
    ensures
        alpha_equiv_spec(t1, t3, Seq::empty()),
{
    lemma_alpha_trans_ctx(
        t1,
        t2,
        t3,
        Seq::empty(),
        Seq::empty(),
        Seq::empty(),
    );
}

} // verus!
