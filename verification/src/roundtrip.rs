//! The round trip between rendering and parsing: parsing the canonical
//! textual form of a term gives the term back.
use vstd::prelude::*;

use crate::grammar::{render_spec, tsize, TermX};
use crate::parse::{
    appl_rest_spec, is_ident_char, is_ident_start_char, kw_fn, kw_main, lemma_skip_ws_bounds,
    parse_appl_spec, parse_term_spec, scan_ident_spec, skip_ws_spec, to_term_spec, word_at_spec,
};

verus! {

/// An identifier the grammar could have produced: non-empty, made of
/// identifier characters, starting with a letter or underscore, and not
/// a keyword.
pub open spec fn ident_valid(id: Seq<char>) -> bool {
    &&& id.len() > 0
    &&& is_ident_start_char(id[0])
    &&& forall|j: int| 0 <= j < id.len() ==> is_ident_char(#[trigger] id[j])
    &&& id != kw_fn()
    &&& id != kw_main()
}

/// A term the grammar could have produced: every identifier in it is
/// valid.  Terms that reduction has touched may carry machine-generated
/// names with `.` in them, which the grammar cannot write.
pub open spec fn term_valid(t: TermX) -> bool
    decreases t,
{
    match t {
        TermX::Var(s) => ident_valid(s),
        TermX::Lam { param, rule } => ident_valid(param) && term_valid(*rule),
        TermX::Appl { left, right } => term_valid(*left) && term_valid(*right),
    }
}

/// The rendering of a valid term is non-empty and starts with an
/// identifier character or an opening parenthesis — in particular not
/// with whitespace or a comment.
proof fn lemma_render_head(t: TermX)
    requires
        term_valid(t),
    ensures
        render_spec(t).len() >= 1,
        is_ident_start_char(render_spec(t)[0]) || render_spec(t)[0] == '(',
    decreases t,
{
    match t {
        TermX::Var(_) => {},
        TermX::Lam { param: _, rule: _ } => {
            assert(render_spec(t)[0] == 'f');
        },
        TermX::Appl { left, right: _ } => {
            if *left is Lam {
                assert(render_spec(t)[0] == '(');
            } else {
                lemma_render_head(*left);
                assert(render_spec(t)[0] == render_spec(*left)[0]);
            }
        },
    }
}

/// Scanning from the start of an embedded identifier run stops exactly
/// at its end.
proof fn lemma_scan_exact(s: Seq<char>, j: nat, e: nat)
    requires
        j <= e <= s.len(),
        forall|k: int| j <= k < e ==> is_ident_char(#[trigger] s[k]),
        e == s.len() || !is_ident_char(s[e as int]),
    ensures
        scan_ident_spec(s, j) == e,
    decreases e - j,
{
    if j < e {
        lemma_scan_exact(s, j + 1, e);
    }
}

/// Skipping whitespace stops immediately on a token character.
proof fn lemma_skip_ws_at_token(s: Seq<char>, i: nat)
    requires
        i == s.len() || (!crate::parse::is_space_char(s[i as int]) && s[i as int] != '#'),
    ensures
        skip_ws_spec(s, i) == i,
{
}

/// A term as it is rendered in the middle of an application: variables
/// stand bare, anything else is parenthesized.
spec fn unit_render(u: TermX) -> Seq<char> {
    if u is Var {
        render_spec(u)
    } else {
        seq!['('] + render_spec(u) + seq![')']
    }
}

/// Parsing at an embedded valid identifier yields exactly that
/// variable.
proof fn lemma_parse_var(name: Seq<char>, s: Seq<char>, i: nat)
    requires
        ident_valid(name),
        i <= s.len(),
        ({
            let j = skip_ws_spec(s, i);
            let e = j + name.len();
            &&& e <= s.len()
            &&& s.subrange(j as int, e as int) == name
            &&& (e == s.len() || !is_ident_char(s[e as int]))
        }),
    ensures
        parse_term_spec(s, i) == Some((TermX::Var(name), skip_ws_spec(s, i) + name.len())),
    decreases tsize(TermX::Var(name)), 0int,
{
    let j = skip_ws_spec(s, i);
    let e = j + name.len();
    lemma_skip_ws_bounds(s, i);
    assert(s.subrange(j as int, e as int)[0] == s[j as int]);
    assert(s[j as int] == name[0]);
    assert forall|k: int| j <= k < e implies is_ident_char(#[trigger] s[k]) by {
        assert(s[k] == name[k - j]);
    }
    lemma_scan_exact(s, j, e);
    assert(s.subrange(j as int, e as int) != kw_fn());
    assert(s.subrange(j as int, e as int) != kw_main());
}

/// Parsing the rendering of a term followed by a closing parenthesis or
/// the end of the input yields exactly that term.
proof fn lemma_parse_appl_closed(t: TermX, s: Seq<char>, i: nat)
    requires
        term_valid(t),
        i <= s.len(),
        ({
            let j = skip_ws_spec(s, i);
            let e = j + render_spec(t).len();
            &&& e <= s.len()
            &&& s.subrange(j as int, e as int) == render_spec(t)
            &&& (e == s.len() || s[e as int] == ')')
        }),
    ensures
        parse_appl_spec(s, i) == Some((t, skip_ws_spec(s, i) + render_spec(t).len())),
    decreases tsize(t), 2int,
{
    let j = skip_ws_spec(s, i);
    let e = j + render_spec(t).len();
    assert(skip_ws_spec(s, e) == e) by {
        lemma_skip_ws_at_token(s, e);
    }
    assert(parse_term_spec(s, e) is None);
    assert(appl_rest_spec(s, e, t) == Some((t, e)));
    assert(e == s.len() || !is_ident_char(s[e as int]));
    lemma_parse_appl_extends(t, s, i, t, e);
}

/// Parsing at an embedded unit — a bare variable or a parenthesized
/// term — yields exactly that term.
proof fn lemma_parse_unit(u: TermX, s: Seq<char>, i: nat)
    requires
        term_valid(u),
        i <= s.len(),
        ({
            let j = skip_ws_spec(s, i);
            let e = j + unit_render(u).len();
            &&& e <= s.len()
            &&& s.subrange(j as int, e as int) == unit_render(u)
            &&& (u is Var ==> e == s.len() || !is_ident_char(s[e as int]))
        }),
    ensures
        parse_term_spec(s, i) == Some((u, skip_ws_spec(s, i) + unit_render(u).len())),
    decreases tsize(u), 3int,
{
    let j = skip_ws_spec(s, i);
    let e = j + unit_render(u).len();
    lemma_skip_ws_bounds(s, i);
    if u is Var {
        let name = render_spec(u);
        assert(unit_render(u) == name);
        lemma_parse_var(name, s, i);
        assert(u == TermX::Var(name));
    } else {
        let inner = render_spec(u);
        lemma_render_head(u);
        assert(unit_render(u) == seq!['('] + inner + seq![')']);
        assert((seq!['('])[0] == '(');
        assert(unit_render(u)[0] == '(');
        assert(s.subrange(j as int, e as int)[0] == s[j as int]);
        assert(s[j as int] == '(');
        assert(s[j as int + 1] == inner[0]) by {
            assert(unit_render(u)[1] == inner[0]);
            assert(s.subrange(j as int, e as int)[1] == s[j as int + 1]);
        }
        assert(skip_ws_spec(s, j + 1) == j + 1) by {
            lemma_skip_ws_at_token(s, j + 1);
        }
        assert(s.subrange(j as int + 1, e as int - 1) =~= inner) by {
            assert forall|k: int| 0 <= k < inner.len() implies s.subrange(
                j as int + 1,
                e as int - 1,
            )[k] == inner[k] by {
                assert(s.subrange(j as int, e as int)[1 + k] == s[j + 1 + k]);
                assert(unit_render(u)[1 + k] == inner[k]);
            }
        }
        assert(s[e as int - 1] == ')') by {
            assert(unit_render(u)[unit_render(u).len() - 1] == ')');
            assert(s.subrange(j as int, e as int)[e - j - 1] == s[e as int - 1]);
        }
        lemma_parse_appl_closed(u, s, j + 1);
        assert(parse_appl_spec(s, j + 1) == Some((u, (e - 1) as nat)));
        assert(skip_ws_spec(s, (e - 1) as nat) == e - 1) by {
            lemma_skip_ws_at_token(s, (e - 1) as nat);
        }
        assert(parse_term_spec(s, i) == Some((u, e)));
    }
}

/// The heart of the round trip: parsing at the rendering of a term,
/// with whatever the rest-parser then does on the remainder, yields
/// what that rest-parser folds up.  The continuation argument lets the
/// induction walk down the flattened left spine of an application.
proof fn lemma_parse_appl_extends(t: TermX, s: Seq<char>, i: nat, tfin: TermX, efin: nat)
    requires
        term_valid(t),
        i <= s.len(),
        ({
            let j = skip_ws_spec(s, i);
            let e = j + render_spec(t).len();
            &&& e <= s.len()
            &&& s.subrange(j as int, e as int) == render_spec(t)
            &&& (e == s.len() || !is_ident_char(s[e as int]))
            &&& (t is Lam ==> e == s.len() || s[e as int] == ')')
            &&& appl_rest_spec(s, e, t) == Some((tfin, efin))
        }),
    ensures
        parse_appl_spec(s, i) == Some((tfin, efin)),
    decreases tsize(t), 1int,
{
    let j = skip_ws_spec(s, i);
    let big_r = render_spec(t);
    let e = j + big_r.len();
    lemma_skip_ws_bounds(s, i);
    lemma_render_head(t);
    match t {
        TermX::Var(name) => {
            lemma_parse_var(name, s, i);
            assert(parse_term_spec(s, i) == Some((t, e)));
            assert(parse_appl_spec(s, i) == appl_rest_spec(s, e, t));
        },
        TermX::Lam { param, rule } => {
            let body_r = render_spec(*rule);
            let p_end = j + 3 + param.len();
            let b_start = p_end + 4;
            assert(big_r == seq!['f', 'n', ' '] + param + seq![' ', '=', '>', ' '] + body_r);
            assert forall|k: int| 0 <= k < big_r.len() implies s[j + k] == big_r[k] by {
                assert(s.subrange(j as int, e as int)[k] == s[j + k]);
            }
            let head = seq!['f', 'n', ' '];
            let arrow = seq![' ', '=', '>', ' '];
            assert(head[0] == 'f' && head[1] == 'n' && head[2] == ' ');
            assert(arrow[0] == ' ' && arrow[1] == '=' && arrow[2] == '>' && arrow[3] == ' ');
            assert(big_r[0] == 'f' && big_r[1] == 'n' && big_r[2] == ' ');
            assert(s[j as int] == 'f');
            assert(s[j as int + 1] == 'n');
            assert(s[j as int + 2] == ' ');
            lemma_scan_exact(s, j, j + 2);
            assert(s.subrange(j as int, j as int + 2) =~= kw_fn());
            // the parameter word
            assert(skip_ws_spec(s, j + 2) == j + 3) by {
                assert(big_r[3] == param[0]);
                assert(s[j as int + 3] == param[0]);
                lemma_skip_ws_at_token(s, j + 3);
            }
            assert forall|k: int| j + 3 <= k < p_end implies is_ident_char(#[trigger] s[k]) by {
                assert(big_r[k - j] == param[k - (j + 3)]);
                assert(s[k] == param[k - (j + 3)]);
            }
            assert(big_r[p_end - j] == ' ');
            assert(s[p_end as int] == ' ');
            lemma_scan_exact(s, j + 3, p_end);
            assert(s.subrange(j as int + 3, p_end as int) =~= param) by {
                assert forall|k: int| 0 <= k < param.len() implies s.subrange(
                    j as int + 3,
                    p_end as int,
                )[k] == param[k] by {
                    assert(big_r[3 + k] == param[k]);
                    assert(s[j + 3 + k] == big_r[3 + k]);
                }
            }
            assert(word_at_spec(s, j + 2) == Some((param, (j + 3) as nat, p_end)));
            // the arrow
            assert(big_r[p_end + 1 - j] == '=' && big_r[p_end + 2 - j] == '>' && big_r[p_end + 3
                - j] == ' ');
            assert(s[p_end as int + 1] == '=');
            assert(s[p_end as int + 2] == '>');
            assert(s[p_end as int + 3] == ' ');
            assert(skip_ws_spec(s, p_end) == p_end + 1) by {
                lemma_skip_ws_at_token(s, p_end + 1);
            }
            // the body
            lemma_render_head(*rule);
            assert(big_r[b_start - j] == body_r[0]);
            assert(s[b_start as int] == body_r[0]);
            assert(skip_ws_spec(s, (b_start - 1) as nat) == b_start) by {
                assert(s[b_start as int - 1] == ' ');
                lemma_skip_ws_at_token(s, b_start);
            }
            assert(s.subrange(b_start as int, e as int) =~= body_r) by {
                assert forall|k: int| 0 <= k < body_r.len() implies s.subrange(
                    b_start as int,
                    e as int,
                )[k] == body_r[k] by {
                    assert(s[b_start + k] == big_r[b_start - j + k]);
                }
            }
            lemma_parse_appl_closed(*rule, s, (b_start - 1) as nat);
            assert(parse_appl_spec(s, (b_start - 1) as nat) == Some((*rule, e)));
            assert(parse_term_spec(s, i) == Some((t, e)));
            assert(parse_appl_spec(s, i) == appl_rest_spec(s, e, t));
        },
        TermX::Appl { left, right } => {
            let lpart = if *left is Lam {
                seq!['('] + render_spec(*left) + seq![')']
            } else {
                render_spec(*left)
            };
            let rpart = unit_render(*right);
            assert(big_r == lpart + seq![' '] + rpart);
            assert forall|k: int| 0 <= k < big_r.len() implies s[j + k] == big_r[k] by {
                assert(s.subrange(j as int, e as int)[k] == s[j + k]);
            }
            let e_l = j + lpart.len();
            let r_start = e_l + 1;
            assert(s[e_l as int] == ' ') by {
                assert(big_r[lpart.len() as int] == ' ');
            }
            // the right operand is a unit ending at e
            lemma_render_head(*right);
            assert(s[r_start as int] == rpart[0]) by {
                assert(big_r[lpart.len() as int + 1] == rpart[0]);
            }
            assert(rpart[0] == '(' || is_ident_start_char(rpart[0]));
            assert(skip_ws_spec(s, e_l) == r_start) by {
                lemma_skip_ws_at_token(s, r_start);
            }
            assert(s.subrange(r_start as int, e as int) =~= rpart) by {
                assert forall|k: int| 0 <= k < rpart.len() implies s.subrange(
                    r_start as int,
                    e as int,
                )[k] == rpart[k] by {
                    assert(s[r_start + k] == big_r[lpart.len() as int + 1 + k]);
                }
            }
            lemma_parse_unit(*right, s, e_l);
            assert(parse_term_spec(s, e_l) == Some((*right, e)));
            assert(appl_rest_spec(s, e_l, *left) == appl_rest_spec(s, e, t)) by {
                assert((TermX::Appl { left: Box::new(*left), right: Box::new(*right) }) == t);
            }
            // the left operand, with the rest of the spine as its
            // continuation
            assert(s.subrange(j as int, e_l as int) =~= lpart) by {
                assert forall|k: int| 0 <= k < lpart.len() implies s.subrange(
                    j as int,
                    e_l as int,
                )[k] == lpart[k] by {
                    assert(s[j + k] == big_r[k]);
                }
            }
            if *left is Lam {
                lemma_parse_unit(*left, s, i);
                assert(parse_term_spec(s, i) == Some((*left, e_l)));
                assert(parse_appl_spec(s, i) == appl_rest_spec(s, e_l, *left));
            } else {
                lemma_parse_appl_extends(*left, s, i, tfin, efin);
            }
        },
    }
}

/// Parsing the rendering of any term the grammar could have produced
/// gives back exactly that term: the canonical textual form loses
/// nothing.
pub proof fn lemma_render_parse_round_trip(t: TermX)
    requires
        term_valid(t),
    ensures
        to_term_spec(render_spec(t)) == Some(t),
{
    let s = render_spec(t);
    lemma_render_head(t);
    lemma_skip_ws_at_token(s, 0);
    assert(s.subrange(0, s.len() as int) =~= s);
    lemma_parse_appl_closed(t, s, 0);
    assert(parse_appl_spec(s, 0) == Some((t, s.len() as nat)));
    assert(skip_ws_spec(s, s.len() as nat) == s.len());
}

} // verus!
