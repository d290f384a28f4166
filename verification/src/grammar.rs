//! The abstract grammar: lambda terms, named definitions, and files.
use vstd::prelude::*;

verus! {

/// A single lambda term: a variable, an abstraction, or an application.
#[derive(Debug, PartialEq, Eq)]
pub enum Term {
    /// A named variable.
    Var(String),
    /// A lambda abstraction binding `param` over `rule`.
    Lam { param: String, rule: Box<Term> },
    /// A function application of `left` to `right`.
    Appl { left: Box<Term>, right: Box<Term> },
}

/// The mathematical model of a [`Term`]: the same tree with every
/// identifier abstracted to its sequence of characters.
pub enum TermX {
    Var(Seq<char>),
    Lam { param: Seq<char>, rule: Box<TermX> },
    Appl { left: Box<TermX>, right: Box<TermX> },
}

/// The model of a term: identifiers become character sequences.
pub open spec fn term_view(t: Term) -> TermX
    decreases t,
{
    match t {
        Term::Var(s) => TermX::Var(s@),
        Term::Lam { param, rule } => TermX::Lam { param: param@, rule: Box::new(term_view(*rule)) },
        Term::Appl { left, right } => TermX::Appl {
            left: Box::new(term_view(*left)),
            right: Box::new(term_view(*right)),
        },
    }
}

impl View for Term {
    type V = TermX;

    open spec fn view(&self) -> TermX {
        term_view(*self)
    }
}

/// Whether the variable `x` occurs free in `t`.
pub open spec fn free_in(t: TermX, x: Seq<char>) -> bool
    decreases t,
{
    match t {
        TermX::Var(s) => s == x,
        TermX::Lam { param, rule } => param != x && free_in(*rule, x),
        TermX::Appl { left, right } => free_in(*left, x) || free_in(*right, x),
    }
}

/// The number of nodes in a term.
pub open spec fn tsize(t: TermX) -> nat
    decreases t,
{
    match t {
        TermX::Var(_) => 1,
        TermX::Lam { param: _, rule } => 1 + tsize(*rule),
        TermX::Appl { left, right } => 1 + tsize(*left) + tsize(*right),
    }
}

impl Clone for Term {
    /// A clone has exactly the same model as the original.
    fn clone(&self) -> (r: Self)
        ensures
            r@ == self@,
        decreases *self,
    {
        match self {
            Term::Var(s) => Term::Var(s.clone()),
            Term::Lam { param, rule } => Term::Lam {
                param: param.clone(),
                rule: Box::new((**rule).clone()),
            },
            Term::Appl { left, right } => Term::Appl {
                left: Box::new((**left).clone()),
                right: Box::new((**right).clone()),
            },
        }
    }
}

/// The canonical textual form of a term, with minimal parenthesization:
/// an abstraction on the left of an application is parenthesized, and so
/// is an application on the right of an application; nothing else is.
pub open spec fn render_spec(t: TermX) -> Seq<char>
    decreases t,
{
    match t {
        TermX::Var(s) => s,
        TermX::Lam { param, rule } => seq!['f', 'n', ' '] + param + seq![' ', '=', '>', ' ']
            + render_spec(*rule),
        TermX::Appl { left, right } => {
            let left_part = if *left is Lam {
                seq!['('] + render_spec(*left) + seq![')']
            } else {
                render_spec(*left)
            };
            let right_part = if *right is Var {
                render_spec(*right)
            } else {
                seq!['('] + render_spec(*right) + seq![')']
            };
            left_part + seq![' '] + right_part
        },
    }
}

impl Term {
    /// Render the term to its canonical textual form.
    pub fn render(&self) -> (r: String)
        ensures
            r@ == render_spec(self@),
        decreases *self,
    {
        proof {
            reveal_strlit("fn ");
            reveal_strlit(" => ");
            reveal_strlit("(");
            reveal_strlit(")");
            reveal_strlit(" ");
        }
        match self {
            Term::Var(s) => s.clone(),
            Term::Lam { param, rule } => {
                let mut out = String::from_str("fn ");
                out.append(param.as_str());
                out.append(" => ");
                let rule_part = rule.render();
                out.append(rule_part.as_str());
                proof {
                    assert(out@ =~= render_spec(self@));
                }
                out
            },
            Term::Appl { left, right } => {
                let mut out = String::new();
                let left_is_lam = matches!(**left, Term::Lam { .. });
                if left_is_lam {
                    out.append("(");
                }
                let left_part = left.render();
                out.append(left_part.as_str());
                if left_is_lam {
                    out.append(")");
                }
                out.append(" ");
                let right_is_var = matches!(**right, Term::Var(_));
                if !right_is_var {
                    out.append("(");
                }
                let right_part = right.render();
                out.append(right_part.as_str());
                if !right_is_var {
                    out.append(")");
                }
                proof {
                    assert(out@ =~= render_spec(self@));
                }
                out
            },
        }
    }
}

/// A named lambda term, for later substitution.
#[derive(Debug, PartialEq, Eq)]
pub struct Defn {
    name: String,
    term: Term,
}

/// The model of a definition.
pub struct DefnX {
    pub name: Seq<char>,
    pub term: TermX,
}

impl View for Defn {
    type V = DefnX;

    closed spec fn view(&self) -> DefnX {
        DefnX { name: self.name@, term: self.term@ }
    }
}

/// The textual form of a definition, without the closing `;`.
pub open spec fn defn_render_spec(d: DefnX) -> Seq<char> {
    d.name + seq![' ', ':', '=', ' '] + render_spec(d.term)
}

impl Defn {
    /// Create a new `Defn`.
    pub fn new(name: String, term: Term) -> (d: Self)
        ensures
            d@ == (DefnX { name: name@, term: term@ }),
    {
        Defn { name, term }
    }

    /// Get a reference to the defn's name.
    pub fn name(&self) -> (r: &str)
        ensures
            r@ == self@.name,
    {
        self.name.as_str()
    }

    /// Get a reference to the defn's term.
    pub fn term(&self) -> (r: &Term)
        ensures
            r@ == self@.term,
    {
        &self.term
    }

    /// Render the definition as `name := term`.
    pub fn render(&self) -> (r: String)
        ensures
            r@ == defn_render_spec(self@),
    {
        proof {
            reveal_strlit(" := ");
        }
        let mut out = String::from_str(self.name.as_str());
        out.append(" := ");
        let term_part = self.term.render();
        out.append(term_part.as_str());
        proof {
            assert(out@ =~= defn_render_spec(self@));
        }
        out
    }
}

/// A file of defns, with a main term.
#[derive(Debug, PartialEq, Eq)]
pub struct File {
    defns: Vec<Defn>,
    main: Term,
}

/// The model of a file.
pub struct FileX {
    pub defns: Seq<DefnX>,
    pub main: TermX,
}

impl View for File {
    type V = FileX;

    closed spec fn view(&self) -> FileX {
        FileX { defns: self.defns@.map_values(|d: Defn| d@), main: self.main@ }
    }
}

/// The single term a file stands for: each definition becomes an
/// abstraction wrapping everything after it, applied to its own term, so
/// `d1 := t1` followed by `main := t3` collapses to `(fn d1 => t3) t1`.
pub open spec fn unroll_spec(f: FileX) -> TermX
    decreases f.defns.len(),
{
    if f.defns.len() == 0 {
        f.main
    } else {
        let d = f.defns.last();
        unroll_spec(
            FileX {
                defns: f.defns.drop_last(),
                main: TermX::Appl {
                    left: Box::new(TermX::Lam { param: d.name, rule: Box::new(f.main) }),
                    right: Box::new(d.term),
                },
            },
        )
    }
}

impl File {
    /// Create a new `File`.
    pub fn new(defns: Vec<Defn>, main: Term) -> (f: Self)
        ensures
            f@ == (FileX { defns: defns@.map_values(|d: Defn| d@), main: main@ }),
    {
        File { defns, main }
    }

    /// Get a reference to the file's defns.
    pub fn defns(&self) -> (r: &[Defn])
        ensures
            r@.map_values(|d: Defn| d@) == self@.defns,
    {
        self.defns.as_slice()
    }

    /// Get a reference to the file's main.
    pub fn main(&self) -> (r: &Term)
        ensures
            r@ == self@.main,
    {
        &self.main
    }

    /// Unroll the file into the single lambda term it stands for.
    pub fn unroll(self) -> (r: Term)
        ensures
            r@ == unroll_spec(self@),
    {
        let File { mut defns, mut main } = self;
        let ghost orig = FileX { defns: defns@.map_values(|d: Defn| d@), main: main@ };
        while defns.len() > 0
            invariant
                unroll_spec(
                    FileX { defns: defns@.map_values(|d: Defn| d@), main: main@ },
                ) == unroll_spec(orig),
            decreases defns.len(),
        {
            let ghost pre = defns@.map_values(|d: Defn| d@);
            let ghost pre_main = main@;
            let d = defns.pop().unwrap();
            proof {
                assert(d@ == pre.last());
            }
            main = Term::Appl {
                left: Box::new(Term::Lam { param: d.name, rule: Box::new(main) }),
                right: Box::new(d.term),
            };
            proof {
                reveal_with_fuel(term_view, 3);
                assert(defns@.map_values(|d: Defn| d@) =~= pre.drop_last());
                assert(unroll_spec(FileX { defns: pre, main: pre_main }) == unroll_spec(
                    FileX { defns: defns@.map_values(|d: Defn| d@), main: main@ },
                ));
            }
        }
        main
    }

    /// Render the file: each definition on its own line ending in `;`,
    /// then `main := term;`.
    pub fn render(&self) -> (r: String)
        ensures
            r@ == file_render_spec(self@),
    {
        proof {
            reveal_strlit(";\n");
            reveal_strlit("main := ");
            reveal_strlit(";");
        }
        let mut out = String::new();
        let ghost dviews = self@.defns;
        let mut i: usize = 0;
        while i < self.defns.len()
            invariant
                i <= self.defns.len(),
                dviews == self@.defns,
                self.defns@.map_values(|d: Defn| d@) == dviews,
                out@ == defns_render_spec(dviews.take(i as int)),
            decreases self.defns.len() - i,
        {
            let defn_part = self.defns[i].render();
            out.append(defn_part.as_str());
            out.append(";\n");
            proof {
                reveal_strlit(";\n");
                assert(self.defns@[i as int]@ == dviews[i as int]);
                assert(";\n"@ =~= seq![';', '\n']);
                lemma_defns_render_take_step(dviews, i as int);
                assert(out@ =~= defns_render_spec(dviews.take(i as int + 1)));
            }
            i = i + 1;
        }
        proof {
            assert(dviews.take(self.defns.len() as int) =~= dviews);
        }
        out.append("main := ");
        let main_part = self.main.render();
        out.append(main_part.as_str());
        out.append(";");
        proof {
            assert(out@ =~= file_render_spec(self@));
        }
        out
    }
}

/// The textual form of a list of definitions, each ending in `;` and a
/// line break.
pub open spec fn defns_render_spec(ds: Seq<DefnX>) -> Seq<char>
    decreases ds.len(),
{
    if ds.len() == 0 {
        Seq::empty()
    } else {
        defns_render_spec(ds.drop_last()) + defn_render_spec(ds.last()) + seq![';', '\n']
    }
}

/// The textual form of a whole file.
pub open spec fn file_render_spec(f: FileX) -> Seq<char> {
    defns_render_spec(f.defns) + seq!['m', 'a', 'i', 'n', ' ', ':', '=', ' '] + render_spec(f.main)
        + seq![';']
}

proof fn lemma_defns_render_take_step(ds: Seq<DefnX>, i: int)
    requires
        0 <= i < ds.len(),
    ensures
        defns_render_spec(ds.take(i + 1)) == defns_render_spec(ds.take(i)) + defn_render_spec(
            ds[i],
        ) + seq![';', '\n'],
{
    assert(ds.take(i + 1).drop_last() =~= ds.take(i));
    assert(ds.take(i + 1).last() == ds[i]);
}

} // verus!
