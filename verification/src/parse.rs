//! Parse the textual syntax into terms and files.
//!
//! The grammar:
//!
//! ```text
//! ident    := [A-Za-z_][A-Za-z0-9_]*     (no '.'; "fn" and "main" are keywords)
//! lam      := "fn" ident "=>" appl
//! appl     := term (term)*               (left-associative juxtaposition)
//! term     := lam | var | "(" appl ")"
//! defn     := ident ":=" appl ";"
//! file     := defn* "main" ":=" appl ";"
//! comments := "#" to end of line
//! ```
//!
//! In a file the `main :=` header and the final `;` may also be left
//! off, so a bare term is accepted as the main term.
use vstd::prelude::*;

use crate::grammar::{Defn, DefnX, File, FileX, Term, TermX};

verus! {

/// A structured parse failure: the input does not belong to the
/// grammar.
#[derive(Debug)]
pub struct ParseError;

/// A Result alias for parse errors.
pub type ParserResult<T> = Result<T, ParseError>;

/// Whitespace between tokens.
pub open spec fn is_space_char(c: char) -> bool {
    c == ' ' || c == '\t' || c == '\n' || c == '\r'
}

/// The characters an identifier may start with.
pub open spec fn is_ident_start_char(c: char) -> bool {
    ('a' <= c && c <= 'z') || ('A' <= c && c <= 'Z') || c == '_'
}

/// The characters an identifier may continue with.
pub open spec fn is_ident_char(c: char) -> bool {
    is_ident_start_char(c) || ('0' <= c && c <= '9')
}

/// The position just after the end of a comment: everything up to and
/// including the next line break.
pub open spec fn skip_line_spec(s: Seq<char>, i: nat) -> nat
    decreases s.len() - i,
{
    if i >= s.len() {
        i
    } else if s[i as int] == '\n' {
        i + 1
    } else {
        skip_line_spec(s, i + 1)
    }
}

/// A comment ends within the input.
pub proof fn lemma_skip_line_bounds(s: Seq<char>, i: nat)
    requires
        i <= s.len(),
    ensures
        i <= skip_line_spec(s, i) <= s.len(),
    decreases s.len() - i,
{
    if i < s.len() && s[i as int] != '\n' {
        lemma_skip_line_bounds(s, i + 1);
    }
}

/// The position of the next token: past any run of whitespace and
/// comments.  The bounds test on the comment tail is always true
/// ([`lemma_skip_line_bounds`]) and only serves to bound the recursion.
pub open spec fn skip_ws_spec(s: Seq<char>, i: nat) -> nat
    decreases s.len() - i,
{
    if i >= s.len() {
        i
    } else if is_space_char(s[i as int]) {
        skip_ws_spec(s, i + 1)
    } else if s[i as int] == '#' {
        let j = skip_line_spec(s, i + 1);
        if i < j && j <= s.len() {
            skip_ws_spec(s, j)
        } else {
            j
        }
    } else {
        i
    }
}

/// Skipping whitespace stays within the input.
pub proof fn lemma_skip_ws_bounds(s: Seq<char>, i: nat)
    requires
        i <= s.len(),
    ensures
        i <= skip_ws_spec(s, i) <= s.len(),
    decreases s.len() - i,
{
    if i < s.len() {
        if is_space_char(s[i as int]) {
            lemma_skip_ws_bounds(s, i + 1);
        } else if s[i as int] == '#' {
            lemma_skip_line_bounds(s, i + 1);
            let j = skip_line_spec(s, i + 1);
            if i < j && j <= s.len() {
                lemma_skip_ws_bounds(s, j);
            }
        }
    }
}

/// The end of the run of identifier characters starting at `i`.
pub open spec fn scan_ident_spec(s: Seq<char>, i: nat) -> nat
    decreases s.len() - i,
{
    if i >= s.len() {
        i
    } else if is_ident_char(s[i as int]) {
        scan_ident_spec(s, i + 1)
    } else {
        i
    }
}

/// Scanning an identifier stays within the input.
pub proof fn lemma_scan_ident_bounds(s: Seq<char>, i: nat)
    requires
        i <= s.len(),
    ensures
        i <= scan_ident_spec(s, i) <= s.len(),
    decreases s.len() - i,
{
    if i < s.len() && is_ident_char(s[i as int]) {
        lemma_scan_ident_bounds(s, i + 1);
    }
}

/// The word (maximal run of identifier characters) at the next token
/// position, if one starts there: the word, its start, and its end.
pub open spec fn word_at_spec(s: Seq<char>, i: nat) -> Option<(Seq<char>, nat, nat)> {
    let j = skip_ws_spec(s, i);
    if j < s.len() && is_ident_start_char(s[j as int]) {
        let e = scan_ident_spec(s, j);
        Some((s.subrange(j as int, e as int), j, e))
    } else {
        None
    }
}

/// The keyword that introduces an abstraction.
pub open spec fn kw_fn() -> Seq<char> {
    seq!['f', 'n']
}

/// The keyword that introduces the main term of a file.
pub open spec fn kw_main() -> Seq<char> {
    seq!['m', 'a', 'i', 'n']
}

fn is_space(c: char) -> (r: bool)
    ensures
        r == is_space_char(c),
{
    c == ' ' || c == '\t' || c == '\n' || c == '\r'
}

fn is_ident_start(c: char) -> (r: bool)
    ensures
        r == is_ident_start_char(c),
{
    ('a' <= c && c <= 'z') || ('A' <= c && c <= 'Z') || c == '_'
}

fn is_ident(c: char) -> (r: bool)
    ensures
        r == is_ident_char(c),
{
    is_ident_start(c) || ('0' <= c && c <= '9')
}

fn skip_line(s: &str, i: usize) -> (r: usize)
    requires
        i <= s@.len(),
    ensures
        r == skip_line_spec(s@, i as nat),
        i <= r <= s@.len(),
    decreases s@.len() - i,
{
    let n = s.unicode_len();
    if i >= n {
        i
    } else if s.get_char(i) == '\n' {
        i + 1
    } else {
        skip_line(s, i + 1)
    }
}

fn skip_ws(s: &str, i: usize) -> (r: usize)
    requires
        i <= s@.len(),
    ensures
        r == skip_ws_spec(s@, i as nat),
        i <= r <= s@.len(),
    decreases s@.len() - i,
{
    let n = s.unicode_len();
    if i >= n {
        i
    } else {
        let c = s.get_char(i);
        if is_space(c) {
            skip_ws(s, i + 1)
        } else if c == '#' {
            let j = skip_line(s, i + 1);
            skip_ws(s, j)
        } else {
            i
        }
    }
}

fn scan_ident(s: &str, i: usize) -> (r: usize)
    requires
        i <= s@.len(),
    ensures
        r == scan_ident_spec(s@, i as nat),
        i <= r <= s@.len(),
    decreases s@.len() - i,
{
    let n = s.unicode_len();
    if i >= n {
        i
    } else if is_ident(s.get_char(i)) {
        scan_ident(s, i + 1)
    } else {
        i
    }
}

/// The word at the next token position, as an owned string with its
/// start and end.
fn word_at(s: &str, i: usize) -> (r: Option<(String, usize, usize)>)
    requires
        i <= s@.len(),
    ensures
        match r {
            Some((w, j, e)) => word_at_spec(s@, i as nat) == Some((w@, j as nat, e as nat))
                && i <= j < e <= s@.len(),
            None => word_at_spec(s@, i as nat) is None,
        },
{
    let j = skip_ws(s, i);
    let n = s.unicode_len();
    if j < n && is_ident_start(s.get_char(j)) {
        let e = scan_ident(s, j);
        proof {
            lemma_scan_ident_bounds(s@, j as nat + 1);
            assert(scan_ident_spec(s@, j as nat) == scan_ident_spec(s@, j as nat + 1));
        }
        let w = String::from_str(s.substring_char(j, e));
        Some((w, j, e))
    } else {
        None
    }
}

/// The result of parsing a `term` at a position: the term and the
/// position after it.  A `term` is an abstraction, a variable, or a
/// parenthesized application; the keywords are not variables.
pub open spec fn parse_term_spec(s: Seq<char>, i: nat) -> Option<(TermX, nat)>
    decreases s.len() - i, 0int,
{
    let j = skip_ws_spec(s, i);
    if j >= s.len() || j < i {
        None
    } else if s[j as int] == '(' {
        match parse_appl_spec(s, j + 1) {
            Some((t, k)) => {
                let k2 = skip_ws_spec(s, k);
                if k2 < s.len() && s[k2 as int] == ')' {
                    Some((t, k2 + 1))
                } else {
                    None
                }
            },
            None => None,
        }
    } else if is_ident_start_char(s[j as int]) {
        let e = scan_ident_spec(s, j);
        let w = s.subrange(j as int, e as int);
        if w == kw_fn() {
            match word_at_spec(s, e) {
                Some((param, _pj, pe)) => {
                    if param == kw_fn() || param == kw_main() {
                        None
                    } else {
                        let a = skip_ws_spec(s, pe);
                        if a + 1 < s.len() && s[a as int] == '=' && s[a as int + 1] == '>' {
                            if i < a + 2 && a + 2 <= s.len() {
                                match parse_appl_spec(s, a + 2) {
                                    Some((body, k)) => Some(
                                        (TermX::Lam { param, rule: Box::new(body) }, k),
                                    ),
                                    None => None,
                                }
                            } else {
                                None
                            }
                        } else {
                            None
                        }
                    }
                },
                None => None,
            }
        } else if w == kw_main() {
            None
        } else {
            Some((TermX::Var(w), e))
        }
    } else {
        None
    }
}

/// The result of parsing an `appl` at a position: one or more terms,
/// applied left-associatively.
pub open spec fn parse_appl_spec(s: Seq<char>, i: nat) -> Option<(TermX, nat)>
    decreases s.len() - i, 2int,
{
    match parse_term_spec(s, i) {
        Some((t, j)) => {
            if i < j && j <= s.len() {
                appl_rest_spec(s, j, t)
            } else {
                Some((t, j))
            }
        },
        None => None,
    }
}

/// Further terms of an application, folded onto `acc` from the left.
pub open spec fn appl_rest_spec(s: Seq<char>, i: nat, acc: TermX) -> Option<(TermX, nat)>
    decreases s.len() - i, 1int,
{
    match parse_term_spec(s, i) {
        Some((t, j)) => {
            if i < j && j <= s.len() {
                appl_rest_spec(s, j, TermX::Appl { left: Box::new(acc), right: Box::new(t) })
            } else {
                Some((acc, i))
            }
        },
        None => Some((acc, i)),
    }
}

/// The result of parsing a `defn` at a position: `ident ":=" appl ";"`.
pub open spec fn parse_defn_spec(s: Seq<char>, i: nat) -> Option<(DefnX, nat)> {
    match word_at_spec(s, i) {
        Some((name, _wj, we)) => {
            if name == kw_fn() || name == kw_main() {
                None
            } else {
                let a = skip_ws_spec(s, we);
                if a + 1 < s.len() && s[a as int] == ':' && s[a as int + 1] == '=' {
                    match parse_appl_spec(s, a + 2) {
                        Some((t, k)) => {
                            let k2 = skip_ws_spec(s, k);
                            if k2 < s.len() && s[k2 as int] == ';' {
                                Some((DefnX { name, term: t }, k2 + 1))
                            } else {
                                None
                            }
                        },
                        None => None,
                    }
                } else {
                    None
                }
            }
        },
        None => None,
    }
}

/// As many definitions as can be parsed from a position, and the
/// position after them.
pub open spec fn parse_defns_spec(s: Seq<char>, i: nat) -> (Seq<DefnX>, nat)
    decreases s.len() - i,
{
    match parse_defn_spec(s, i) {
        Some((d, j)) => {
            if i < j && j <= s.len() {
                let (rest, k) = parse_defns_spec(s, j);
                (seq![d] + rest, k)
            } else {
                (Seq::empty(), i)
            }
        },
        None => (Seq::empty(), i),
    }
}

/// The position after a `main :=` header, or the position itself when
/// none stands there.
pub open spec fn main_header_end_spec(s: Seq<char>, i: nat) -> nat {
    match word_at_spec(s, i) {
        Some((w, _wj, we)) => {
            if w == kw_main() {
                let a = skip_ws_spec(s, we);
                if a + 1 < s.len() && s[a as int] == ':' && s[a as int + 1] == '=' {
                    a + 2
                } else {
                    i
                }
            } else {
                i
            }
        },
        None => i,
    }
}

/// The result of parsing a whole file from a position: definitions,
/// then the main term — written `main := t;`, with the header and the
/// final `;` optional — and nothing but whitespace after.
pub open spec fn parse_file_spec(s: Seq<char>, i: nat) -> Option<FileX> {
    let (ds, j) = parse_defns_spec(s, i);
    let j2 = main_header_end_spec(s, j);
    match parse_appl_spec(s, j2) {
        Some((t, k)) => {
            let k2 = skip_ws_spec(s, k);
            let k3: nat = if k2 < s.len() && s[k2 as int] == ';' {
                k2 + 1
            } else {
                k2
            };
            if skip_ws_spec(s, k3) == s.len() {
                Some(FileX { defns: ds, main: t })
            } else {
                None
            }
        },
        None => None,
    }
}

/// What parsing a string as one term yields: an `appl` covering the
/// whole input.
pub open spec fn to_term_spec(s: Seq<char>) -> Option<TermX> {
    match parse_appl_spec(s, 0) {
        Some((t, j)) => {
            if skip_ws_spec(s, j) == s.len() {
                Some(t)
            } else {
                None
            }
        },
        None => None,
    }
}

/// What parsing a string as a file yields.
pub open spec fn to_file_spec(s: Seq<char>) -> Option<FileX> {
    parse_file_spec(s, 0)
}

/// Whether a word is one of the two keywords.
fn is_keyword(w: &String) -> (r: bool)
    ensures
        r == (w@ == kw_fn() || w@ == kw_main()),
{
    proof {
        reveal_strlit("fn");
        reveal_strlit("main");
        assert("fn"@ =~= kw_fn());
        assert("main"@ =~= kw_main());
    }
    let fn_kw = String::from_str("fn");
    let main_kw = String::from_str("main");
    w.eq(&fn_kw) || w.eq(&main_kw)
}

/// The recursive-descent parser for the surface grammar.
pub struct M3LCParser;

impl M3LCParser {
    /// Parse a `term` at a position: an abstraction, a variable, or a
    /// parenthesized application.
    pub fn term(s: &str, i: usize) -> (r: Option<(Term, usize)>)
        requires
            i <= s@.len(),
        ensures
            match r {
                Some((t, j)) => parse_term_spec(s@, i as nat) == Some((t@, j as nat)) && i < j
                    <= s@.len(),
                None => parse_term_spec(s@, i as nat) is None,
            },
        decreases s@.len() - i, 0int,
    {
        let j = skip_ws(s, i);
        let n = s.unicode_len();
        if j >= n {
            return None;
        }
        let c = s.get_char(j);
        if c == '(' {
            match Self::appl(s, j + 1) {
                Some((t, k)) => {
                    let k2 = skip_ws(s, k);
                    if k2 < n && s.get_char(k2) == ')' {
                        Some((t, k2 + 1))
                    } else {
                        None
                    }
                },
                None => None,
            }
        } else if is_ident_start(c) {
            let e = scan_ident(s, j);
            proof {
                lemma_scan_ident_bounds(s@, j as nat + 1);
                assert(scan_ident_spec(s@, j as nat) == scan_ident_spec(s@, j as nat + 1));
            }
            let w = String::from_str(s.substring_char(j, e));
            proof {
                reveal_strlit("fn");
                reveal_strlit("main");
                assert("fn"@ =~= kw_fn());
                assert("main"@ =~= kw_main());
            }
            let fn_kw = String::from_str("fn");
            let main_kw = String::from_str("main");
            if w.eq(&fn_kw) {
                match word_at(s, e) {
                    Some((param, _pj, pe)) => {
                        if is_keyword(&param) {
                            None
                        } else {
                            let a = skip_ws(s, pe);
                            if a < n {
                                if a + 1 < n {
                                    if s.get_char(a) == '=' && s.get_char(a + 1) == '>' {
                                        match Self::appl(s, a + 2) {
                                            Some((body, k)) => {
                                                let t = Term::Lam {
                                                    param,
                                                    rule: Box::new(body),
                                                };
                                                Some((t, k))
                                            },
                                            None => None,
                                        }
                                    } else {
                                        None
                                    }
                                } else {
                                    None
                                }
                            } else {
                                None
                            }
                        }
                    },
                    None => None,
                }
            } else if w.eq(&main_kw) {
                None
            } else {
                Some((Term::Var(w), e))
            }
        } else {
            None
        }
    }

    /// Parse an `appl` at a position: one or more terms, applied
    /// left-associatively.
    pub fn appl(s: &str, i: usize) -> (r: Option<(Term, usize)>)
        requires
            i <= s@.len(),
        ensures
            match r {
                Some((t, j)) => parse_appl_spec(s@, i as nat) == Some((t@, j as nat)) && i < j
                    <= s@.len(),
                None => parse_appl_spec(s@, i as nat) is None,
            },
        decreases s@.len() - i, 1int,
    {
        match Self::term(s, i) {
            None => None,
            Some((t0, j0)) => {
                let mut acc = t0;
                let mut pos = j0;
                loop
                    invariant
                        i < pos <= s@.len(),
                        parse_appl_spec(s@, i as nat) == appl_rest_spec(s@, pos as nat, acc@),
                    ensures
                        i < pos <= s@.len(),
                        parse_appl_spec(s@, i as nat) == Some((acc@, pos as nat)),
                    decreases s@.len() - pos,
                {
                    let ghost acc0 = acc@;
                    match Self::term(s, pos) {
                        None => {
                            break ;
                        },
                        Some((t, j)) => {
                            acc = Term::Appl { left: Box::new(acc), right: Box::new(t) };
                            proof {
                                assert(acc@ == (TermX::Appl {
                                    left: Box::new(acc0),
                                    right: Box::new(t@),
                                }));
                            }
                            pos = j;
                        },
                    }
                }
                Some((acc, pos))
            },
        }
    }

    /// Parse a `defn` at a position: `ident ":=" appl ";"`.
    pub fn defn(s: &str, i: usize) -> (r: Option<(Defn, usize)>)
        requires
            i <= s@.len(),
        ensures
            match r {
                Some((d, j)) => parse_defn_spec(s@, i as nat) == Some((d@, j as nat)) && i < j
                    <= s@.len(),
                None => parse_defn_spec(s@, i as nat) is None,
            },
    {
        let n = s.unicode_len();
        match word_at(s, i) {
            Some((name, _wj, we)) => {
                if is_keyword(&name) {
                    None
                } else {
                    let a = skip_ws(s, we);
                    if a < n {
                        if a + 1 < n {
                            if s.get_char(a) == ':' && s.get_char(a + 1) == '=' {
                                match Self::appl(s, a + 2) {
                                    Some((t, k)) => {
                                        let k2 = skip_ws(s, k);
                                        if k2 < n && s.get_char(k2) == ';' {
                                            let d = Defn::new(name, t);
                                            Some((d, k2 + 1))
                                        } else {
                                            None
                                        }
                                    },
                                    None => None,
                                }
                            } else {
                                None
                            }
                        } else {
                            None
                        }
                    } else {
                        None
                    }
                }
            },
            None => None,
        }
    }

    /// Parse as many definitions as stand at a position.
    pub fn defns(s: &str, i: usize) -> (r: (Vec<Defn>, usize))
        requires
            i <= s@.len(),
        ensures
            parse_defns_spec(s@, i as nat).0 == r.0@.map_values(|d: Defn| d@),
            parse_defns_spec(s@, i as nat).1 == r.1 as nat,
            i <= r.1 <= s@.len(),
    {
        let mut ds: Vec<Defn> = Vec::new();
        let mut pos = i;
        proof {
            assert(ds@.map_values(|d: Defn| d@) =~= Seq::<DefnX>::empty());
        }
        loop
            invariant
                i <= pos <= s@.len(),
                parse_defns_spec(s@, i as nat).0 == ds@.map_values(|d: Defn| d@)
                    + parse_defns_spec(s@, pos as nat).0,
                parse_defns_spec(s@, i as nat).1 == parse_defns_spec(s@, pos as nat).1,
            ensures
                i <= pos <= s@.len(),
                parse_defns_spec(s@, i as nat).0 == ds@.map_values(|d: Defn| d@),
                parse_defns_spec(s@, i as nat).1 == pos as nat,
            decreases s@.len() - pos,
        {
            let ghost pre = ds@.map_values(|d: Defn| d@);
            match Self::defn(s, pos) {
                None => {
                    proof {
                        assert(parse_defns_spec(s@, pos as nat).0 =~= Seq::<DefnX>::empty());
                        assert(parse_defns_spec(s@, i as nat).0 =~= pre);
                    }
                    break ;
                },
                Some((d, j)) => {
                    ds.push(d);
                    proof {
                        assert(ds@.map_values(|d: Defn| d@) =~= pre.push(d@));
                        assert(parse_defns_spec(s@, pos as nat).0 =~= seq![d@]
                            + parse_defns_spec(s@, j as nat).0);
                        assert(pre + (seq![d@] + parse_defns_spec(s@, j as nat).0) =~= pre.push(
                            d@,
                        ) + parse_defns_spec(s@, j as nat).0);
                    }
                    pos = j;
                },
            }
        }
        proof {
            assert(parse_defns_spec(s@, i as nat).0 =~= ds@.map_values(|d: Defn| d@));
        }
        (ds, pos)
    }

    /// Parse a whole file: definitions, then the main term.
    pub fn file(s: &str) -> (r: ParserResult<File>)
        ensures
            match r {
                Ok(f) => parse_file_spec(s@, 0) == Some(f@),
                Err(_) => parse_file_spec(s@, 0) is None,
            },
    {
        let n = s.unicode_len();
        let (ds, j) = Self::defns(s, 0);
        // an optional `main :=` header
        let mut j2 = j;
        match word_at(s, j) {
            Some((w, _wj, we)) => {
                proof {
                    reveal_strlit("main");
                    assert("main"@ =~= kw_main());
                }
                let main_kw = String::from_str("main");
                if w.eq(&main_kw) {
                    let a = skip_ws(s, we);
                    if a < n {
                        if a + 1 < n {
                            if s.get_char(a) == ':' && s.get_char(a + 1) == '=' {
                                j2 = a + 2;
                            }
                        }
                    }
                }
            },
            None => {},
        }
        proof {
            assert(j2 as nat == main_header_end_spec(s@, j as nat));
        }
        match Self::appl(s, j2) {
            Some((t, k)) => {
                let k2 = skip_ws(s, k);
                let k3 = if k2 < n && s.get_char(k2) == ';' {
                    k2 + 1
                } else {
                    k2
                };
                if skip_ws(s, k3) == n {
                    Ok(File::new(ds, t))
                } else {
                    Err(ParseError)
                }
            },
            None => Err(ParseError),
        }
    }
}

/// Parse a string to a term.
pub fn to_term(input: &str) -> (r: ParserResult<Term>)
    ensures
        match r {
            Ok(t) => to_term_spec(input@) == Some(t@),
            Err(_) => to_term_spec(input@) is None,
        },
{
    match M3LCParser::appl(input, 0) {
        Some((t, j)) => {
            let k = skip_ws(input, j);
            if k == input.unicode_len() {
                Ok(t)
            } else {
                Err(ParseError)
            }
        },
        None => Err(ParseError),
    }
}

/// Parse a string to a file.
pub fn to_file(input: &str) -> (r: ParserResult<File>)
    ensures
        match r {
            Ok(f) => to_file_spec(input@) == Some(f@),
            Err(_) => to_file_spec(input@) is None,
        },
{
    M3LCParser::file(input)
}

} // verus!
