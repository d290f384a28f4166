//! Fresh identifier generation.
//!
//! Machine-generated names have the form `<base>.<n>`, where `<base>` is
//! the original identifier with any prior `.`-suffix stripped and `<n>` is
//! the decimal value of a strictly increasing counter.  The surface
//! grammar forbids `.` in user-written identifiers, so a generated name
//! can never collide with a user name, and the counter keeps generated
//! names from colliding with each other.
use vstd::prelude::*;

use crate::grammar::{Term, TermX};

verus! {

/// Digits of a decimal number, most significant first: every entry is a
/// digit and there is no leading zero.  The empty sequence is allowed
/// here (it only appears mid-carry); see [`digits_wf`] for full numbers.
pub open spec fn digits_ok(ds: Seq<u8>) -> bool {
    &&& forall|i: int| 0 <= i < ds.len() ==> ds[i] < 10
    &&& ds.len() > 1 ==> ds[0] != 0
}

/// A well-formed decimal representation: canonical and non-empty.
pub open spec fn digits_wf(ds: Seq<u8>) -> bool {
    digits_ok(ds) && ds.len() > 0
}

/// The value of a sequence of decimal digits, most significant first.
pub open spec fn digits_val(ds: Seq<u8>) -> nat
    decreases ds.len(),
{
    if ds.len() == 0 {
        0
    } else {
        digits_val(ds.drop_last()) * 10 + ds.last() as nat
    }
}

/// The character for a single decimal digit.
pub open spec fn digit_to_char(d: nat) -> char {
    if d == 0 {
        '0'
    } else if d == 1 {
        '1'
    } else if d == 2 {
        '2'
    } else if d == 3 {
        '3'
    } else if d == 4 {
        '4'
    } else if d == 5 {
        '5'
    } else if d == 6 {
        '6'
    } else if d == 7 {
        '7'
    } else if d == 8 {
        '8'
    } else {
        '9'
    }
}

/// The canonical decimal rendering of a number, as characters.
pub open spec fn dec_chars(n: nat) -> Seq<char>
    decreases n,
{
    if n < 10 {
        seq![digit_to_char(n)]
    } else {
        dec_chars(n / 10).push(digit_to_char(n % 10))
    }
}

/// The characters of a digit sequence.
pub open spec fn digit_chars_of(ds: Seq<u8>) -> Seq<char> {
    Seq::new(ds.len(), |i: int| digit_to_char(ds[i] as nat))
}

/// A canonical digit sequence renders to the canonical decimal form of
/// its value.
proof fn lemma_digit_chars_of_val(ds: Seq<u8>)
    requires
        digits_wf(ds),
    ensures
        digit_chars_of(ds) == dec_chars(digits_val(ds)),
    decreases ds.len(),
{
    if ds.len() == 1 {
        assert(digits_val(ds) == digits_val(ds.drop_last()) * 10 + ds.last());
        assert(digits_val(ds.drop_last()) == 0);
        assert(digits_val(ds) == ds[0]);
        assert(digit_chars_of(ds) =~= dec_chars(digits_val(ds)));
    } else {
        let pre = ds.drop_last();
        assert(digits_wf(pre));
        lemma_digits_val_lower(pre);
        lemma_digit_chars_of_val(pre);
        let v = digits_val(ds);
        assert(v == digits_val(pre) * 10 + ds.last());
        assert(digits_val(pre) >= 1);
        assert(v >= 10);
        assert(v / 10 == digits_val(pre) && v % 10 == ds.last()) by {
            lemma_div_mod_of_digits(digits_val(pre), ds.last() as nat);
        }
        assert(digit_chars_of(ds) =~= dec_chars(v));
    }
}

/// Splitting off the last decimal digit of `a * 10 + b` gives back `a`
/// and `b`.
proof fn lemma_div_mod_of_digits(a: nat, b: nat)
    requires
        b < 10,
    ensures
        (a * 10 + b) / 10 == a,
        (a * 10 + b) % 10 == b,
{
    assert((a * 10 + b) / 10 == a && (a * 10 + b) % 10 == b) by (nonlinear_arith)
        requires
            b < 10,
    ;
}

/// A canonical digit sequence with a non-zero leading digit has a
/// positive value, and one of length two or more has value at least ten.
proof fn lemma_digits_val_lower(ds: Seq<u8>)
    requires
        digits_wf(ds),
        ds[0] != 0,
    ensures
        digits_val(ds) >= 1,
        ds.len() > 1 ==> digits_val(ds) >= 10,
    decreases ds.len(),
{
    if ds.len() == 1 {
        assert(digits_val(ds.drop_last()) == 0);
    } else {
        let pre = ds.drop_last();
        assert(digits_wf(pre) && pre[0] != 0);
        lemma_digits_val_lower(pre);
        assert(digits_val(ds) == digits_val(pre) * 10 + ds.last());
    }
}

/// The decimal rendering of a number is never empty.
pub proof fn lemma_dec_chars_len(n: nat)
    ensures
        dec_chars(n).len() >= 1,
        n >= 10 ==> dec_chars(n).len() >= 2,
    decreases n,
{
    if n >= 10 {
        lemma_dec_chars_len(n / 10);
    }
}

/// Decimal renderings consist of digit characters only; in particular
/// they never contain `.`.
pub proof fn lemma_dec_chars_no_dot(n: nat)
    ensures
        forall|i: int| 0 <= i < dec_chars(n).len() ==> #[trigger] dec_chars(n)[i] != '.',
    decreases n,
{
    if n < 10 {
        assert(dec_chars(n)[0] == digit_to_char(n));
        assert(digit_to_char(n) != '.');
    } else {
        lemma_dec_chars_no_dot(n / 10);
        assert forall|i: int| 0 <= i < dec_chars(n).len() implies #[trigger] dec_chars(n)[i]
            != '.' by {
            if i < dec_chars(n).len() - 1 {
                assert(dec_chars(n)[i] == dec_chars(n / 10)[i]);
            } else {
                assert(dec_chars(n)[i] == digit_to_char((n % 10) as nat));
                assert(digit_to_char((n % 10) as nat) != '.');
            }
        }
    }
}

/// Distinct numbers have distinct decimal renderings.
pub proof fn lemma_dec_chars_injective(n1: nat, n2: nat)
    requires
        dec_chars(n1) == dec_chars(n2),
    ensures
        n1 == n2,
    decreases n1,
{
    lemma_dec_chars_len(n1);
    lemma_dec_chars_len(n2);
    if n1 < 10 && n2 < 10 {
        assert(dec_chars(n1)[0] == digit_to_char(n1));
        assert(dec_chars(n2)[0] == digit_to_char(n2));
        assert(dec_chars(n1)[0] == dec_chars(n2)[0]);
    } else if n1 < 10 && n2 >= 10 {
        assert(dec_chars(n2).len() >= 2);
        assert(dec_chars(n1).len() == 1);
    } else if n1 >= 10 && n2 < 10 {
        assert(dec_chars(n1).len() >= 2);
        assert(dec_chars(n2).len() == 1);
    } else {
        let c1 = dec_chars(n1);
        let c2 = dec_chars(n2);
        assert(c1.last() == c2.last());
        assert(digit_to_char((n1 % 10) as nat) == digit_to_char((n2 % 10) as nat));
        assert(n1 % 10 == n2 % 10);
        assert(c1.drop_last() =~= c2.drop_last());
        assert(dec_chars(n1 / 10) == dec_chars(n2 / 10)) by {
            assert(dec_chars(n1 / 10) =~= c1.drop_last());
            assert(dec_chars(n2 / 10) =~= c2.drop_last());
        }
        lemma_dec_chars_injective(n1 / 10, n2 / 10);
        vstd::arithmetic::div_mod::lemma_fundamental_div_mod(n1 as int, 10);
        vstd::arithmetic::div_mod::lemma_fundamental_div_mod(n2 as int, 10);
    }
}

/// The number of characters of an identifier before its first `.`; the
/// whole identifier when it has none.
pub open spec fn strip_len(s: Seq<char>) -> nat
    decreases s.len(),
{
    if s.len() == 0 {
        0
    } else if s[0] == '.' {
        0
    } else {
        1 + strip_len(s.drop_first())
    }
}

/// An identifier with any `.`-suffix stripped.
pub open spec fn strip_spec(s: Seq<char>) -> Seq<char> {
    s.take(strip_len(s) as int)
}

/// What `strip_len` finds: the first `.`, or the end of the identifier.
pub proof fn lemma_strip_len(s: Seq<char>)
    ensures
        strip_len(s) <= s.len(),
        forall|j: int| 0 <= j < strip_len(s) ==> s[j] != '.',
        strip_len(s) < s.len() ==> s[strip_len(s) as int] == '.',
    decreases s.len(),
{
    if s.len() > 0 && s[0] != '.' {
        lemma_strip_len(s.drop_first());
        assert forall|j: int| 0 <= j < strip_len(s) implies s[j] != '.' by {
            if j > 0 {
                assert(s.drop_first()[j - 1] != '.');
            }
        }
    }
}

/// The first `.`, together with no `.` before it, determines
/// `strip_len`.
proof fn lemma_strip_len_unique(s: Seq<char>, k: nat)
    requires
        k <= s.len(),
        forall|j: int| 0 <= j < k ==> s[j] != '.',
        k < s.len() ==> s[k as int] == '.',
    ensures
        strip_len(s) == k,
    decreases s.len(),
{
    if s.len() == 0 {
    } else if s[0] == '.' {
        assert(k == 0);
    } else {
        assert(k >= 1);
        lemma_strip_len_unique(s.drop_first(), (k - 1) as nat);
    }
}

/// A machine-generated identifier: stripped base, a dot, and the decimal
/// rendering of the counter.
pub open spec fn fresh_name_spec(s: Seq<char>, n: nat) -> Seq<char> {
    strip_spec(s) + seq!['.'] + dec_chars(n)
}

/// The generator of fresh identifiers: a strictly increasing counter,
/// kept as decimal digits so that it can never overflow.
pub struct NameGen {
    digits: Vec<u8>,
}

impl View for NameGen {
    type V = nat;

    /// The model of a generator is its counter value.
    closed spec fn view(&self) -> nat {
        digits_val(self.digits@)
    }
}

/// Increment a decimal number by one, carrying through trailing nines.
fn inc_digits(ds: &mut Vec<u8>)
    requires
        digits_ok(old(ds)@),
    ensures
        digits_wf(final(ds)@),
        digits_val(final(ds)@) == digits_val(old(ds)@) + 1,
    decreases old(ds)@.len(),
{
    let ghost orig = ds@;
    match ds.pop() {
        None => {
            ds.push(1);
            proof {
                assert(ds@.drop_last() =~= orig);
                assert(digits_val(orig) == 0);
                assert(digits_val(ds@) == 1);
            }
        },
        Some(d) => {
            proof {
                assert(ds@ =~= orig.drop_last());
            }
            if d < 9 {
                let ghost pre = ds@;
                ds.push(d + 1);
                proof {
                    assert(ds@.drop_last() =~= pre);
                    assert(digits_val(ds@) == digits_val(pre) * 10 + (d + 1));
                    assert(digits_val(orig) == digits_val(pre) * 10 + d);
                }
            } else {
                inc_digits(ds);
                let ghost carried = ds@;
                ds.push(0);
                proof {
                    assert(ds@.drop_last() =~= carried);
                    assert(digits_val(ds@) == digits_val(carried) * 10);
                    assert(digits_val(orig) == digits_val(orig.drop_last()) * 10 + 9);
                    if carried.len() == 1 {
                        assert(carried.drop_last().len() == 0);
                        assert(digits_val(carried.drop_last()) == 0);
                        assert(digits_val(carried) == carried[0]);
                        assert(ds@[0] != 0);
                    }
                }
            }
        },
    }
}

/// The ten digit characters.
fn digit_str(d: u8) -> (r: &'static str)
    requires
        d < 10,
    ensures
        r@ == seq![digit_to_char(d as nat)],
{
    proof {
        reveal_strlit("0");
        reveal_strlit("1");
        reveal_strlit("2");
        reveal_strlit("3");
        reveal_strlit("4");
        reveal_strlit("5");
        reveal_strlit("6");
        reveal_strlit("7");
        reveal_strlit("8");
        reveal_strlit("9");
    }
    let r = if d == 0 {
        "0"
    } else if d == 1 {
        "1"
    } else if d == 2 {
        "2"
    } else if d == 3 {
        "3"
    } else if d == 4 {
        "4"
    } else if d == 5 {
        "5"
    } else if d == 6 {
        "6"
    } else if d == 7 {
        "7"
    } else if d == 8 {
        "8"
    } else {
        "9"
    };
    proof {
        assert(r@ =~= seq![digit_to_char(d as nat)]);
    }
    r
}

/// The part of an identifier before its first `.`.
fn strip_base<'a>(s: &'a str) -> (r: &'a str)
    ensures
        r@ == strip_spec(s@),
{
    let n = s.unicode_len();
    let mut i: usize = 0;
    loop
        invariant
            n == s@.len(),
            i <= n,
            forall|j: int| 0 <= j < i ==> s@[j] != '.',
        ensures
            i <= n,
            forall|j: int| 0 <= j < i ==> s@[j] != '.',
            i == n || s@[i as int] == '.',
        decreases n - i,
    {
        if i == n {
            break ;
        }
        if s.get_char(i) == '.' {
            break ;
        }
        i = i + 1;
    }
    proof {
        lemma_strip_len_unique(s@, i as nat);
    }
    let r = s.substring_char(0, i);
    proof {
        assert(r@ =~= strip_spec(s@));
    }
    r
}

impl NameGen {
    /// Whether the generator's digits are a canonical decimal number.
    pub closed spec fn wf(&self) -> bool {
        digits_wf(self.digits@)
    }

    /// A generator that has handed out no names yet.
    pub fn new() -> (g: Self)
        ensures
            g.wf(),
            g@ == 0,
    {
        let mut digits: Vec<u8> = Vec::new();
        digits.push(0);
        proof {
            assert(digits@.drop_last() =~= Seq::<u8>::empty());
            assert(digits_val(Seq::<u8>::empty()) == 0);
            assert(digits_val(digits@) == 0);
        }
        NameGen { digits }
    }
}

/// Generate a fresh identifier from a base name: the base keeps only the
/// part before its first `.`, and the counter is advanced so that no two
/// requests ever return the same name.
pub fn get_fresh_ident(gen: &mut NameGen, s: &str) -> (r: String)
    requires
        old(gen).wf(),
    ensures
        final(gen).wf(),
        final(gen)@ == old(gen)@ + 1,
        r@ == fresh_name_spec(s@, final(gen)@),
{
    inc_digits(&mut gen.digits);
    let base = strip_base(s);
    let mut out = String::from_str(base);
    out.append(".");
    proof {
        reveal_strlit(".");
        assert(out@ =~= strip_spec(s@) + seq!['.']);
    }
    let ghost ds = gen.digits@;
    let mut k: usize = 0;
    while k < gen.digits.len()
        invariant
            gen.digits@ == ds,
            digits_wf(ds),
            k <= ds.len(),
            out@ == strip_spec(s@) + seq!['.'] + digit_chars_of(ds.take(k as int)),
        decreases ds.len() - k,
    {
        let d = gen.digits[k];
        let dpart = digit_str(d);
        out.append(dpart);
        proof {
            assert(digit_chars_of(ds.take(k as int + 1)) =~= digit_chars_of(
                ds.take(k as int),
            ).push(digit_to_char(ds[k as int] as nat)));
            assert(out@ =~= strip_spec(s@) + seq!['.'] + digit_chars_of(ds.take(k as int + 1)));
        }
        k = k + 1;
    }
    proof {
        assert(ds.take(ds.len() as int) =~= ds);
        lemma_digit_chars_of_val(ds);
        assert(out@ =~= fresh_name_spec(s@, digits_val(ds)));
    }
    out
}

/// Fresh names are pairwise distinct: two requests answered with
/// different counter values give different names, whatever their base
/// names were.  Together with the strictly increasing counter of
/// [`get_fresh_ident`], any run of requests yields pairwise distinct
/// identifiers.
pub proof fn lemma_fresh_names_distinct(s1: Seq<char>, n1: nat, s2: Seq<char>, n2: nat)
    requires
        n1 != n2,
    ensures
        fresh_name_spec(s1, n1) != fresh_name_spec(s2, n2),
{
    if fresh_name_spec(s1, n1) == fresh_name_spec(s2, n2) {
        let z = fresh_name_spec(s1, n1);
        let b1 = strip_spec(s1);
        let b2 = strip_spec(s2);
        lemma_strip_len(s1);
        lemma_strip_len(s2);
        lemma_dec_chars_no_dot(n1);
        lemma_dec_chars_no_dot(n2);
        assert(forall|j: int| 0 <= j < b1.len() ==> b1[j] != '.');
        assert(forall|j: int| 0 <= j < b2.len() ==> b2[j] != '.');
        assert(z[b1.len() as int] == '.');
        assert(z[b2.len() as int] == '.');
        if b1.len() < b2.len() {
            assert(z[b1.len() as int] == b2[b1.len() as int]);
            assert(false);
        } else if b2.len() < b1.len() {
            assert(z[b2.len() as int] == b1[b2.len() as int]);
            assert(false);
        } else {
            assert(dec_chars(n1) =~= z.subrange(
                b1.len() as int + 1,
                b1.len() + 1 + dec_chars(n1).len() as int,
            ));
            assert(dec_chars(n2) =~= z.subrange(
                b2.len() as int + 1,
                b2.len() + 1 + dec_chars(n2).len() as int,
            ));
            assert(z.len() == b1.len() + 1 + dec_chars(n1).len());
            assert(z.len() == b2.len() + 1 + dec_chars(n2).len());
            assert(dec_chars(n1) == dec_chars(n2));
            lemma_dec_chars_injective(n1, n2);
            assert(false);
        }
    }
}

/// The stamp suffix of an identifier: what follows its first `.`.
pub open spec fn name_suffix(id: Seq<char>) -> Seq<char> {
    id.subrange(strip_len(id) as int + 1, id.len() as int)
}

/// Whether `id` has the shape of a name generated with counter value
/// `k`: a `.` somewhere, followed by the canonical decimal form of `k`.
pub open spec fn is_stamped(id: Seq<char>, k: nat) -> bool {
    strip_len(id) < id.len() && name_suffix(id) == dec_chars(k)
}

/// Every stamp that `id` could carry is at most `n`.
pub open spec fn ident_ok(id: Seq<char>, n: nat) -> bool {
    forall|k: nat| is_stamped(id, k) ==> k <= n
}

/// Every identifier in the term carries a stamp at most `n`: a
/// generator whose counter stands at `n` will never again produce a name
/// that already occurs in the term.
pub open spec fn term_ok(t: TermX, n: nat) -> bool
    decreases t,
{
    match t {
        TermX::Var(s) => ident_ok(s, n),
        TermX::Lam { param, rule } => ident_ok(param, n) && term_ok(*rule, n),
        TermX::Appl { left, right } => term_ok(*left, n) && term_ok(*right, n),
    }
}

/// A generated name carries exactly its counter value as stamp.
pub proof fn lemma_fresh_is_stamped(s: Seq<char>, n: nat)
    ensures
        is_stamped(fresh_name_spec(s, n), n),
{
    let z = fresh_name_spec(s, n);
    let b = strip_spec(s);
    lemma_strip_len(s);
    lemma_dec_chars_len(n);
    lemma_dec_chars_no_dot(n);
    assert(z[b.len() as int] == '.');
    assert(forall|j: int| 0 <= j < b.len() ==> z[j] == b[j] && b[j] != '.');
    lemma_strip_len_unique(z, b.len() as nat);
    assert(name_suffix(z) =~= dec_chars(n));
}

/// An identifier carries at most one stamp.
pub proof fn lemma_stamp_unique(id: Seq<char>, k1: nat, k2: nat)
    requires
        is_stamped(id, k1),
        is_stamped(id, k2),
    ensures
        k1 == k2,
{
    lemma_dec_chars_injective(k1, k2);
}

/// A generated name's only stamp is the counter it was generated with.
pub proof fn lemma_fresh_ident_ok(s: Seq<char>, k: nat)
    ensures
        ident_ok(fresh_name_spec(s, k), k),
{
    lemma_fresh_is_stamped(s, k);
    assert forall|k2: nat| is_stamped(fresh_name_spec(s, k), k2) implies k2 <= k by {
        lemma_stamp_unique(fresh_name_spec(s, k), k, k2);
    }
}

/// A name generated with a counter beyond `n` differs from every
/// identifier whose stamps are bounded by `n`.
pub proof fn lemma_fresh_ident_is_new(id: Seq<char>, n: nat, s: Seq<char>, k: nat)
    requires
        ident_ok(id, n),
        k > n,
    ensures
        id != fresh_name_spec(s, k),
{
    if id == fresh_name_spec(s, k) {
        lemma_fresh_is_stamped(s, k);
        assert(is_stamped(id, k));
    }
}

/// Raising a stamp bound keeps an identifier acceptable.
pub proof fn lemma_term_ok_mono(t: TermX, n1: nat, n2: nat)
    requires
        term_ok(t, n1),
        n1 <= n2,
    ensures
        term_ok(t, n2),
    decreases t,
{
    match t {
        TermX::Var(_) => {},
        TermX::Lam { param: _, rule } => {
            lemma_term_ok_mono(*rule, n1, n2);
        },
        TermX::Appl { left, right } => {
            lemma_term_ok_mono(*left, n1, n2);
            lemma_term_ok_mono(*right, n1, n2);
        },
    }
}

/// Powers of ten.
pub open spec fn pow10(l: nat) -> nat
    decreases l,
{
    if l == 0 {
        1
    } else {
        10 * pow10((l - 1) as nat)
    }
}

proof fn lemma_pow10_mono(a: nat, b: nat)
    requires
        a <= b,
    ensures
        pow10(a) <= pow10(b),
        pow10(a) >= 1,
    decreases b,
{
    if b > 0 {
        if a == b {
            lemma_pow10_mono((a - 1) as nat, (b - 1) as nat);
        } else {
            lemma_pow10_mono(a, (b - 1) as nat);
        }
    }
}

/// A number is smaller than ten to the length of its decimal form.
proof fn lemma_dec_chars_val_bound(n: nat)
    ensures
        n < pow10(dec_chars(n).len()),
    decreases n,
{
    if n < 10 {
        assert(pow10(1) == 10 * pow10(0));
    } else {
        lemma_dec_chars_val_bound(n / 10);
        lemma_dec_chars_len(n / 10);
        vstd::arithmetic::div_mod::lemma_fundamental_div_mod(n as int, 10);
        let l = dec_chars(n / 10).len();
        assert(dec_chars(n).len() == l + 1);
        assert(n == 10 * (n / 10) + n % 10);
        assert(n / 10 < pow10(l));
        assert(n / 10 + 1 <= pow10(l));
        assert(10 * (n / 10) + 10 <= 10 * pow10(l)) by (nonlinear_arith)
            requires
                n / 10 + 1 <= pow10(l),
        ;
        assert(pow10(l + 1) == 10 * pow10(l));
    }
}

/// Identifiers no longer than `l` characters carry stamps below ten to
/// the `l`.
proof fn lemma_ident_ok_from_len(id: Seq<char>, l: nat)
    requires
        id.len() <= l,
    ensures
        ident_ok(id, (pow10(l) - 1) as nat),
{
    assert forall|k: nat| is_stamped(id, k) implies k <= pow10(l) - 1 by {
        lemma_strip_len(id);
        assert(dec_chars(k).len() <= l) by {
            assert(name_suffix(id).len() <= id.len());
        }
        lemma_dec_chars_val_bound(k);
        lemma_pow10_mono(dec_chars(k).len(), l);
    }
}

/// The longest identifier in a term, in characters.
pub open spec fn max_ident_len(t: TermX) -> nat
    decreases t,
{
    match t {
        TermX::Var(s) => s.len(),
        TermX::Lam { param, rule } => {
            let m = max_ident_len(*rule);
            if param.len() > m {
                param.len()
            } else {
                m
            }
        },
        TermX::Appl { left, right } => {
            let a = max_ident_len(*left);
            let b = max_ident_len(*right);
            if a > b {
                a
            } else {
                b
            }
        },
    }
}

/// The counter value a fresh generator starts from for a given term:
/// large enough that every stamp already in the term is below it.
pub open spec fn init_counter(t: TermX) -> nat {
    (pow10(max_ident_len(t)) - 1) as nat
}

/// The initial counter bounds every stamp in the term.
pub proof fn lemma_term_ok_init(t: TermX)
    ensures
        term_ok(t, init_counter(t)),
    decreases t,
{
    match t {
        TermX::Var(s) => {
            lemma_ident_ok_from_len(s, max_ident_len(t));
        },
        TermX::Lam { param, rule } => {
            lemma_ident_ok_from_len(param, max_ident_len(t));
            lemma_term_ok_init(*rule);
            lemma_pow10_mono(max_ident_len(*rule), max_ident_len(t));
            lemma_term_ok_mono(*rule, init_counter(*rule), init_counter(t));
        },
        TermX::Appl { left, right } => {
            lemma_term_ok_init(*left);
            lemma_term_ok_init(*right);
            lemma_pow10_mono(max_ident_len(*left), max_ident_len(t));
            lemma_pow10_mono(max_ident_len(*right), max_ident_len(t));
            lemma_term_ok_mono(*left, init_counter(*left), init_counter(t));
            lemma_term_ok_mono(*right, init_counter(*right), init_counter(t));
        },
    }
}

/// The length of the longest identifier in the term.
fn max_ident_len_exec(t: &Term) -> (r: usize)
    ensures
        r == max_ident_len(t@),
    decreases *t,
{
    match t {
        Term::Var(s) => s.as_str().unicode_len(),
        Term::Lam { param, rule } => {
            let m = max_ident_len_exec(rule);
            let p = param.as_str().unicode_len();
            if p > m {
                p
            } else {
                m
            }
        },
        Term::Appl { left, right } => {
            let a = max_ident_len_exec(left);
            let b = max_ident_len_exec(right);
            if a > b {
                a
            } else {
                b
            }
        },
    }
}

impl NameGen {
    /// A generator safe to use on the given term: its counter already
    /// stands above every stamp the term's identifiers carry, so every
    /// name it produces is new to the term.
    pub fn for_term(t: &Term) -> (g: Self)
        ensures
            g.wf(),
            g@ == init_counter(t@),
            term_ok(t@, g@),
    {
        let l = max_ident_len_exec(t);
        let mut digits: Vec<u8> = Vec::new();
        let mut k: usize = 0;
        while k < l
            invariant
                k <= l,
                digits@.len() == k,
                forall|i: int| 0 <= i < digits@.len() ==> digits@[i] == 9,
                digits_val(digits@) == pow10(k as nat) - 1,
            decreases l - k,
        {
            let ghost pre = digits@;
            digits.push(9);
            proof {
                assert(digits@.drop_last() =~= pre);
                assert(digits_val(digits@) == digits_val(pre) * 10 + 9);
                assert(pow10(k as nat + 1) == 10 * pow10(k as nat));
            }
            k = k + 1;
        }
        if digits.len() == 0 {
            digits.push(0);
            proof {
                assert(digits@.drop_last() =~= Seq::<u8>::empty());
                assert(digits_val(Seq::<u8>::empty()) == 0);
                assert(digits_val(digits@) == 0);
            }
        }
        proof {
            lemma_term_ok_init(t@);
        }
        NameGen { digits }
    }
}

} // verus!
