//! The text form of polynomials.
//!
//! ```text
//! poly    := term (('+' | '-') term)*
//! term    := factor ('*' factor)*
//! factor  := unary ('^' number)*
//! unary   := ('+' | '-')* primary
//! primary := number | var | '(' poly ')'
//! number  := digit+
//! var     := letter (letter | digit)*
//! ```
//!
//! White space may stand around every operator and inside parentheses. A
//! parser reads the longest text that its rule allows from the start of
//! its input, and returns what it read together with the rest of the
//! input; where the rule allows no text there, it returns the input from
//! the place at which it gave up.
use crate::failure::Failure;
use crate::mon::Term;
use crate::poly::{pow_spec, Poly, PolyView};
use crate::rat::Rat;
use crate::ring::{intern_id, intern_names, Ring, Var};
use crate::terms::{add_spec, mul_spec, neg_spec, sub_spec};
use vstd::arithmetic::power::{lemma0_pow, lemma1_pow, lemma_pow0, lemma_pow_increases, pow};
use vstd::prelude::*;
use vstd::string::*;

verus! {

/// The syntax tree of a polynomial.
#[derive(Debug, Hash, PartialEq, Eq)]
pub enum P {
    Add { exp1: Box<P>, exp2: Box<P> },
    Sub { exp1: Box<P>, exp2: Box<P> },
    Mul { exp1: Box<P>, exp2: Box<P> },
    Pow { exp1: Box<P>, exp2: Box<P> },
    Neg(Box<P>),
    Var(String),
    Num(i64),
}

/// What a syntax tree denotes: the tree with the names as sequences of
/// characters.
pub enum PV {
    Add(Box<PV>, Box<PV>),
    Sub(Box<PV>, Box<PV>),
    Mul(Box<PV>, Box<PV>),
    Pow(Box<PV>, Box<PV>),
    Neg(Box<PV>),
    Var(Seq<char>),
    Num(int),
}

pub open spec fn p_view(p: P) -> PV
    decreases p,
{
    match p {
        P::Add { exp1, exp2 } => PV::Add(Box::new(p_view(*exp1)), Box::new(p_view(*exp2))),
        P::Sub { exp1, exp2 } => PV::Sub(Box::new(p_view(*exp1)), Box::new(p_view(*exp2))),
        P::Mul { exp1, exp2 } => PV::Mul(Box::new(p_view(*exp1)), Box::new(p_view(*exp2))),
        P::Pow { exp1, exp2 } => PV::Pow(Box::new(p_view(*exp1)), Box::new(p_view(*exp2))),
        P::Neg(e) => PV::Neg(Box::new(p_view(*e))),
        P::Var(s) => PV::Var(s@),
        P::Num(n) => PV::Num(n as int),
    }
}

impl View for P {
    type V = PV;

    open spec fn view(&self) -> PV {
        p_view(*self)
    }
}

impl Clone for P {
    fn clone(&self) -> (r: P)
        ensures
            r@ == self@,
        decreases self,
    {
        match self {
            P::Add { exp1, exp2 } => P::Add {
                exp1: Box::new((**exp1).clone()),
                exp2: Box::new((**exp2).clone()),
            },
            P::Sub { exp1, exp2 } => P::Sub {
                exp1: Box::new((**exp1).clone()),
                exp2: Box::new((**exp2).clone()),
            },
            P::Mul { exp1, exp2 } => P::Mul {
                exp1: Box::new((**exp1).clone()),
                exp2: Box::new((**exp2).clone()),
            },
            P::Pow { exp1, exp2 } => P::Pow {
                exp1: Box::new((**exp1).clone()),
                exp2: Box::new((**exp2).clone()),
            },
            P::Neg(e) => P::Neg(Box::new((**e).clone())),
            P::Var(s) => P::Var(s.clone()),
            P::Num(n) => P::Num(*n),
        }
    }
}

pub open spec fn is_digit(c: char) -> bool {
    '0' <= c && c <= '9'
}

pub open spec fn is_letter(c: char) -> bool {
    ('a' <= c && c <= 'z') || ('A' <= c && c <= 'Z')
}

pub open spec fn is_space(c: char) -> bool {
    c == ' ' || c == '\t' || c == '\n' || c == '\r'
}

pub open spec fn is_sign(c: char) -> bool {
    c == '+' || c == '-'
}

/// The outcome of a parser at a place of a text: the place after what it
/// read and its result, or the place at which it gave up.
pub type Parsed<T> = Result<(int, T), int>;

/// The first place from `pos` on that holds no white space.
pub open spec fn skip_ws(s: Seq<char>, pos: int) -> int
    decreases s.len() - pos,
{
    if 0 <= pos < s.len() && is_space(s[pos]) {
        skip_ws(s, pos + 1)
    } else {
        pos
    }
}

/// The first place from `pos` on that holds no digit.
pub open spec fn digits_end(s: Seq<char>, pos: int) -> int
    decreases s.len() - pos,
{
    if 0 <= pos < s.len() && is_digit(s[pos]) {
        digits_end(s, pos + 1)
    } else {
        pos
    }
}

/// The first place from `pos` on that holds neither letter nor digit.
pub open spec fn word_end(s: Seq<char>, pos: int) -> int
    decreases s.len() - pos,
{
    if 0 <= pos < s.len() && (is_letter(s[pos]) || is_digit(s[pos])) {
        word_end(s, pos + 1)
    } else {
        pos
    }
}

/// The number that the digits from `from` up to `to` write in base ten.
pub open spec fn number_value(s: Seq<char>, from: int, to: int) -> int
    decreases to - from,
{
    if to <= from {
        0
    } else {
        number_value(s, from, to - 1) * 10 + (s[to - 1] as u32 - '0' as u32)
    }
}

/// A number: one digit or more, whose value a signed 64-bit integer holds.
pub open spec fn number_at(s: Seq<char>, pos: int) -> Parsed<PV> {
    let e = digits_end(s, pos);
    if e <= pos || number_value(s, pos, e) > i64::MAX {
        Err(pos)
    } else {
        Ok((e, PV::Num(number_value(s, pos, e))))
    }
}

/// A variable: a letter, then letters and digits.
pub open spec fn variable_at(s: Seq<char>, pos: int) -> Parsed<PV> {
    if 0 <= pos < s.len() && is_letter(s[pos]) {
        Ok((word_end(s, pos + 1), PV::Var(s.subrange(pos, word_end(s, pos + 1)))))
    } else {
        Err(pos)
    }
}

/// The signs from `pos` on, each with white space around it: the place
/// after them, and how many of them are `-`.
pub open spec fn signs_at(s: Seq<char>, pos: int) -> (int, int)
    decreases s.len() - pos,
{
    let p1 = skip_ws(s, pos);
    if 0 <= pos <= p1 < s.len() && is_sign(s[p1]) {
        let p2 = skip_ws(s, p1 + 1);
        if p2 <= pos || p2 > s.len() {
            (pos, 0)
        } else {
            let (p3, k) = signs_at(s, p2);
            (
                p3,
                if s[p1] == '-' {
                    k + 1
                } else {
                    k
                },
            )
        }
    } else {
        (pos, 0)
    }
}

/// The tower of powers `n1 ^ (n2 ^ (.. ^ nk))`.
pub open spec fn tower(ns: Seq<int>) -> PV
    decreases ns.len(),
{
    if ns.len() <= 1 {
        PV::Num(ns[0])
    } else {
        PV::Pow(Box::new(PV::Num(ns[0])), Box::new(tower(ns.skip(1))))
    }
}

/// The exponents from `pos` on, each after a `^`: the place after them,
/// and their values.
pub open spec fn exponents_at(s: Seq<char>, pos: int) -> (int, Seq<int>)
    decreases s.len() - pos,
{
    let p1 = skip_ws(s, pos);
    if 0 <= pos <= p1 < s.len() && s[p1] == '^' {
        let p2 = skip_ws(s, p1 + 1);
        match number_at(s, p2) {
            Ok((p3, PV::Num(n))) => if p3 <= pos || p3 > s.len() {
                (pos, Seq::empty())
            } else {
                let (p4, ns) = exponents_at(s, p3);
                (p4, seq![n] + ns)
            },
            _ => (pos, Seq::empty()),
        }
    } else {
        (pos, Seq::empty())
    }
}

/// A primary: a number, a variable, or a polynomial in parentheses.
pub open spec fn primary_at(s: Seq<char>, pos: int) -> Parsed<PV>
    decreases s.len() - pos, 1int,
{
    match number_at(s, pos) {
        Ok(r) => Ok(r),
        Err(_) => match variable_at(s, pos) {
            Ok(r) => Ok(r),
            Err(_) => if 0 <= pos < s.len() && s[pos] == '(' {
                let p1 = skip_ws(s, pos + 1);
                if p1 <= pos || p1 > s.len() {
                    Err(pos)
                } else {
                    match poly_at(s, p1) {
                        Err(e) => Err(e),
                        Ok((p2, v)) => {
                            let p3 = skip_ws(s, p2);
                            if 0 <= p3 < s.len() && s[p3] == ')' {
                                Ok((p3 + 1, v))
                            } else {
                                Err(p3)
                            }
                        },
                    }
                }
            } else {
                Err(pos)
            },
        },
    }
}

/// A unary: signs, then a primary, negated where the signs `-` are odd in
/// number.
pub open spec fn unary_at(s: Seq<char>, pos: int) -> Parsed<PV>
    decreases s.len() - pos, 2int,
{
    let (p1, minus) = signs_at(s, pos);
    if pos < 0 || p1 < pos || p1 > s.len() {
        Err(pos)
    } else {
        match primary_at(s, p1) {
            Err(e) => Err(e),
            Ok((p2, v)) => Ok(
                (
                    p2,
                    if minus % 2 != 0 {
                        PV::Neg(Box::new(v))
                    } else {
                        v
                    },
                ),
            ),
        }
    }
}

/// A factor: a unary, then exponents; the exponents form a tower.
pub open spec fn factor_at(s: Seq<char>, pos: int) -> Parsed<PV>
    decreases s.len() - pos, 3int,
{
    if pos < 0 || pos > s.len() {
        Err(pos)
    } else {
        match unary_at(s, pos) {
            Err(e) => Err(e),
            Ok((p1, v)) => {
                let (p2, ns) = exponents_at(s, p1);
                if ns.len() == 0 {
                    Ok((p2, v))
                } else {
                    Ok((p2, PV::Pow(Box::new(v), Box::new(tower(ns)))))
                }
            },
        }
    }
}

/// The factors from `pos` on, each after a `*`, multiplied to `acc` from
/// the left.
pub open spec fn factors_at(s: Seq<char>, pos: int, acc: PV) -> (int, PV)
    decreases s.len() - pos, 0int,
{
    let p1 = skip_ws(s, pos);
    if 0 <= pos <= p1 < s.len() && s[p1] == '*' {
        let p2 = skip_ws(s, p1 + 1);
        if p2 <= pos || p2 > s.len() {
            (pos, acc)
        } else {
            match factor_at(s, p2) {
                Err(_) => (pos, acc),
                Ok((p3, f)) => if p3 <= pos || p3 > s.len() {
                    (pos, acc)
                } else {
                    factors_at(s, p3, PV::Mul(Box::new(acc), Box::new(f)))
                },
            }
        }
    } else {
        (pos, acc)
    }
}

/// A term: a factor, then factors after `*`.
pub open spec fn term_at(s: Seq<char>, pos: int) -> Parsed<PV>
    decreases s.len() - pos, 4int,
{
    if pos < 0 || pos > s.len() {
        Err(pos)
    } else {
        match factor_at(s, pos) {
            Err(e) => Err(e),
            Ok((p1, v)) => if p1 < pos || p1 > s.len() {
                Err(pos)
            } else {
                Ok(factors_at(s, p1, v))
            },
        }
    }
}

/// The terms from `pos` on, each after a sign, added to or subtracted from
/// `acc` from the left.
pub open spec fn terms_at(s: Seq<char>, pos: int, acc: PV) -> (int, PV)
    decreases s.len() - pos, 0int,
{
    let p1 = skip_ws(s, pos);
    if 0 <= pos <= p1 < s.len() && is_sign(s[p1]) {
        let p2 = skip_ws(s, p1 + 1);
        if p2 <= pos || p2 > s.len() {
            (pos, acc)
        } else {
            match term_at(s, p2) {
                Err(_) => (pos, acc),
                Ok((p3, t)) => if p3 <= pos || p3 > s.len() {
                    (pos, acc)
                } else {
                    terms_at(
                        s,
                        p3,
                        if s[p1] == '+' {
                            PV::Add(Box::new(acc), Box::new(t))
                        } else {
                            PV::Sub(Box::new(acc), Box::new(t))
                        },
                    )
                },
            }
        }
    } else {
        (pos, acc)
    }
}

/// A polynomial: a term, then terms after signs.
pub open spec fn poly_at(s: Seq<char>, pos: int) -> Parsed<PV>
    decreases s.len() - pos, 5int,
{
    if pos < 0 || pos > s.len() {
        Err(pos)
    } else {
        match term_at(s, pos) {
            Err(e) => Err(e),
            Ok((p1, v)) => if p1 < pos || p1 > s.len() {
                Err(pos)
            } else {
                Ok(terms_at(s, p1, v))
            },
        }
    }
}

fn digit_char(c: char) -> (b: bool)
    ensures
        b == is_digit(c),
{
    c >= '0' && c <= '9'
}

/// Whether the character is a letter.
pub fn letter_char(c: char) -> (b: bool)
    ensures
        b == is_letter(c),
{
    (c >= 'a' && c <= 'z') || (c >= 'A' && c <= 'Z')
}

fn space_char(c: char) -> (b: bool)
    ensures
        b == is_space(c),
{
    c == ' ' || c == '\t' || c == '\n' || c == '\r'
}

/// The first place from `pos` on that holds no white space.
pub fn skip_spaces(s: &str, n: usize, pos: usize) -> (r: usize)
    requires
        n == s@.len(),
        pos <= n,
    ensures
        r == skip_ws(s@, pos as int),
        pos <= r <= n,
{
    let mut r = pos;
    while r < n && space_char(s.get_char(r))
        invariant
            n == s@.len(),
            pos <= r <= n,
            skip_ws(s@, pos as int) == skip_ws(s@, r as int),
        decreases n - r,
    {
        r += 1;
    }
    r
}

fn digits_stop(s: &str, n: usize, pos: usize) -> (r: usize)
    requires
        n == s@.len(),
        pos <= n,
    ensures
        r == digits_end(s@, pos as int),
        pos <= r <= n,
        forall|i: int| pos <= i < r ==> is_digit(s@[i]),
{
    let mut r = pos;
    while r < n && digit_char(s.get_char(r))
        invariant
            n == s@.len(),
            pos <= r <= n,
            digits_end(s@, pos as int) == digits_end(s@, r as int),
            forall|i: int| pos <= i < r ==> is_digit(s@[i]),
        decreases n - r,
    {
        r += 1;
    }
    r
}

/// The first place from `pos` on that holds neither letter nor digit.
pub fn word_stop(s: &str, n: usize, pos: usize) -> (r: usize)
    requires
        n == s@.len(),
        pos <= n,
    ensures
        r == word_end(s@, pos as int),
        pos <= r <= n,
{
    let mut r = pos;
    while r < n && (letter_char(s.get_char(r)) || digit_char(s.get_char(r)))
        invariant
            n == s@.len(),
            pos <= r <= n,
            word_end(s@, pos as int) == word_end(s@, r as int),
        decreases n - r,
    {
        r += 1;
    }
    r
}

/// The value of a run of digits does not fall when the run grows.
proof fn lemma_number_grows(s: Seq<char>, from: int, mid: int, to: int)
    requires
        0 <= from <= mid <= to <= s.len(),
        forall|i: int| from <= i < to ==> is_digit(s[i]),
    ensures
        0 <= number_value(s, from, mid) <= number_value(s, from, to),
    decreases to - mid,
{
    lemma_number_nonneg(s, from, mid);
    if mid < to {
        lemma_number_grows(s, from, mid, to - 1);
        lemma_number_nonneg(s, from, to - 1);
        assert(is_digit(s[to - 1]));
    }
}

proof fn lemma_number_nonneg(s: Seq<char>, from: int, to: int)
    requires
        0 <= from <= to <= s.len(),
        forall|i: int| from <= i < to ==> is_digit(s[i]),
    ensures
        0 <= number_value(s, from, to),
    decreases to - from,
{
    if from < to {
        lemma_number_nonneg(s, from, to - 1);
        assert(is_digit(s[to - 1]));
    }
}

/// A number at the place `pos`.
fn number_x(s: &str, n: usize, pos: usize) -> (out: Result<(usize, P), usize>)
    requires
        n == s@.len(),
        pos <= n,
    ensures
        out matches Ok((q, p)) ==> number_at(s@, pos as int) == Ok::<(int, PV), int>(
            (q as int, p@),
        ) && pos < q <= n && p is Num,
        out matches Err(e) ==> number_at(s@, pos as int) == Err::<(int, PV), int>(e as int) && e
            == pos,
{
    let e = digits_stop(s, n, pos);
    if e == pos {
        return Err(pos);
    }
    let mut v: i64 = 0;
    let mut i: usize = pos;
    while i < e
        invariant
            n == s@.len(),
            pos <= i <= e <= n,
            e == digits_end(s@, pos as int),
            forall|j: int| pos <= j < e ==> is_digit(s@[j]),
            v == number_value(s@, pos as int, i as int),
            0 <= v,
        decreases e - i,
    {
        let c = s.get_char(i);
        assert(is_digit(s@[i as int]));
        let d: i64 = (c as u32 - '0' as u32) as i64;
        proof {
            lemma_number_grows(s@, pos as int, i + 1, e as int);
        }
        if v > (i64::MAX - d) / 10 {
            proof {
                assert(number_value(s@, pos as int, i + 1) == v * 10 + d);
                assert(v * 10 + d > i64::MAX);
            }
            return Err(pos);
        }
        v = v * 10 + d;
        i += 1;
    }
    Ok((e, P::Num(v)))
}

/// A variable at the place `pos`.
fn variable_x(s: &str, n: usize, pos: usize) -> (out: Result<(usize, P), usize>)
    requires
        n == s@.len(),
        pos <= n,
    ensures
        out matches Ok((q, p)) ==> variable_at(s@, pos as int) == Ok::<(int, PV), int>(
            (q as int, p@),
        ) && pos < q <= n,
        out matches Err(e) ==> variable_at(s@, pos as int) == Err::<(int, PV), int>(e as int) && e
            == pos,
{
    if pos < n && letter_char(s.get_char(pos)) {
        let e = word_stop(s, n, pos + 1);
        let name = String::from_str(s.substring_char(pos, e));
        Ok((e, P::Var(name)))
    } else {
        Err(pos)
    }
}

/// The signs at the place `pos`: the place after them, and whether the
/// signs `-` are odd in number.
fn signs_x(s: &str, n: usize, pos: usize) -> (out: (usize, bool))
    requires
        n == s@.len(),
        pos <= n,
    ensures
        out.0 == signs_at(s@, pos as int).0,
        out.1 == (signs_at(s@, pos as int).1 % 2 != 0),
        pos <= out.0 <= n,
    decreases n - pos,
{
    let p1 = skip_spaces(s, n, pos);
    if p1 < n {
        let c = s.get_char(p1);
        if c == '+' || c == '-' {
            let p2 = skip_spaces(s, n, p1 + 1);
            let (p3, odd) = signs_x(s, n, p2);
            return (
                p3,
                if c == '-' {
                    !odd
                } else {
                    odd
                },
            );
        }
    }
    (pos, false)
}

/// The values of a list of machine integers.
pub open spec fn ints(s: Seq<i64>) -> Seq<int> {
    Seq::new(s.len(), |i: int| s[i] as int)
}

/// The tower of the exponents in `ns` from the index `from` on.
fn tower_x(ns: &Vec<i64>, from: usize) -> (p: P)
    requires
        from < ns@.len(),
    ensures
        p@ == tower(ints(ns@.skip(from as int))),
    decreases ns@.len() - from,
{
    let ghost rest = ints(ns@.skip(from as int));
    let len = ns.len();
    if from == len - 1 {
        let p = P::Num(ns[from]);
        proof {
            assert(rest.len() == 1);
            assert(rest[0] == ns@[from as int]);
            assert(tower(rest) == PV::Num(rest[0]));
            assert(p@ == PV::Num(ns@[from as int] as int));
        }
        p
    } else {
        let t = tower_x(ns, from + 1);
        let a = P::Num(ns[from]);
        let p = P::Pow { exp1: Box::new(a), exp2: Box::new(t) };
        proof {
            assert(rest.len() >= 2);
            assert(rest[0] == ns@[from as int]);
            assert(rest.skip(1) =~= ints(ns@.skip(from + 1)));
            assert(tower(rest) == PV::Pow(Box::new(PV::Num(rest[0])), Box::new(tower(rest.skip(1)))));
            assert(a@ == PV::Num(rest[0]));
            assert(p@ == PV::Pow(Box::new(a@), Box::new(t@)));
        }
        p
    }
}

/// The exponents at the place `pos`, gathered in `ns`.
fn exponents_x(s: &str, n: usize, pos: usize, ns: &mut Vec<i64>) -> (q: usize)
    requires
        n == s@.len(),
        pos <= n,
    ensures
        q == exponents_at(s@, pos as int).0,
        ints(final(ns)@) == ints(old(ns)@) + exponents_at(s@, pos as int).1,
        pos <= q <= n,
    decreases n - pos,
{
    let ghost before = ints(ns@);
    let p1 = skip_spaces(s, n, pos);
    if p1 < n && s.get_char(p1) == '^' {
        let p2 = skip_spaces(s, n, p1 + 1);
        match number_x(s, n, p2) {
            Ok((p3, P::Num(v))) => {
                ns.push(v);
                let ghost mid = ints(ns@);
                let q = exponents_x(s, n, p3, ns);
                proof {
                    assert(mid =~= before + seq![v as int]);
                    let tail = exponents_at(s@, p3 as int).1;
                    assert((before + seq![v as int]) + tail =~= before + (seq![v as int] + tail));
                }
                return q;
            },
            _ => {},
        }
    }
    proof {
        assert(before + Seq::<int>::empty() =~= before);
    }
    pos
}

/// A primary at the place `pos`.
fn primary_x(s: &str, n: usize, pos: usize) -> (out: Result<(usize, P), usize>)
    requires
        n == s@.len(),
        pos <= n,
    ensures
        out matches Ok((q, p)) ==> primary_at(s@, pos as int) == Ok::<(int, PV), int>(
            (q as int, p@),
        ) && pos < q <= n,
        out matches Err(e) ==> primary_at(s@, pos as int) == Err::<(int, PV), int>(e as int)
            && pos <= e <= n,
    decreases n - pos, 1int,
{
    match number_x(s, n, pos) {
        Ok(r) => Ok(r),
        Err(_) => match variable_x(s, n, pos) {
            Ok(r) => Ok(r),
            Err(_) => {
                if pos < n && s.get_char(pos) == '(' {
                    let p1 = skip_spaces(s, n, pos + 1);
                    match poly_x(s, n, p1) {
                        Err(e) => Err(e),
                        Ok((p2, v)) => {
                            let p3 = skip_spaces(s, n, p2);
                            if p3 < n && s.get_char(p3) == ')' {
                                Ok((p3 + 1, v))
                            } else {
                                Err(p3)
                            }
                        },
                    }
                } else {
                    Err(pos)
                }
            },
        },
    }
}

/// A unary at the place `pos`.
fn unary_x(s: &str, n: usize, pos: usize) -> (out: Result<(usize, P), usize>)
    requires
        n == s@.len(),
        pos <= n,
    ensures
        out matches Ok((q, p)) ==> unary_at(s@, pos as int) == Ok::<(int, PV), int>(
            (q as int, p@),
        ) && pos < q <= n,
        out matches Err(e) ==> unary_at(s@, pos as int) == Err::<(int, PV), int>(e as int) && pos
            <= e <= n,
    decreases n - pos, 2int,
{
    let (p1, odd) = signs_x(s, n, pos);
    match primary_x(s, n, p1) {
        Err(e) => Err(e),
        Ok((p2, v)) => {
            if odd {
                Ok((p2, P::Neg(Box::new(v))))
            } else {
                Ok((p2, v))
            }
        },
    }
}

/// A factor at the place `pos`.
fn factor_x(s: &str, n: usize, pos: usize) -> (out: Result<(usize, P), usize>)
    requires
        n == s@.len(),
        pos <= n,
    ensures
        out matches Ok((q, p)) ==> factor_at(s@, pos as int) == Ok::<(int, PV), int>(
            (q as int, p@),
        ) && pos < q <= n,
        out matches Err(e) ==> factor_at(s@, pos as int) == Err::<(int, PV), int>(e as int) && pos
            <= e <= n,
    decreases n - pos, 3int,
{
    match unary_x(s, n, pos) {
        Err(e) => Err(e),
        Ok((p1, v)) => {
            let mut ns: Vec<i64> = Vec::new();
            let p2 = exponents_x(s, n, p1, &mut ns);
            proof {
                let e = exponents_at(s@, p1 as int).1;
                assert(Seq::<int>::empty() + e =~= e);
                assert(ints(Seq::<i64>::empty()) =~= Seq::<int>::empty());
                assert(ints(ns@).len() == ns@.len());
            }
            if ns.len() == 0 {
                Ok((p2, v))
            } else {
                let t = tower_x(&ns, 0);
                proof {
                    assert(ns@.skip(0) =~= ns@);
                }
                Ok((p2, P::Pow { exp1: Box::new(v), exp2: Box::new(t) }))
            }
        },
    }
}

/// The factors after `*` at the place `pos`, multiplied to `acc`.
fn factors_x(s: &str, n: usize, pos: usize, acc: P) -> (out: (usize, P))
    requires
        n == s@.len(),
        pos <= n,
    ensures
        (out.0 as int, out.1@) == factors_at(s@, pos as int, acc@),
        pos <= out.0 <= n,
    decreases n - pos, 0int,
{
    let p1 = skip_spaces(s, n, pos);
    if p1 < n && s.get_char(p1) == '*' {
        let p2 = skip_spaces(s, n, p1 + 1);
        match factor_x(s, n, p2) {
            Err(_) => (pos, acc),
            Ok((p3, f)) => factors_x(s, n, p3, P::Mul { exp1: Box::new(acc), exp2: Box::new(f) }),
        }
    } else {
        (pos, acc)
    }
}

/// A term at the place `pos`.
fn term_x(s: &str, n: usize, pos: usize) -> (out: Result<(usize, P), usize>)
    requires
        n == s@.len(),
        pos <= n,
    ensures
        out matches Ok((q, p)) ==> term_at(s@, pos as int) == Ok::<(int, PV), int>((q as int, p@))
            && pos < q <= n,
        out matches Err(e) ==> term_at(s@, pos as int) == Err::<(int, PV), int>(e as int) && pos
            <= e <= n,
    decreases n - pos, 4int,
{
    match factor_x(s, n, pos) {
        Err(e) => Err(e),
        Ok((p1, v)) => Ok(factors_x(s, n, p1, v)),
    }
}

/// The terms after signs at the place `pos`, added to or subtracted from
/// `acc`.
fn terms_x(s: &str, n: usize, pos: usize, acc: P) -> (out: (usize, P))
    requires
        n == s@.len(),
        pos <= n,
    ensures
        (out.0 as int, out.1@) == terms_at(s@, pos as int, acc@),
        pos <= out.0 <= n,
    decreases n - pos, 0int,
{
    let p1 = skip_spaces(s, n, pos);
    if p1 < n {
        let c = s.get_char(p1);
        if c == '+' || c == '-' {
            let p2 = skip_spaces(s, n, p1 + 1);
            return match term_x(s, n, p2) {
                Err(_) => (pos, acc),
                Ok((p3, t)) => {
                    let next = if c == '+' {
                        P::Add { exp1: Box::new(acc), exp2: Box::new(t) }
                    } else {
                        P::Sub { exp1: Box::new(acc), exp2: Box::new(t) }
                    };
                    terms_x(s, n, p3, next)
                },
            };
        }
    }
    (pos, acc)
}

/// A polynomial at the place `pos`.
pub fn poly_x(s: &str, n: usize, pos: usize) -> (out: Result<(usize, P), usize>)
    requires
        n == s@.len(),
        pos <= n,
    ensures
        out matches Ok((q, p)) ==> poly_at(s@, pos as int) == Ok::<(int, PV), int>((q as int, p@))
            && pos < q <= n,
        out matches Err(e) ==> poly_at(s@, pos as int) == Err::<(int, PV), int>(e as int) && pos
            <= e <= n,
    decreases n - pos, 5int,
{
    match term_x(s, n, pos) {
        Err(e) => Err(e),
        Ok((p1, v)) => Ok(terms_x(s, n, p1, v)),
    }
}

/// What a parser returns for its outcome at the start of `input`: the
/// result and the rest of the input, or the input from the place of the
/// failure.
pub open spec fn outcome<'a>(
    input: Seq<char>,
    spec_out: Parsed<PV>,
    out: Result<(&'a str, P), &'a str>,
) -> bool {
    match out {
        Ok((rest, p)) => rest@.len() <= input.len() && spec_out == Ok::<(int, PV), int>(
            (input.len() - rest@.len(), p@),
        ) && rest@ == input.skip(input.len() - rest@.len()),
        Err(rest) => rest@.len() <= input.len() && spec_out == Err::<(int, PV), int>(
            input.len() - rest@.len(),
        ) && rest@ == input.skip(input.len() - rest@.len()),
    }
}

fn deliver<'a>(input: &'a str, n: usize, r: Result<(usize, P), usize>) -> (out: Result<
    (&'a str, P),
    &'a str,
>)
    requires
        n == input@.len(),
        r matches Ok((q, _)) ==> q <= n,
        r matches Err(e) ==> e <= n,
    ensures
        outcome(
            input@,
            match r {
                Ok((q, p)) => Ok::<(int, PV), int>((q as int, p@)),
                Err(e) => Err::<(int, PV), int>(e as int),
            },
            out,
        ),
{
    match r {
        Ok((q, p)) => {
            let rest = input.substring_char(q, n);
            assert(input@.subrange(q as int, n as int) =~= input@.skip(q as int));
            Ok((rest, p))
        },
        Err(e) => {
            let rest = input.substring_char(e, n);
            assert(input@.subrange(e as int, n as int) =~= input@.skip(e as int));
            Err(rest)
        },
    }
}

/// Reads a number: one digit or more.
pub fn unsigned_number<'a>(input: &'a str) -> (out: Result<(&'a str, P), &'a str>)
    ensures
        outcome(input@, number_at(input@, 0), out),
{
    let n = input.unicode_len();
    deliver(input, n, number_x(input, n, 0))
}

/// Reads a variable: a letter, then letters and digits.
pub fn variable<'a>(input: &'a str) -> (out: Result<(&'a str, P), &'a str>)
    ensures
        outcome(input@, variable_at(input@, 0), out),
{
    let n = input.unicode_len();
    deliver(input, n, variable_x(input, n, 0))
}

/// Reads a primary: a number, a variable, or a polynomial in parentheses.
pub fn primary<'a>(input: &'a str) -> (out: Result<(&'a str, P), &'a str>)
    ensures
        outcome(input@, primary_at(input@, 0), out),
{
    let n = input.unicode_len();
    deliver(input, n, primary_x(input, n, 0))
}

/// Reads a unary: signs, then a primary.
pub fn unary<'a>(input: &'a str) -> (out: Result<(&'a str, P), &'a str>)
    ensures
        outcome(input@, unary_at(input@, 0), out),
{
    let n = input.unicode_len();
    deliver(input, n, unary_x(input, n, 0))
}

/// Reads a factor: a unary, then exponents after `^`.
pub fn factor<'a>(input: &'a str) -> (out: Result<(&'a str, P), &'a str>)
    ensures
        outcome(input@, factor_at(input@, 0), out),
{
    let n = input.unicode_len();
    deliver(input, n, factor_x(input, n, 0))
}

/// Reads a term: factors joined by `*`.
pub fn term<'a>(input: &'a str) -> (out: Result<(&'a str, P), &'a str>)
    ensures
        outcome(input@, term_at(input@, 0), out),
{
    let n = input.unicode_len();
    deliver(input, n, term_x(input, n, 0))
}

/// Reads a polynomial: terms joined by `+` and `-`.
pub fn poly<'a>(input: &'a str) -> (out: Result<(&'a str, P), &'a str>)
    ensures
        outcome(input@, poly_at(input@, 0), out),
{
    let n = input.unicode_len();
    deliver(input, n, poly_x(input, n, 0))
}

/// The value of an exponent: a number that is not negative, or a power of
/// two such values; `None` for any other tree and for a value that a
/// machine word does not hold.
pub open spec fn exponent_value(p: PV) -> Option<int>
    decreases p,
{
    match p {
        PV::Num(n) => if 0 <= n <= usize::MAX {
            Some(n)
        } else {
            None
        },
        PV::Pow(a, b) => match exponent_value(*a) {
            None => None,
            Some(x) => match exponent_value(*b) {
                None => None,
                Some(y) => if pow(x, y as nat) <= usize::MAX {
                    Some(pow(x, y as nat))
                } else {
                    None
                },
            },
        },
        _ => None,
    }
}

/// The power `x` to the `y`, where a machine word holds it.
fn power(x: usize, y: usize) -> (out: Option<usize>)
    ensures
        out.is_some() <==> pow(x as int, y as nat) <= usize::MAX,
        out matches Some(r) ==> r == pow(x as int, y as nat),
{
    proof {
        lemma_pow0(x as int);
        lemma1_pow(y as nat);
        if y > 0 {
            lemma0_pow(y as nat);
        }
    }
    if y == 0 {
        return Some(1);
    }
    if x == 0 {
        return Some(0);
    }
    if x == 1 {
        return Some(1);
    }
    let mut r: usize = 1;
    let mut i: usize = 0;
    while i < y
        invariant
            i <= y,
            x >= 2,
            r == pow(x as int, i as nat),
            r >= 1,
        decreases y - i,
    {
        proof {
            lemma_pow_increases(x as nat, (i + 1) as nat, y as nat);
            assert(pow(x as int, (i + 1) as nat) == x * pow(x as int, i as nat)) by {
                reveal(pow);
            }
        }
        if r > usize::MAX / x {
            proof {
                assert(r * x > usize::MAX) by (nonlinear_arith)
                    requires
                        r > usize::MAX / x,
                        x >= 2,
                {
                    assert(usize::MAX < (usize::MAX / x + 1) * x);
                }
                assert(x * r == r * x) by (nonlinear_arith);
            }
            return None;
        }
        proof {
            assert(r * x <= usize::MAX) by (nonlinear_arith)
                requires
                    r <= usize::MAX / x,
                    x >= 2,
            {
                assert((usize::MAX / x) * x <= usize::MAX);
            }
            assert(x * r == r * x) by (nonlinear_arith);
            assert(r * x >= 1) by (nonlinear_arith)
                requires
                    r >= 1,
                    x >= 2,
            ;
        }
        r = r * x;
        i += 1;
    }
    Some(r)
}

/// The value of an exponent.
pub fn pow_calc(p: &P) -> (out: Option<usize>)
    ensures
        out.is_some() == exponent_value(p@).is_some(),
        out matches Some(k) ==> exponent_value(p@) == Some(k as int),
    decreases p,
{
    match p {
        P::Num(n) => {
            if *n >= 0 && (*n as u64) <= usize::MAX as u64 {
                Some(*n as usize)
            } else {
                None
            }
        },
        P::Pow { exp1, exp2 } => match pow_calc(exp1) {
            None => None,
            Some(x) => match pow_calc(exp2) {
                None => None,
                Some(y) => power(x, y),
            },
        },
        _ => None,
    }
}

/// The names of the ring after the variables of the tree have been looked
/// up or added, from left to right.
pub open spec fn names_after(p: PV, names: Seq<Seq<char>>) -> Seq<Seq<char>>
    decreases p,
{
    match p {
        PV::Add(a, b) => names_after(*b, names_after(*a, names)),
        PV::Sub(a, b) => names_after(*b, names_after(*a, names)),
        PV::Mul(a, b) => names_after(*b, names_after(*a, names)),
        PV::Pow(a, b) => names_after(*a, names),
        PV::Neg(a) => names_after(*a, names),
        PV::Var(s) => intern_names(names, s),
        PV::Num(n) => names,
    }
}

/// The polynomial that a tree denotes in a ring with the names `names`.
pub open spec fn poly_of(p: PV, names: Seq<Seq<char>>) -> Result<PolyView, Failure>
    decreases p,
{
    match p {
        PV::Add(a, b) => match poly_of(*a, names) {
            Err(f) => Err(f),
            Ok(x) => match poly_of(*b, names_after(*a, names)) {
                Err(f) => Err(f),
                Ok(y) => match add_spec::<Rat>(x, y) {
                    None => Err(Failure::Overflow),
                    Some(r) => Ok(r),
                },
            },
        },
        PV::Sub(a, b) => match poly_of(*a, names) {
            Err(f) => Err(f),
            Ok(x) => match poly_of(*b, names_after(*a, names)) {
                Err(f) => Err(f),
                Ok(y) => match sub_spec::<Rat>(x, y) {
                    None => Err(Failure::Overflow),
                    Some(r) => Ok(r),
                },
            },
        },
        PV::Mul(a, b) => match poly_of(*a, names) {
            Err(f) => Err(f),
            Ok(x) => match poly_of(*b, names_after(*a, names)) {
                Err(f) => Err(f),
                Ok(y) => match mul_spec::<Rat>(x, y) {
                    None => Err(Failure::Overflow),
                    Some(r) => Ok(r),
                },
            },
        },
        PV::Pow(a, b) => match poly_of(*a, names) {
            Err(f) => Err(f),
            Ok(x) => match exponent_value(*b) {
                None => Err(Failure::BadExponent),
                Some(k) => match pow_spec(x, k as nat) {
                    None => Err(Failure::Overflow),
                    Some(r) => Ok(r),
                },
            },
        },
        PV::Neg(a) => match poly_of(*a, names) {
            Err(f) => Err(f),
            Ok(x) => match neg_spec::<Rat>(x) {
                None => Err(Failure::Overflow),
                Some(r) => Ok(r),
            },
        },
        PV::Var(s) => Ok(
            seq![
                Term::<real> {
                    exps: seq![(Var { id: intern_id(names, s) as usize }, 1usize)],
                    coef: 1 as real,
                },
            ],
        ),
        PV::Num(n) => Ok(seq![Term::<real> { exps: Seq::empty(), coef: n as real }]),
    }
}

/// The names of a ring begin with the names `names`.
pub open spec fn names_grow(names: Seq<Seq<char>>, ring: Ring) -> bool {
    names.len() <= ring.names().len() && ring.names().take(names.len() as int) == names
}

/// The polynomial that the tree `p` denotes. Each variable is looked up in
/// `ring` by its name and added where it is new, from left to right. On
/// failure `ring` keeps the variables added so far.
pub fn create_poly(p: &P, ring: &mut Ring) -> (out: Result<Poly, Failure>)
    requires
        old(ring).wf(),
    ensures
        final(ring).wf(),
        final(ring).pars@ == old(ring).pars@,
        names_grow(old(ring).names(), *final(ring)),
        out matches Ok(r) ==> r.wf() && poly_of(p@, old(ring).names()) == Ok::<PolyView, Failure>(
            r@,
        ) && final(ring).names() == names_after(p@, old(ring).names()),
        out matches Err(f) ==> poly_of(p@, old(ring).names()) == Err::<PolyView, Failure>(f),
    decreases p,
{
    let ghost names = ring.names();
    proof {
        assert(names.take(names.len() as int) =~= names);
    }
    match p {
        P::Add { exp1, exp2 } => {
            let x = match create_poly(exp1, ring) {
                Err(f) => {
                    return Err(f);
                },
                Ok(x) => x,
            };
            let ghost mid = ring.names();
            let y = match create_poly(exp2, ring) {
                Err(f) => {
                    proof {
                        assert(ring.names().take(names.len() as int) =~= mid.take(
                            names.len() as int,
                        ));
                    }
                    return Err(f);
                },
                Ok(y) => y,
            };
            proof {
                assert(ring.names().take(names.len() as int) =~= mid.take(names.len() as int));
            }
            match x.add(&y) {
                None => Err(Failure::Overflow),
                Some(r) => Ok(r),
            }
        },
        P::Sub { exp1, exp2 } => {
            let x = match create_poly(exp1, ring) {
                Err(f) => {
                    return Err(f);
                },
                Ok(x) => x,
            };
            let ghost mid = ring.names();
            let y = match create_poly(exp2, ring) {
                Err(f) => {
                    proof {
                        assert(ring.names().take(names.len() as int) =~= mid.take(
                            names.len() as int,
                        ));
                    }
                    return Err(f);
                },
                Ok(y) => y,
            };
            proof {
                assert(ring.names().take(names.len() as int) =~= mid.take(names.len() as int));
            }
            match x.sub(&y) {
                None => Err(Failure::Overflow),
                Some(r) => Ok(r),
            }
        },
        P::Mul { exp1, exp2 } => {
            let x = match create_poly(exp1, ring) {
                Err(f) => {
                    return Err(f);
                },
                Ok(x) => x,
            };
            let ghost mid = ring.names();
            let y = match create_poly(exp2, ring) {
                Err(f) => {
                    proof {
                        assert(ring.names().take(names.len() as int) =~= mid.take(
                            names.len() as int,
                        ));
                    }
                    return Err(f);
                },
                Ok(y) => y,
            };
            proof {
                assert(ring.names().take(names.len() as int) =~= mid.take(names.len() as int));
            }
            match x.mul(&y) {
                None => Err(Failure::Overflow),
                Some(r) => Ok(r),
            }
        },
        P::Pow { exp1, exp2 } => {
            let x = match create_poly(exp1, ring) {
                Err(f) => {
                    return Err(f);
                },
                Ok(x) => x,
            };
            match pow_calc(exp2) {
                None => Err(Failure::BadExponent),
                Some(k) => match x.pow(k) {
                    None => Err(Failure::Overflow),
                    Some(r) => Ok(r),
                },
            }
        },
        P::Neg(e) => {
            let x = match create_poly(e, ring) {
                Err(f) => {
                    return Err(f);
                },
                Ok(x) => x,
            };
            match x.neg() {
                None => Err(Failure::Overflow),
                Some(r) => Ok(r),
            }
        },
        P::Num(n) => Ok(Poly::from_const(Rat::from_int(*n))),
        P::Var(s) => {
            let v = ring.intern(s.clone());
            proof {
                assert(intern_names(names, s@).take(names.len() as int) =~= names);
            }
            Ok(Poly::from_var(v))
        },
    }
}

} // verus!
