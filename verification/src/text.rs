//! The text form of the algebraic values, for diagnostics.
//!
//! A rational is written as its numerator, followed by `/` and its
//! denominator unless that is one; a parameter as `a[n]`; a variable by
//! its name in the ring, or as `x[n]` where no ring is at hand. The
//! digits of the numbers are those that the formatting of the standard
//! library and of `num_rational` gives.
use crate::exps::Exps;
use crate::linexp::{LinExp, ParTerm};
use crate::mon::Mon;
use crate::poly::Poly;
use crate::rat::Rat;
use crate::ring::{Par, Ring, Var};
use crate::solve::LinearEquations;
use crate::temp::Temp;
use num_rational::Ratio;
use vstd::prelude::*;
use vstd::string::*;

verus! {

/// The text of an integer as the standard library displays it.
pub uninterp spec fn int_text(n: int) -> Seq<char>;

/// The text of the ratio `num / den`: the numerator, followed by `/` and
/// the denominator unless that is one.
pub open spec fn ratio_text(num: int, den: int) -> Seq<char> {
    if den == 1 {
        int_text(num)
    } else {
        int_text(num) + "/"@ + int_text(den)
    }
}

/// The text of an index as the standard library displays it.
pub uninterp spec fn index_text(n: int) -> Seq<char>;

/// The text centered in a field of six characters, as the standard library
/// pads it.
pub uninterp spec fn centered(s: Seq<char>) -> Seq<char>;

/// `Display` of `Ratio<i64>`: the numerator as the standard library
/// displays an integer, followed by `/` and the denominator unless that is
/// one.
#[verifier::external_body]
fn ratio_display(a: Rat) -> (r: String)
    ensures
        r@ == (if a.den == 1 {
            int_text(a.num as int)
        } else {
            int_text(a.num as int) + "/"@ + int_text(a.den as int)
        }),
{
    format!("{}", Ratio::<i64>::new_raw(a.num, a.den))
}

/// `Display` of `usize`: the text of an index.
#[verifier::external_body]
fn index_display(n: usize) -> (r: String)
    ensures
        r@ == index_text(n as int),
{
    format!("{}", n)
}

/// The formatting of a text with the width six and the alignment `^`.
#[verifier::external_body]
fn center_display(s: &str) -> (r: String)
    ensures
        r@ == centered(s@),
{
    format!("{:^6}", s)
}

/// The text of a parameter: `a[n]`.
pub open spec fn par_text(p: Par) -> Seq<char> {
    "a["@ + index_text(p.id as int) + "]"@
}

/// The text of a variable without a ring: `x[n]`.
pub open spec fn var_text(v: Var) -> Seq<char> {
    "x["@ + index_text(v.id as int) + "]"@
}

/// The text of a rational.
pub open spec fn rat_text(q: Rat) -> Seq<char> {
    ratio_text(q.num as int, q.den as int)
}

/// The text of a coefficient before a symbol: nothing for one, `-` for
/// minus one, and else the text of the rational.
pub open spec fn factor_text(q: Rat) -> Seq<char> {
    if q.num == 1 && q.den == 1 {
        Seq::empty()
    } else if q.num == -1 && q.den == 1 {
        "-"@
    } else {
        rat_text(q)
    }
}

/// The text of a term of a linear expression: the rational for a
/// constant, and else the coefficient before the parameter.
pub open spec fn parterm_text(t: ParTerm) -> Seq<char> {
    match t.par {
        None => rat_text(t.coef),
        Some(p) => factor_text(t.coef) + par_text(p),
    }
}

/// The text of the terms of a linear expression from the index `i` on,
/// each with `+` before it where its coefficient is positive.
pub open spec fn linexp_tail(s: Seq<ParTerm>, i: int) -> Seq<char>
    decreases s.len() - i,
{
    if i < 0 || i >= s.len() {
        Seq::empty()
    } else {
        (if s[i].coef.num > 0 {
            "+"@
        } else {
            Seq::empty()
        }) + parterm_text(s[i]) + linexp_tail(s, i + 1)
    }
}

/// The text of a linear expression: its terms in parentheses.
pub open spec fn linexp_text(s: Seq<ParTerm>) -> Seq<char> {
    "("@ + parterm_text(s[0]) + linexp_tail(s, 1) + ")"@
}

/// The name of a variable: its name in the ring, or `x[n]` without a
/// ring.
pub open spec fn var_name(names: Option<Seq<Seq<char>>>, v: Var) -> Seq<char> {
    match names {
        Some(ns) => ns[v.id as int],
        None => var_text(v),
    }
}

/// The text of the powers of an exponent vector from the index `i` on:
/// each variable, followed by `^` and its exponent unless that is one.
pub open spec fn powers_text(e: Exps, i: int, names: Option<Seq<Seq<char>>>) -> Seq<char>
    decreases e.len() - i,
{
    if i < 0 || i >= e.len() {
        Seq::empty()
    } else {
        var_name(names, e[i].0) + (if e[i].1 != 1 {
            "^"@ + index_text(e[i].1 as int)
        } else {
            Seq::empty()
        }) + powers_text(e, i + 1, names)
    }
}

/// The text of a rational monomial: the coefficient alone for a constant,
/// and else the coefficient before the powers.
pub open spec fn mon_text(m: Mon<Rat>, names: Option<Seq<Seq<char>>>) -> Seq<char> {
    if m.vars@.len() == 0 {
        rat_text(m.coef)
    } else {
        factor_text(m.coef) + powers_text(m.vars@, 0, names)
    }
}

/// The text of a linear expression before a symbol: nothing for one, `-`
/// for minus one, and else the text of the expression.
pub open spec fn linexp_factor_text(s: Seq<ParTerm>) -> Seq<char> {
    if s.len() == 1 && s[0].par.is_none() && s[0].coef.num == 1 && s[0].coef.den == 1 {
        Seq::empty()
    } else if s.len() == 1 && s[0].par.is_none() && s[0].coef.num == -1 && s[0].coef.den == 1 {
        "-"@
    } else {
        linexp_text(s)
    }
}

/// The text of a monomial of a template.
pub open spec fn tmon_text(m: Mon<LinExp>, names: Option<Seq<Seq<char>>>) -> Seq<char> {
    if m.vars@.len() == 0 {
        linexp_text(m.coef.terms@)
    } else {
        linexp_factor_text(m.coef.terms@) + powers_text(m.vars@, 0, names)
    }
}

/// The text of the monomials of a polynomial from the index `i` on, each
/// with `+` before it where its coefficient is positive.
pub open spec fn poly_tail(s: Seq<Mon<Rat>>, i: int, names: Option<Seq<Seq<char>>>) -> Seq<char>
    decreases s.len() - i,
{
    if i < 0 || i >= s.len() {
        Seq::empty()
    } else {
        (if s[i].coef.num > 0 {
            "+"@
        } else {
            Seq::empty()
        }) + mon_text(s[i], names) + poly_tail(s, i + 1, names)
    }
}

/// The text of a polynomial: its monomials, the leading one first.
pub open spec fn poly_text(s: Seq<Mon<Rat>>, names: Option<Seq<Seq<char>>>) -> Seq<char> {
    mon_text(s[0], names) + poly_tail(s, 1, names)
}

/// The text of the monomials of a template from the index `i` on, each
/// with `+` before it.
pub open spec fn temp_tail(s: Seq<Mon<LinExp>>, i: int, names: Option<Seq<Seq<char>>>) -> Seq<
    char,
>
    decreases s.len() - i,
{
    if i < 0 || i >= s.len() {
        Seq::empty()
    } else {
        "+"@ + tmon_text(s[i], names) + temp_tail(s, i + 1, names)
    }
}

/// The text of a template: its monomials joined by `+`.
pub open spec fn temp_text(s: Seq<Mon<LinExp>>, names: Option<Seq<Seq<char>>>) -> Seq<char> {
    tmon_text(s[0], names) + temp_tail(s, 1, names)
}

/// Every variable of the exponent vector has a name.
pub open spec fn named(e: Exps, names: Option<Seq<Seq<char>>>) -> bool {
    names matches Some(ns) ==> forall|i: int| 0 <= i < e.len() ==> (#[trigger] e[i]).0.id < ns.len()
}

/// The names of a ring, where one is given.
pub open spec fn names_of(ring: Option<&Ring>) -> Option<Seq<Seq<char>>> {
    match ring {
        Some(r) => Some(r.names()),
        None => None,
    }
}

impl Par {
    /// The text `a[n]`.
    pub fn text(&self) -> (r: String)
        ensures
            r@ == par_text(*self),
    {
        let mut r = String::from_str("a[");
        r.append(index_display(self.id).as_str());
        r.append("]");
        r
    }
}

impl Var {
    /// The text `x[n]`.
    pub fn text(&self) -> (r: String)
        ensures
            r@ == var_text(*self),
    {
        let mut r = String::from_str("x[");
        r.append(index_display(self.id).as_str());
        r.append("]");
        r
    }
}

impl Rat {
    /// The text of the rational.
    pub fn text(&self) -> (r: String)
        ensures
            r@ == rat_text(*self),
    {
        ratio_display(*self)
    }

    /// The text of the rational as a coefficient before a symbol.
    pub fn factor_text(&self) -> (r: String)
        ensures
            r@ == factor_text(*self),
    {
        if self.num == 1 && self.den == 1 {
            String::new()
        } else if self.num == -1 && self.den == 1 {
            String::from_str("-")
        } else {
            self.text()
        }
    }
}

impl ParTerm {
    /// The text of the term.
    pub fn text(&self) -> (r: String)
        ensures
            r@ == parterm_text(*self),
    {
        match self.par {
            None => self.coef.text(),
            Some(p) => {
                let mut r = self.coef.factor_text();
                r.append(p.text().as_str());
                r
            },
        }
    }
}

impl LinExp {
    /// The text of the expression, which has at least one term.
    pub fn text(&self) -> (r: String)
        requires
            self.terms@.len() > 0,
        ensures
            r@ == linexp_text(self.terms@),
    {
        let ghost s = self.terms@;
        let mut r = String::from_str("(");
        r.append(self.terms[0].text().as_str());
        let ghost head = r@;
        let mut i: usize = 1;
        while i < self.terms.len()
            invariant
                1 <= i <= s.len(),
                s == self.terms@,
                head == "("@ + parterm_text(s[0]),
                r@ + linexp_tail(s, i as int) == head + linexp_tail(s, 1),
            decreases s.len() - i,
        {
            let ghost before = r@;
            if self.terms[i].coef.num > 0 {
                r.append("+");
            }
            r.append(self.terms[i].text().as_str());
            proof {
                let sign = if s[i as int].coef.num > 0 {
                    "+"@
                } else {
                    Seq::<char>::empty()
                };
                assert(r@ =~= before + sign + parterm_text(s[i as int]));
                assert(before + (sign + parterm_text(s[i as int]) + linexp_tail(s, i + 1)) =~= r@
                    + linexp_tail(s, i + 1));
            }
            i += 1;
        }
        proof {
            assert(r@ + Seq::<char>::empty() =~= r@);
        }
        r.append(")");
        proof {
            assert(r@ =~= "("@ + parterm_text(s[0]) + linexp_tail(s, 1) + ")"@);
        }
        r
    }

    /// The text of the expression as a coefficient before a symbol.
    pub fn factor_text(&self) -> (r: String)
        requires
            self.terms@.len() > 0,
        ensures
            r@ == linexp_factor_text(self.terms@),
    {
        if self.terms.len() == 1 && self.terms[0].par.is_none() && self.terms[0].coef.den == 1
            && self.terms[0].coef.num == 1 {
            String::new()
        } else if self.terms.len() == 1 && self.terms[0].par.is_none() && self.terms[0].coef.den
            == 1 && self.terms[0].coef.num == -1 {
            String::from_str("-")
        } else {
            self.text()
        }
    }
}

/// The text of the powers of an exponent vector, with the names of `ring`
/// for the variables where a ring is given.
pub fn powers_to_text(e: &Vec<(Var, usize)>, ring: Option<&Ring>) -> (r: String)
    requires
        named(e@, names_of(ring)),
    ensures
        r@ == powers_text(e@, 0, names_of(ring)),
{
    let ghost names = names_of(ring);
    let mut r = String::new();
    let mut i: usize = 0;
    proof {
        assert(Seq::<char>::empty() + powers_text(e@, 0, names) =~= powers_text(e@, 0, names));
    }
    while i < e.len()
        invariant
            i <= e@.len(),
            names == names_of(ring),
            named(e@, names),
            r@ + powers_text(e@, i as int, names) == powers_text(e@, 0, names),
        decreases e@.len() - i,
    {
        let ghost before = r@;
        let (v, d) = e[i];
        match ring {
            Some(rg) => {
                assert(e@[i as int].0.id < rg.names().len());
                r.append(rg.vars[v.id].as_str());
            },
            None => {
                r.append(v.text().as_str());
            },
        }
        let ghost mid = r@;
        if d != 1 {
            r.append("^");
            r.append(index_display(d).as_str());
        }
        proof {
            let name = var_name(names, v);
            let power = if d != 1 {
                "^"@ + index_text(d as int)
            } else {
                Seq::<char>::empty()
            };
            assert(mid =~= before + name);
            assert(r@ =~= before + name + power);
            assert(before + (name + power + powers_text(e@, i + 1, names)) =~= r@ + powers_text(
                e@,
                i + 1,
                names,
            ));
        }
        i += 1;
    }
    proof {
        assert(r@ + Seq::<char>::empty() =~= r@);
    }
    r
}

impl Mon<Rat> {
    /// The text of the monomial, with the names of `ring` for the
    /// variables where a ring is given.
    pub fn text(&self, ring: Option<&Ring>) -> (r: String)
        requires
            named(self.vars@, names_of(ring)),
        ensures
            r@ == mon_text(*self, names_of(ring)),
    {
        if self.vars.len() == 0 {
            self.coef.text()
        } else {
            let mut r = self.coef.factor_text();
            r.append(powers_to_text(&self.vars, ring).as_str());
            r
        }
    }
}

impl Mon<LinExp> {
    /// The text of the monomial, with the names of `ring` for the
    /// variables where a ring is given.
    pub fn text(&self, ring: Option<&Ring>) -> (r: String)
        requires
            self.coef.terms@.len() > 0,
            named(self.vars@, names_of(ring)),
        ensures
            r@ == tmon_text(*self, names_of(ring)),
    {
        if self.vars.len() == 0 {
            self.coef.text()
        } else {
            let mut r = self.coef.factor_text();
            r.append(powers_to_text(&self.vars, ring).as_str());
            r
        }
    }
}

impl Poly {
    /// Every variable of the polynomial has a name.
    pub open spec fn named_in(&self, names: Option<Seq<Seq<char>>>) -> bool {
        forall|i: int| 0 <= i < self.mons@.len() ==> named((#[trigger] self.mons@[i]).vars@, names)
    }

    /// The text of the polynomial, which has at least one monomial.
    pub fn text(&self, ring: Option<&Ring>) -> (r: String)
        requires
            self.mons@.len() > 0,
            self.named_in(names_of(ring)),
        ensures
            r@ == poly_text(self.mons@, names_of(ring)),
    {
        let ghost s = self.mons@;
        let ghost names = names_of(ring);
        let mut r = self.mons[0].text(ring);
        let ghost head = r@;
        let mut i: usize = 1;
        while i < self.mons.len()
            invariant
                1 <= i <= s.len(),
                s == self.mons@,
                names == names_of(ring),
                self.named_in(names),
                r@ + poly_tail(s, i as int, names) == head + poly_tail(s, 1, names),
            decreases s.len() - i,
        {
            let ghost before = r@;
            if self.mons[i].coef.num > 0 {
                r.append("+");
            }
            r.append(self.mons[i].text(ring).as_str());
            proof {
                let sign = if s[i as int].coef.num > 0 {
                    "+"@
                } else {
                    Seq::<char>::empty()
                };
                assert(r@ =~= before + sign + mon_text(s[i as int], names));
                assert(before + (sign + mon_text(s[i as int], names) + poly_tail(s, i + 1, names))
                    =~= r@ + poly_tail(s, i + 1, names));
            }
            i += 1;
        }
        proof {
            assert(r@ + Seq::<char>::empty() =~= r@);
        }
        r
    }
}

impl Temp {
    /// Every variable of the template has a name, and every coefficient a
    /// term.
    pub open spec fn named_in(&self, names: Option<Seq<Seq<char>>>) -> bool {
        forall|i: int|
            0 <= i < self.mons@.len() ==> named((#[trigger] self.mons@[i]).vars@, names)
                && self.mons@[i].coef.terms@.len() > 0
    }

    /// The text of the template, which has at least one monomial.
    pub fn text(&self, ring: Option<&Ring>) -> (r: String)
        requires
            self.mons@.len() > 0,
            self.named_in(names_of(ring)),
        ensures
            r@ == temp_text(self.mons@, names_of(ring)),
    {
        let ghost s = self.mons@;
        let ghost names = names_of(ring);
        let mut r = self.mons[0].text(ring);
        let ghost head = r@;
        let mut i: usize = 1;
        while i < self.mons.len()
            invariant
                1 <= i <= s.len(),
                s == self.mons@,
                names == names_of(ring),
                self.named_in(names),
                r@ + temp_tail(s, i as int, names) == head + temp_tail(s, 1, names),
            decreases s.len() - i,
        {
            let ghost before = r@;
            r.append("+");
            r.append(self.mons[i].text(ring).as_str());
            proof {
                assert(r@ =~= before + "+"@ + tmon_text(s[i as int], names));
                assert(before + ("+"@ + tmon_text(s[i as int], names) + temp_tail(
                    s,
                    i + 1,
                    names,
                )) =~= r@ + temp_tail(s, i + 1, names));
            }
            i += 1;
        }
        proof {
            assert(r@ + Seq::<char>::empty() =~= r@);
        }
        r
    }
}

/// The text of the coefficient of a parameter in a line of equations:
/// nothing where it is zero, and else the coefficient before the
/// parameter.
pub open spec fn cell_text(q: Rat, p: Par) -> Seq<char> {
    if q.num == 0 {
        Seq::empty()
    } else {
        factor_text(q) + par_text(p)
    }
}

/// The text of the cells of an equation for the parameters from `i` up to
/// `n`, each centered in its field.
pub open spec fn cells_text(le: LinExp, i: int, n: int) -> Seq<char>
    decreases n - i,
{
    if i < 0 || i >= n {
        Seq::empty()
    } else {
        centered(cell_text(le.coef_at(i), Par { id: i as usize })) + cells_text(le, i + 1, n)
    }
}

/// The text of an equation: its cells, `=`, its constant and the end of
/// the line.
pub open spec fn equation_text(eq: (LinExp, Rat), n: int) -> Seq<char> {
    cells_text(eq.0, 0, n) + "=  "@ + rat_text(eq.1) + "  \n"@
}

/// The text of the equations from the index `i` on.
pub open spec fn equations_text(eqs: Seq<(LinExp, Rat)>, i: int, n: int) -> Seq<char>
    decreases eqs.len() - i,
{
    if i < 0 || i >= eqs.len() {
        Seq::empty()
    } else {
        equation_text(eqs[i], n) + equations_text(eqs, i + 1, n)
    }
}

impl LinExp {
    /// The coefficient that the terms hold for the parameter with the
    /// ordinal `i`: that of the first term for it, or zero.
    pub open spec fn coef_at(&self, i: int) -> Rat {
        first_coef(self.terms@, 0, i)
    }

    /// The coefficient that the terms hold for the parameter `p`.
    pub fn held_coef(&self, p: Par) -> (c: Rat)
        ensures
            c == self.coef_at(p.id as int),
    {
        let mut i: usize = 0;
        while i < self.terms.len()
            invariant
                i <= self.terms@.len(),
                first_coef(self.terms@, 0, p.id as int) == first_coef(
                    self.terms@,
                    i as int,
                    p.id as int,
                ),
            decreases self.terms@.len() - i,
        {
            match self.terms[i].par {
                Some(q) => {
                    if q.id == p.id {
                        return self.terms[i].coef;
                    }
                },
                None => {},
            }
            i += 1;
        }
        Rat { num: 0, den: 1 }
    }
}

/// The coefficient of the first term from the index `i` on for the
/// parameter with the ordinal `p`, or zero.
pub open spec fn first_coef(s: Seq<ParTerm>, i: int, p: int) -> Rat
    decreases s.len() - i,
{
    if i < 0 || i >= s.len() {
        Rat { num: 0, den: 1 }
    } else if s[i].par matches Some(q) && q.id == p {
        s[i].coef
    } else {
        first_coef(s, i + 1, p)
    }
}

impl LinearEquations {
    /// The text of the equations: one line for each, with a field of six
    /// characters for each parameter.
    pub fn text(&self) -> (r: String)
        ensures
            r@ == equations_text(self.eqs@, 0, self.parsize as int),
    {
        let ghost n = self.parsize as int;
        let ghost eqs = self.eqs@;
        let mut r = String::new();
        let mut k: usize = 0;
        proof {
            assert(Seq::<char>::empty() + equations_text(eqs, 0, n) =~= equations_text(eqs, 0, n));
        }
        while k < self.eqs.len()
            invariant
                k <= eqs.len(),
                eqs == self.eqs@,
                n == self.parsize,
                r@ + equations_text(eqs, k as int, n) == equations_text(eqs, 0, n),
            decreases eqs.len() - k,
        {
            let ghost before = r@;
            let le = &self.eqs[k].0;
            let mut i: usize = 0;
            proof {
                assert(r@ + cells_text(*le, 0, n) =~= before + cells_text(*le, 0, n));
            }
            while i < self.parsize
                invariant
                    i <= self.parsize,
                    n == self.parsize,
                    k < eqs.len(),
                    le == &eqs[k as int].0,
                    r@ + cells_text(*le, i as int, n) == before + cells_text(*le, 0, n),
                decreases self.parsize - i,
            {
                let ghost mid = r@;
                let p = Par { id: i };
                let q = le.held_coef(p);
                let cell = if q.num == 0 {
                    String::new()
                } else {
                    let mut c = q.factor_text();
                    c.append(p.text().as_str());
                    c
                };
                r.append(center_display(cell.as_str()).as_str());
                proof {
                    let ct = centered(cell_text(le.coef_at(i as int), p));
                    assert(r@ =~= mid + ct);
                    assert(mid + (ct + cells_text(*le, i + 1, n)) =~= r@ + cells_text(
                        *le,
                        i + 1,
                        n,
                    ));
                }
                i += 1;
            }
            let ghost cells = r@;
            r.append("=  ");
            r.append(self.eqs[k].1.text().as_str());
            r.append("  \n");
            proof {
                assert(cells + Seq::<char>::empty() =~= cells);
                let line = equation_text(eqs[k as int], n);
                assert(r@ =~= before + line);
                assert(before + (line + equations_text(eqs, k + 1, n)) =~= r@ + equations_text(
                    eqs,
                    k + 1,
                    n,
                ));
            }
            k += 1;
        }
        proof {
            assert(r@ + Seq::<char>::empty() =~= r@);
        }
        r
    }
}

} // verus!
