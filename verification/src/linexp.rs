//! Linear expressions in the parameters: the coefficients of a template.
//!
//! A linear expression is a rational constant plus rational multiples of
//! parameters. It is held as a list of terms sorted by key, the constant
//! first and the parameters in the order of their ordinals, with at most one
//! term for each key and no term with coefficient zero; the expression zero
//! is the single constant term `0`.
use crate::coef::Coef;
use crate::exps::Order;
use crate::rat::{fits, Rat};
use crate::ring::Par;
use vstd::prelude::*;

verus! {

/// A rational multiple of a parameter, or a constant where `par` is `None`.
#[derive(Clone, Copy, PartialEq, Eq, Hash, Debug)]
pub struct ParTerm {
    pub par: Option<Par>,
    pub coef: Rat,
}

/// A linear expression in the parameters.
#[derive(Clone, PartialEq, Eq, Hash, Debug)]
pub struct LinExp {
    pub terms: Vec<ParTerm>,
}

/// What a linear expression denotes: the coefficient of each key, where the
/// key `None` stands for the constant.
pub type LinVal = spec_fn(Option<Par>) -> real;

/// The place of a key in the order of the terms.
pub open spec fn key_rank(k: Option<Par>) -> int {
    match k {
        None => -1,
        Some(p) => p.id as int,
    }
}

/// The coefficient of the key `k` in a list of terms: the sum of the
/// coefficients of the terms that bear it.
pub open spec fn lin_at(s: Seq<ParTerm>, k: Option<Par>) -> real
    decreases s.len(),
{
    if s.len() == 0 {
        0 as real
    } else if s.last().par == k {
        lin_at(s.drop_last(), k) + s.last().coef@
    } else {
        lin_at(s.drop_last(), k)
    }
}

/// Terms that are well formed and not zero, with strictly increasing keys.
pub open spec fn lin_proper(s: Seq<ParTerm>) -> bool {
    &&& forall|i: int| 0 <= i < s.len() ==> Rat::wf((#[trigger] s[i]).coef) && s[i].coef@ != 0 as real
    &&& forall|i: int, j: int|
        0 <= i < j < s.len() ==> key_rank((#[trigger] s[i]).par) < key_rank((#[trigger] s[j]).par)
}

/// The constant term zero.
pub open spec fn zero_term() -> ParTerm {
    ParTerm { par: None, coef: Rat { num: 0, den: 1 } }
}

/// The single zero term, or a proper list that is not empty.
pub open spec fn lin_canonical(s: Seq<ParTerm>) -> bool {
    s == seq![zero_term()] || (s.len() > 0 && lin_proper(s))
}

pub open spec fn lv_zero() -> LinVal {
    |k: Option<Par>| 0 as real
}

pub open spec fn lv_one() -> LinVal {
    |k: Option<Par>|
        if k.is_none() {
            1 as real
        } else {
            0 as real
        }
}

/// The constant `c`.
pub open spec fn lv_const(c: real) -> LinVal {
    |k: Option<Par>|
        if k.is_none() {
            c
        } else {
            0 as real
        }
}

/// The parameter `p` alone.
pub open spec fn lv_par(p: Par) -> LinVal {
    |k: Option<Par>|
        if k == Some(p) {
            1 as real
        } else {
            0 as real
        }
}

pub open spec fn lv_add(a: LinVal, b: LinVal) -> LinVal {
    |k: Option<Par>| a(k) + b(k)
}

pub open spec fn lv_scale(a: LinVal, c: real) -> LinVal {
    |k: Option<Par>| a(k) * c
}

/// Every coefficient fits in 64 bits.
pub open spec fn lv_fits(a: LinVal) -> bool {
    forall|k: Option<Par>| fits(#[trigger] a(k))
}

/// A key that no term bears has coefficient zero.
pub proof fn lemma_lin_absent(s: Seq<ParTerm>, k: Option<Par>)
    requires
        forall|i: int| 0 <= i < s.len() ==> (#[trigger] s[i]).par != k,
    ensures
        lin_at(s, k) == 0 as real,
    decreases s.len(),
{
    if s.len() > 0 {
        assert(s[s.len() - 1].par != k);
        lemma_lin_absent(s.drop_last(), k);
    }
}

/// Two keys of the same rank are the same key.
pub proof fn lemma_key_rank(a: Option<Par>, b: Option<Par>)
    ensures
        key_rank(a) == key_rank(b) <==> a == b,
{
}

/// In a proper list the coefficient of a term's key is the coefficient of
/// that term.
pub proof fn lemma_lin_at(s: Seq<ParTerm>, i: int)
    requires
        lin_proper(s),
        0 <= i < s.len(),
    ensures
        lin_at(s, s[i].par) == s[i].coef@,
    decreases s.len(),
{
    let k = s[i].par;
    let s0 = s.drop_last();
    if i == s.len() - 1 {
        assert forall|j: int| 0 <= j < s0.len() implies (#[trigger] s0[j]).par != k by {
            assert(s0[j] == s[j]);
            assert(key_rank(s[j].par) < key_rank(s[i].par));
        }
        lemma_lin_absent(s0, k);
    } else {
        assert(key_rank(s[i].par) < key_rank(s[s.len() - 1].par));
        assert(s0[i] == s[i]);
        assert(lin_proper(s0)) by {
            assert forall|a: int| 0 <= a < s0.len() implies Rat::wf((#[trigger] s0[a]).coef)
                && s0[a].coef@ != 0 as real by {
                assert(s0[a] == s[a]);
            }
            assert forall|a: int, b: int| 0 <= a < b < s0.len() implies key_rank(
                (#[trigger] s0[a]).par,
            ) < key_rank((#[trigger] s0[b]).par) by {
                assert(s0[a] == s[a] && s0[b] == s[b]);
            }
        }
        lemma_lin_at(s0, i);
    }
}

/// Inserting a term adds its coefficient to the coefficient of its key.
pub proof fn lemma_lin_insert(s: Seq<ParTerm>, i: int, t: ParTerm, k: Option<Par>)
    requires
        0 <= i <= s.len(),
    ensures
        lin_at(s.insert(i, t), k) == lin_at(s, k) + if t.par == k {
            t.coef@
        } else {
            0 as real
        },
    decreases s.len() - i,
{
    let r = s.insert(i, t);
    if i == s.len() {
        assert(r.drop_last() == s);
    } else {
        lemma_lin_insert(s.drop_last(), i, t, k);
        assert(r.drop_last() == s.drop_last().insert(i, t));
        assert(r.last() == s.last());
    }
}

/// Removing a term takes its coefficient from the coefficient of its key.
pub proof fn lemma_lin_remove(s: Seq<ParTerm>, i: int, k: Option<Par>)
    requires
        0 <= i < s.len(),
    ensures
        lin_at(s.remove(i), k) == lin_at(s, k) - if s[i].par == k {
            s[i].coef@
        } else {
            0 as real
        },
    decreases s.len() - i,
{
    let r = s.remove(i);
    if i == s.len() - 1 {
        assert(r == s.drop_last());
    } else {
        lemma_lin_remove(s.drop_last(), i, k);
        assert(r.drop_last() == s.drop_last().remove(i));
        assert(r.last() == s.last());
    }
}

/// Every coefficient of a proper list fits in 64 bits.
pub proof fn lemma_lin_fits(s: Seq<ParTerm>, k: Option<Par>)
    requires
        lin_canonical(s),
    ensures
        fits(lin_at(s, k)),
{
    let z = Rat { num: 0, den: 1 };
    assert(z@ == 0 as real) by (nonlinear_arith)
        requires
            z@ == 0 as real / 1 as real,
    ;
    z.lemma_fits();
    if s == seq![zero_term()] {
        assert(s.drop_last() =~= Seq::empty());
        assert(lin_at(s.drop_last(), k) == 0 as real);
    } else if exists|i: int| 0 <= i < s.len() && (#[trigger] s[i]).par == k {
        let i = choose|i: int| 0 <= i < s.len() && (#[trigger] s[i]).par == k;
        lemma_lin_at(s, i);
        s[i].coef.lemma_fits();
    } else {
        lemma_lin_absent(s, k);
    }
}

/// Two proper lists with the same coefficients are the same list.
pub proof fn lemma_lin_unique(a: Seq<ParTerm>, b: Seq<ParTerm>)
    requires
        lin_proper(a),
        lin_proper(b),
        forall|k: Option<Par>| lin_at(a, k) == lin_at(b, k),
    ensures
        a == b,
    decreases a.len() + b.len(),
{
    if a.len() == 0 && b.len() == 0 {
        assert(a =~= b);
    } else if a.len() == 0 {
        lemma_lin_at(b, 0);
        assert(lin_at(a, b[0].par) == 0 as real);
    } else if b.len() == 0 {
        lemma_lin_at(a, 0);
        assert(lin_at(b, a[0].par) == 0 as real);
    } else {
        let x = a.last();
        let y = b.last();
        let a0 = a.drop_last();
        let b0 = b.drop_last();
        lemma_lin_at(a, a.len() - 1);
        lemma_lin_at(b, b.len() - 1);
        if key_rank(x.par) > key_rank(y.par) {
            assert forall|j: int| 0 <= j < b.len() implies (#[trigger] b[j]).par != x.par by {
                if j < b.len() - 1 {
                    assert(key_rank(b[j].par) < key_rank(b[b.len() - 1].par));
                }
            }
            lemma_lin_absent(b, x.par);
        } else if key_rank(x.par) < key_rank(y.par) {
            assert forall|j: int| 0 <= j < a.len() implies (#[trigger] a[j]).par != y.par by {
                if j < a.len() - 1 {
                    assert(key_rank(a[j].par) < key_rank(a[a.len() - 1].par));
                }
            }
            lemma_lin_absent(a, y.par);
        } else {
            lemma_key_rank(x.par, y.par);
            assert(x.coef@ == y.coef@);
            assert(Rat::wf(a[a.len() - 1].coef) && Rat::wf(b[b.len() - 1].coef));
            x.coef.lemma_view_injective(y.coef);
            assert(x == y);
            assert(lin_proper(a0)) by {
                assert forall|i: int| 0 <= i < a0.len() implies Rat::wf((#[trigger] a0[i]).coef)
                    && a0[i].coef@ != 0 as real by {
                    assert(a0[i] == a[i]);
                }
                assert forall|i: int, j: int| 0 <= i < j < a0.len() implies key_rank(
                    (#[trigger] a0[i]).par,
                ) < key_rank((#[trigger] a0[j]).par) by {
                    assert(a0[i] == a[i] && a0[j] == a[j]);
                }
            }
            assert(lin_proper(b0)) by {
                assert forall|i: int| 0 <= i < b0.len() implies Rat::wf((#[trigger] b0[i]).coef)
                    && b0[i].coef@ != 0 as real by {
                    assert(b0[i] == b[i]);
                }
                assert forall|i: int, j: int| 0 <= i < j < b0.len() implies key_rank(
                    (#[trigger] b0[i]).par,
                ) < key_rank((#[trigger] b0[j]).par) by {
                    assert(b0[i] == b[i] && b0[j] == b[j]);
                }
            }
            assert forall|k: Option<Par>| lin_at(a0, k) == lin_at(b0, k) by {
                assert(lin_at(a, k) == lin_at(b, k));
            }
            lemma_lin_unique(a0, b0);
            assert(a == a0.push(x));
            assert(b == b0.push(y));
        }
    }
}

impl ParTerm {
    /// The constant zero.
    pub fn zero() -> (t: ParTerm)
        ensures
            t == zero_term(),
            Rat::wf(t.coef),
            t.coef@ == 0 as real,
    {
        ParTerm { par: None, coef: Rat::zero() }
    }

    /// The constant one.
    pub fn one() -> (t: ParTerm)
        ensures
            t.par.is_none(),
            Rat::wf(t.coef),
            t.coef@ == 1 as real,
    {
        ParTerm { par: None, coef: Rat::one() }
    }

    /// The parameter `p` with coefficient one.
    pub fn from_par(p: Par) -> (t: ParTerm)
        ensures
            t.par == Some(p),
            Rat::wf(t.coef),
            t.coef@ == 1 as real,
    {
        ParTerm { par: Some(p), coef: Rat::one() }
    }

    /// Whether the term is the constant zero.
    pub fn is_zero(self) -> (b: bool)
        requires
            Rat::wf(self.coef),
        ensures
            b == (self.par.is_none() && self.coef@ == 0 as real),
    {
        self.par.is_none() && self.coef.is_zero()
    }

    /// Whether the term is a constant.
    pub fn is_cnst(self) -> (b: bool)
        ensures
            b == self.par.is_none(),
    {
        self.par.is_none()
    }

    /// The term with its coefficient multiplied by `c`; `None` when the
    /// product does not fit in 64 bits.
    pub fn scale(self, c: &Rat) -> (out: Option<ParTerm>)
        requires
            Rat::wf(self.coef),
            Rat::wf(*c),
        ensures
            out.is_some() <==> fits(self.coef@ * c@),
            out matches Some(t) ==> t.par == self.par && Rat::wf(t.coef) && t.coef@ == self.coef@
                * c@,
    {
        match self.coef.mul(c) {
            None => None,
            Some(q) => Some(ParTerm { par: self.par, coef: q }),
        }
    }

    /// The order of terms: the constant zero lies below every other term,
    /// the other constants lie below every parameter and compare equal
    /// among themselves, and parameters compare by their ordinals.
    pub open spec fn order(self, other: ParTerm) -> Order {
        if self.par.is_none() && other.par.is_none() {
            if (self.coef@ == 0 as real) == (other.coef@ == 0 as real) {
                Order::Equal
            } else if self.coef@ == 0 as real {
                Order::Less
            } else {
                Order::Greater
            }
        } else if key_rank(self.par) < key_rank(other.par) {
            Order::Less
        } else if key_rank(self.par) > key_rank(other.par) {
            Order::Greater
        } else {
            Order::Equal
        }
    }

    /// The place of `self` relative to `other` in the order of terms.
    pub fn compare(self, other: ParTerm) -> (r: Order)
        requires
            Rat::wf(self.coef),
            Rat::wf(other.coef),
        ensures
            r == self.order(other),
    {
        match (self.par, other.par) {
            (None, None) => {
                let a = self.coef.is_zero();
                let b = other.coef.is_zero();
                if a == b {
                    Order::Equal
                } else if a {
                    Order::Less
                } else {
                    Order::Greater
                }
            },
            (None, Some(_)) => Order::Less,
            (Some(_), None) => Order::Greater,
            (Some(p), Some(q)) => {
                if p.id < q.id {
                    Order::Less
                } else if p.id > q.id {
                    Order::Greater
                } else {
                    Order::Equal
                }
            },
        }
    }

    /// Whether `self` lies strictly below `other` in the order of terms.
    pub fn lt(self, other: ParTerm) -> (b: bool)
        requires
            Rat::wf(self.coef),
            Rat::wf(other.coef),
        ensures
            b == (self.order(other) == Order::Less),
    {
        match self.compare(other) {
            Order::Less => true,
            _ => false,
        }
    }
}

/// The rank of a key, as a pair that compares like the rank.
fn key_lt(a: Option<Par>, b: Option<Par>) -> (r: bool)
    ensures
        r == (key_rank(a) < key_rank(b)),
{
    match (a, b) {
        (None, None) => false,
        (None, Some(_)) => true,
        (Some(_), None) => false,
        (Some(p), Some(q)) => p.id < q.id,
    }
}

fn key_eq(a: Option<Par>, b: Option<Par>) -> (r: bool)
    ensures
        r == (a == b),
{
    match (a, b) {
        (None, None) => true,
        (None, Some(_)) => false,
        (Some(_), None) => false,
        (Some(p), Some(q)) => p.id == q.id,
    }
}

/// Adds the term `t` to a proper list. Returns `false`, and leaves the list
/// as it was, exactly when the sum of `t` and the term of its key does not
/// fit in 64 bits.
fn put(list: &mut Vec<ParTerm>, t: ParTerm) -> (ok: bool)
    requires
        lin_proper(old(list)@),
        Rat::wf(t.coef),
    ensures
        ok <==> fits(lin_at(old(list)@, t.par) + t.coef@),
        ok ==> lin_proper(final(list)@) && forall|k: Option<Par>| #[trigger]
            lin_at(final(list)@, k) == lin_at(old(list)@, k) + if k == t.par {
                t.coef@
            } else {
                0 as real
            },
        !ok ==> final(list)@ == old(list)@,
{
    let ghost s = list@;
    if t.coef.is_zero() {
        proof {
            if s.len() > 0 {
                lemma_lin_fits(s, t.par);
            } else {
                t.coef.lemma_fits();
            }
        }
        return true;
    }
    let mut i: usize = 0;
    while i < list.len() && key_lt(list[i].par, t.par)
        invariant
            i <= list@.len(),
            list@ == s,
            forall|j: int| 0 <= j < i ==> key_rank((#[trigger] s[j]).par) < key_rank(t.par),
        decreases list@.len() - i,
    {
        i += 1;
    }
    if i < list.len() && key_eq(list[i].par, t.par) {
        proof {
            lemma_lin_at(s, i as int);
        }
        match list[i].coef.add(&t.coef) {
            None => false,
            Some(c) => {
                if c.is_zero() {
                    list.remove(i);
                    proof {
                        let r = list@;
                        assert(r == s.remove(i as int));
                        assert forall|a: int| 0 <= a < r.len() implies Rat::wf(
                            (#[trigger] r[a]).coef,
                        ) && r[a].coef@ != 0 as real by {
                            if a < i {
                                assert(r[a] == s[a]);
                            } else {
                                assert(r[a] == s[a + 1]);
                            }
                        }
                        assert forall|a: int, b: int| 0 <= a < b < r.len() implies key_rank(
                            (#[trigger] r[a]).par,
                        ) < key_rank((#[trigger] r[b]).par) by {
                            let a1 = if a < i {
                                a
                            } else {
                                a + 1
                            };
                            let b1 = if b < i {
                                b
                            } else {
                                b + 1
                            };
                            assert(r[a] == s[a1] && r[b] == s[b1]);
                        }
                        assert forall|k: Option<Par>| #[trigger]
                            lin_at(r, k) == lin_at(s, k) + if k == t.par {
                                t.coef@
                            } else {
                                0 as real
                            } by {
                            lemma_lin_remove(s, i as int, k);
                        }
                    }
                    true
                } else {
                    let nt = ParTerm { par: t.par, coef: c };
                    list.set(i, nt);
                    proof {
                        let r = list@;
                        assert(r == s.update(i as int, nt));
                        assert(r =~= s.remove(i as int).insert(i as int, nt));
                        assert forall|a: int| 0 <= a < r.len() implies Rat::wf(
                            (#[trigger] r[a]).coef,
                        ) && r[a].coef@ != 0 as real by {
                            if a != i {
                                assert(r[a] == s[a]);
                            }
                        }
                        assert forall|a: int, b: int| 0 <= a < b < r.len() implies key_rank(
                            (#[trigger] r[a]).par,
                        ) < key_rank((#[trigger] r[b]).par) by {
                            assert(r[a].par == s[a].par && r[b].par == s[b].par);
                        }
                        assert forall|k: Option<Par>| #[trigger]
                            lin_at(r, k) == lin_at(s, k) + if k == t.par {
                                t.coef@
                            } else {
                                0 as real
                            } by {
                            lemma_lin_remove(s, i as int, k);
                            lemma_lin_insert(s.remove(i as int), i as int, nt, k);
                        }
                    }
                    true
                }
            },
        }
    } else {
        proof {
            assert forall|j: int| 0 <= j < s.len() implies (#[trigger] s[j]).par != t.par by {
                lemma_key_rank(s[j].par, t.par);
                if j > i {
                    assert(key_rank(s[i as int].par) < key_rank(s[j].par));
                }
            }
            lemma_lin_absent(s, t.par);
            t.coef.lemma_fits();
        }
        list.insert(i, t);
        proof {
            let r = list@;
            assert(r == s.insert(i as int, t));
            assert forall|a: int| 0 <= a < r.len() implies Rat::wf((#[trigger] r[a]).coef)
                && r[a].coef@ != 0 as real by {
                if a < i {
                    assert(r[a] == s[a]);
                } else if a > i {
                    assert(r[a] == s[a - 1]);
                }
            }
            assert forall|a: int, b: int| 0 <= a < b < r.len() implies key_rank(
                (#[trigger] r[a]).par,
            ) < key_rank((#[trigger] r[b]).par) by {
                lemma_key_rank(s[i as int].par, t.par);
                if a < i && b > i {
                    assert(r[a] == s[a] && r[b] == s[b - 1]);
                    if b - 1 > i {
                        assert(key_rank(s[i as int].par) < key_rank(s[b - 1].par));
                    }
                } else if a < i && b < i {
                    assert(r[a] == s[a] && r[b] == s[b]);
                } else if a > i {
                    assert(r[a] == s[a - 1] && r[b] == s[b - 1]);
                } else if a == i && b > i {
                    assert(r[b] == s[b - 1]);
                    if b - 1 > i {
                        assert(key_rank(s[i as int].par) < key_rank(s[b - 1].par));
                    }
                } else {
                    assert(r[a] == s[a]);
                }
            }
            assert forall|k: Option<Par>| #[trigger]
                lin_at(r, k) == lin_at(s, k) + if k == t.par {
                    t.coef@
                } else {
                    0 as real
                } by {
                lemma_lin_insert(s, i as int, t, k);
            }
        }
        true
    }
}

/// A list whose terms have the keys of `s` and `c` times its coefficients
/// has `c` times its coefficient function.
proof fn lemma_lin_scaled(s: Seq<ParTerm>, r: Seq<ParTerm>, c: real, k: Option<Par>)
    requires
        r.len() == s.len(),
        forall|i: int|
            0 <= i < s.len() ==> (#[trigger] r[i]).par == s[i].par && r[i].coef@ == s[i].coef@ * c,
    ensures
        lin_at(r, k) == lin_at(s, k) * c,
    decreases s.len(),
{
    if s.len() == 0 {
        assert(0 as real * c == 0 as real) by (nonlinear_arith);
    } else {
        let s0 = s.drop_last();
        let r0 = r.drop_last();
        assert forall|i: int| 0 <= i < s0.len() implies (#[trigger] r0[i]).par == s0[i].par
            && r0[i].coef@ == s0[i].coef@ * c by {
            assert(r0[i] == r[i] && s0[i] == s[i]);
        }
        lemma_lin_scaled(s0, r0, c, k);
        assert(r[r.len() - 1].par == s[s.len() - 1].par);
        let x = lin_at(s0, k);
        let y = s.last().coef@;
        assert((x + y) * c == x * c + y * c) by (nonlinear_arith);
    }
}

impl LinExp {
    /// The representation invariant: the terms form a canonical list.
    pub open spec fn wf(&self) -> bool {
        lin_canonical(self.terms@)
    }

    /// The coefficient function denoted.
    pub open spec fn view(&self) -> LinVal {
        |k: Option<Par>| lin_at(self.terms@, k)
    }

    /// Two well-formed expressions with the same coefficients have the same
    /// terms.
    pub proof fn lemma_view_injective(&self, other: &LinExp)
        requires
            self.wf(),
            other.wf(),
            self@ == other@,
        ensures
            self.terms@ == other.terms@,
    {
        let a = self.terms@;
        let b = other.terms@;
        let z = seq![zero_term()];
        assert forall|k: Option<Par>| lin_at(a, k) == lin_at(b, k) by {
            assert(self@(k) == lin_at(a, k));
            assert(other@(k) == lin_at(b, k));
        }
        assert(z.drop_last() =~= Seq::empty());
        assert(zero_term().coef@ == 0 as real) by (nonlinear_arith)
            requires
                zero_term().coef@ == 0 as real / 1 as real,
        ;
        if a == z && b == z {
        } else if a == z {
            lemma_lin_at(b, 0);
            assert(lin_at(a, b[0].par) == 0 as real) by {
                assert(lin_at(z.drop_last(), b[0].par) == 0 as real);
            }
        } else if b == z {
            lemma_lin_at(a, 0);
            assert(lin_at(b, a[0].par) == 0 as real) by {
                assert(lin_at(z.drop_last(), a[0].par) == 0 as real);
            }
        } else {
            lemma_lin_unique(a, b);
        }
    }

    /// Makes a proper list an expression: the empty list becomes zero.
    fn finish(list: Vec<ParTerm>) -> (r: LinExp)
        requires
            lin_proper(list@),
        ensures
            r.wf(),
            forall|k: Option<Par>| #[trigger] lin_at(r.terms@, k) == lin_at(list@, k),
    {
        if list.len() == 0 {
            let mut terms: Vec<ParTerm> = Vec::new();
            terms.push(ParTerm::zero());
            proof {
                assert(terms@ =~= seq![zero_term()]);
                assert(terms@.drop_last() =~= Seq::empty());
                assert forall|k: Option<Par>| #[trigger] lin_at(terms@, k) == lin_at(list@, k) by {
                    assert(lin_at(terms@.drop_last(), k) == 0 as real);
                }
            }
            LinExp { terms }
        } else {
            LinExp { terms: list }
        }
    }

    /// The terms without the zero sentinel.
    fn stripped(&self) -> (r: Vec<ParTerm>)
        requires
            self.wf(),
        ensures
            lin_proper(r@),
            forall|k: Option<Par>| #[trigger] lin_at(r@, k) == lin_at(self.terms@, k),
    {
        let ghost z = seq![zero_term()];
        proof {
            assert(zero_term().coef@ == 0 as real) by (nonlinear_arith)
                requires
                    zero_term().coef@ == 0 as real / 1 as real,
            ;
            assert(z.drop_last() =~= Seq::empty());
            assert(Rat::wf(zero_term().coef));
        }
        if self.terms.len() == 1 && self.terms[0].is_zero() {
            proof {
                if self.terms@ != z {
                    assert(self.terms@[0].coef@ != 0 as real);
                }
                assert forall|k: Option<Par>| lin_at(z, k) == 0 as real by {
                    assert(lin_at(z.drop_last(), k) == 0 as real);
                }
            }
            Vec::new()
        } else {
            proof {
                if self.terms@ == z {
                    assert(self.terms@[0] == zero_term());
                }
            }
            let mut r: Vec<ParTerm> = Vec::new();
            let mut i: usize = 0;
            while i < self.terms.len()
                invariant
                    i <= self.terms@.len(),
                    r@ == self.terms@.take(i as int),
                decreases self.terms@.len() - i,
            {
                r.push(self.terms[i]);
                assert(self.terms@.take(i + 1) == self.terms@.take(i as int).push(
                    self.terms@[i as int],
                ));
                i += 1;
            }
            assert(self.terms@.take(self.terms@.len() as int) == self.terms@);
            r
        }
    }

    /// The expression zero.
    pub fn zero() -> (r: LinExp)
        ensures
            r.wf(),
            r@ == lv_zero(),
            r.terms@ == seq![zero_term()],
    {
        let mut terms: Vec<ParTerm> = Vec::new();
        terms.push(ParTerm::zero());
        let r = LinExp { terms };
        proof {
            assert(r.terms@ =~= seq![zero_term()]);
            assert(r.terms@.drop_last() =~= Seq::empty());
            assert forall|k: Option<Par>| #[trigger] r@(k) == lv_zero()(k) by {
                assert(lin_at(r.terms@.drop_last(), k) == 0 as real);
            }
            assert(r@ =~= lv_zero());
        }
        r
    }

    /// The constant one.
    pub fn one() -> (r: LinExp)
        ensures
            r.wf(),
            r@ == lv_one(),
    {
        let mut terms: Vec<ParTerm> = Vec::new();
        terms.push(ParTerm::one());
        let r = LinExp { terms };
        proof {
            assert(r.terms@.drop_last() =~= Seq::empty());
            assert forall|k: Option<Par>| #[trigger] r@(k) == lv_one()(k) by {
                assert(lin_at(r.terms@.drop_last(), k) == 0 as real);
            }
            assert(r@ =~= lv_one());
        }
        r
    }

    /// The constant `c`.
    pub fn from_const(c: Rat) -> (r: LinExp)
        requires
            Rat::wf(c),
        ensures
            r.wf(),
            r@ == lv_const(c@),
    {
        let mut list: Vec<ParTerm> = Vec::new();
        let ok = put(&mut list, ParTerm { par: None, coef: c });
        proof {
            assert(lin_at(Seq::<ParTerm>::empty(), None) == 0 as real);
            c.lemma_fits();
        }
        let r = LinExp::finish(list);
        proof {
            assert forall|k: Option<Par>| #[trigger] r@(k) == lv_const(c@)(k) by {
                assert(lin_at(Seq::<ParTerm>::empty(), k) == 0 as real);
            }
            assert(r@ =~= lv_const(c@));
        }
        r
    }

    /// The parameter `p` alone.
    pub fn from_par(p: Par) -> (r: LinExp)
        ensures
            r.wf(),
            r@ == lv_par(p),
            r.terms@.len() == 1,
            r.terms@[0].par == Some(p),
            r.terms@[0].coef@ == 1 as real,
    {
        let mut terms: Vec<ParTerm> = Vec::new();
        terms.push(ParTerm::from_par(p));
        let r = LinExp { terms };
        proof {
            assert(r.terms@.drop_last() =~= Seq::empty());
            assert forall|k: Option<Par>| #[trigger] r@(k) == lv_par(p)(k) by {
                assert(lin_at(r.terms@.drop_last(), k) == 0 as real);
            }
            assert(r@ =~= lv_par(p));
        }
        r
    }

    /// Whether the expression is zero.
    pub fn is_zero(&self) -> (b: bool)
        requires
            self.wf(),
        ensures
            b == (self@ == lv_zero()),
            b == (self.terms@ == seq![zero_term()]),
    {
        let b = self.terms.len() == 1 && self.terms[0].is_zero();
        proof {
            let z = seq![zero_term()];
            assert(zero_term().coef@ == 0 as real) by (nonlinear_arith)
                requires
                    zero_term().coef@ == 0 as real / 1 as real,
            ;
            assert(z.drop_last() =~= Seq::empty());
            if self.terms@ == z {
                assert(self.terms@[0] == zero_term());
                assert forall|k: Option<Par>| #[trigger] self@(k) == lv_zero()(k) by {
                    assert(lin_at(z.drop_last(), k) == 0 as real);
                }
                assert(self@ =~= lv_zero());
            } else {
                lemma_lin_at(self.terms@, 0);
                assert(self.terms@[0].coef@ != 0 as real);
                assert(self@(self.terms@[0].par) != lv_zero()(self.terms@[0].par));
            }
        }
        b
    }

    /// Whether the expression is a constant: it has no parameter.
    pub fn is_cnst(&self) -> (b: bool)
        requires
            self.wf(),
        ensures
            b == (forall|p: Par| self@(Some(p)) == 0 as real),
            b == (self.terms@.len() == 1 && self.terms@[0].par.is_none()),
    {
        let b = self.terms.len() == 1 && self.terms[0].par.is_none();
        proof {
            let s = self.terms@;
            let z = seq![zero_term()];
            assert(z.drop_last() =~= Seq::empty());
            if b {
                assert forall|p: Par| self@(Some(p)) == 0 as real by {
                    lemma_lin_absent(s, Some(p));
                }
            } else {
                if s == z {
                    assert(s[0] == zero_term());
                }
                let i = s.len() - 1;
                lemma_lin_at(s, i);
                if s.len() > 1 {
                    assert(key_rank(s[0].par) < key_rank(s[i].par));
                }
                let p = s[i].par.unwrap();
                assert(self@(Some(p)) == s[i].coef@);
            }
        }
        b
    }

    /// The constant term.
    pub fn constant(&self) -> (c: Rat)
        requires
            self.wf(),
        ensures
            Rat::wf(c),
            c@ == self@(None),
    {
        proof {
            let s = self.terms@;
            let z = seq![zero_term()];
            assert(z.drop_last() =~= Seq::empty());
            assert(zero_term().coef@ == 0 as real) by (nonlinear_arith)
                requires
                    zero_term().coef@ == 0 as real / 1 as real,
            ;
            if s == z {
                assert(s[0] == zero_term());
                assert(lin_at(z.drop_last(), None) == 0 as real);
            } else {
                lemma_lin_at(s, 0);
                if s[0].par.is_some() {
                    assert forall|j: int| 0 <= j < s.len() implies (#[trigger] s[j]).par
                        != None::<Par> by {
                        if j > 0 {
                            assert(key_rank(s[0].par) < key_rank(s[j].par));
                        }
                    }
                    lemma_lin_absent(s, None);
                }
            }
        }
        if self.terms[0].par.is_none() {
            self.terms[0].coef
        } else {
            Rat::zero()
        }
    }

    /// The coefficient of the parameter `p`.
    pub fn coef_of(&self, p: Par) -> (c: Rat)
        requires
            self.wf(),
        ensures
            Rat::wf(c),
            c@ == self@(Some(p)),
    {
        let ghost s = self.terms@;
        proof {
            let z = seq![zero_term()];
            if s == z {
                assert(s[0] == zero_term());
            }
        }
        let mut i: usize = 0;
        while i < self.terms.len()
            invariant
                i <= s.len(),
                s == self.terms@,
                self.wf(),
                forall|j: int| 0 <= j < i ==> (#[trigger] s[j]).par != Some(p),
            decreases s.len() - i,
        {
            if key_eq(self.terms[i].par, Some(p)) {
                proof {
                    if s == seq![zero_term()] {
                        assert(s[0] == zero_term());
                    }
                    assert(lin_proper(s));
                    lemma_lin_at(s, i as int);
                }
                return self.terms[i].coef;
            }
            i += 1;
        }
        proof {
            lemma_lin_absent(s, Some(p));
        }
        Rat::zero()
    }

    /// The expression without its constant term.
    pub fn without_constant(&self) -> (r: LinExp)
        requires
            self.wf(),
        ensures
            r.wf(),
            r@(None) == 0 as real,
            forall|p: Par| r@(Some(p)) == self@(Some(p)),
    {
        let mut list = self.stripped();
        let ghost s = list@;
        if list.len() > 0 && list[0].par.is_none() {
            list.remove(0);
            proof {
                let r = list@;
                assert(r == s.remove(0));
                assert forall|a: int| 0 <= a < r.len() implies Rat::wf((#[trigger] r[a]).coef)
                    && r[a].coef@ != 0 as real by {
                    assert(r[a] == s[a + 1]);
                }
                assert forall|a: int, b: int| 0 <= a < b < r.len() implies key_rank(
                    (#[trigger] r[a]).par,
                ) < key_rank((#[trigger] r[b]).par) by {
                    assert(r[a] == s[a + 1] && r[b] == s[b + 1]);
                }
                assert forall|j: int| 0 <= j < r.len() implies (#[trigger] r[j]).par
                    != None::<Par> by {
                    assert(r[j] == s[j + 1]);
                    assert(key_rank(s[0].par) < key_rank(s[j + 1].par));
                }
                lemma_lin_absent(r, None);
                assert forall|p: Par| lin_at(r, Some(p)) == lin_at(s, Some(p)) by {
                    lemma_lin_remove(s, 0, Some(p));
                }
            }
        } else {
            proof {
                assert forall|j: int| 0 <= j < s.len() implies (#[trigger] s[j]).par
                    != None::<Par> by {
                    if j > 0 {
                        assert(key_rank(s[0].par) < key_rank(s[j].par));
                    }
                }
                lemma_lin_absent(s, None);
            }
        }
        let ghost mid = list@;
        let r = LinExp::finish(list);
        proof {
            assert(r@(None) == lin_at(r.terms@, None));
            assert forall|p: Par| r@(Some(p)) == self@(Some(p)) by {
                assert(lin_at(r.terms@, Some(p)) == lin_at(mid, Some(p)));
                assert(lin_at(s, Some(p)) == lin_at(self.terms@, Some(p)));
            }
        }
        r
    }

    /// A copy.
    pub fn dup(&self) -> (r: LinExp)
        ensures
            r.terms@ == self.terms@,
    {
        let mut terms: Vec<ParTerm> = Vec::new();
        let mut i: usize = 0;
        while i < self.terms.len()
            invariant
                i <= self.terms@.len(),
                terms@ == self.terms@.take(i as int),
            decreases self.terms@.len() - i,
        {
            terms.push(self.terms[i]);
            assert(self.terms@.take(i + 1) == self.terms@.take(i as int).push(
                self.terms@[i as int],
            ));
            i += 1;
        }
        assert(self.terms@.take(self.terms@.len() as int) == self.terms@);
        LinExp { terms }
    }

    /// Whether two expressions have the same coefficients.
    pub fn equals(&self, other: &LinExp) -> (b: bool)
        requires
            self.wf(),
            other.wf(),
        ensures
            b == (self@ == other@),
            b == (self.terms@ == other.terms@),
    {
        let ghost a = self.terms@;
        let ghost o = other.terms@;
        proof {
            if a == o {
                assert(self@ =~= other@);
            }
            if self@ == other@ {
                self.lemma_view_injective(other);
            }
        }
        if self.terms.len() != other.terms.len() {
            return false;
        }
        let mut i: usize = 0;
        while i < self.terms.len()
            invariant
                i <= a.len(),
                a == self.terms@,
                o == other.terms@,
                a.len() == o.len(),
                self.wf(),
                other.wf(),
                (self@ == other@) <==> a == o,
                forall|j: int| 0 <= j < i ==> a[j] == o[j],
            decreases a.len() - i,
        {
            proof {
                let z = seq![zero_term()];
                if a == z {
                    assert(a[0] == zero_term());
                }
                if o == z {
                    assert(o[0] == zero_term());
                }
                assert(Rat::wf(a[i as int].coef));
                assert(Rat::wf(o[i as int].coef));
            }
            let x = self.terms[i];
            let y = other.terms[i];
            if !key_eq(x.par, y.par) || !x.coef.equals(&y.coef) {
                return false;
            }
            i += 1;
        }
        assert(a =~= o);
        true
    }

    /// The canonical sum of a list of terms. `None` exactly when, adding
    /// the terms from first to last, a coefficient does not fit in 64 bits.
    pub fn from_terms(list: &Vec<ParTerm>) -> (out: Option<LinExp>)
        requires
            forall|i: int| 0 <= i < list@.len() ==> Rat::wf((#[trigger] list@[i]).coef),
        ensures
            out.is_some() <==> forall|j: int, k: Option<Par>|
                0 <= j <= list@.len() ==> fits(#[trigger] lin_at(list@.take(j), k)),
            out matches Some(r) ==> r.wf() && forall|k: Option<Par>| #[trigger]
                r@(k) == lin_at(list@, k),
    {
        let mut acc: Vec<ParTerm> = Vec::new();
        let mut i: usize = 0;
        let ghost l = list@;
        proof {
            let z = Rat { num: 0, den: 1 };
            assert(z@ == 0 as real) by (nonlinear_arith)
                requires
                    z@ == 0 as real / 1 as real,
            ;
            z.lemma_fits();
            assert(l.take(0) =~= Seq::empty());
        }
        while i < list.len()
            invariant
                i <= l.len(),
                l == list@,
                forall|a: int| 0 <= a < l.len() ==> Rat::wf((#[trigger] l[a]).coef),
                lin_proper(acc@),
                forall|k: Option<Par>| #[trigger] lin_at(acc@, k) == lin_at(l.take(i as int), k),
                forall|j: int, k: Option<Par>|
                    0 <= j <= i ==> fits(#[trigger] lin_at(l.take(j), k)),
            decreases l.len() - i,
        {
            let ghost before = acc@;
            let t = list[i];
            proof {
                assert(l.take(i + 1).drop_last() == l.take(i as int));
                assert(lin_at(before, t.par) == lin_at(l.take(i as int), t.par));
            }
            let ok = put(&mut acc, t);
            if !ok {
                proof {
                    assert(!fits(lin_at(l.take(i + 1), t.par)));
                }
                return None;
            }
            proof {
                assert forall|k: Option<Par>| #[trigger]
                    lin_at(acc@, k) == lin_at(l.take(i + 1), k) by {
                    assert(lin_at(before, k) == lin_at(l.take(i as int), k));
                }
                assert forall|j: int, k: Option<Par>| 0 <= j <= i + 1 implies fits(
                    #[trigger] lin_at(l.take(j), k),
                ) by {
                    if j == i + 1 {
                        if k != t.par {
                            assert(lin_at(l.take(i + 1), k) == lin_at(l.take(i as int), k));
                        }
                    }
                }
            }
            i += 1;
        }
        proof {
            assert(l.take(l.len() as int) == l);
        }
        let ghost mid = acc@;
        let r = LinExp::finish(acc);
        proof {
            assert forall|k: Option<Par>| #[trigger] r@(k) == lin_at(list@, k) by {
                assert(lin_at(r.terms@, k) == lin_at(mid, k));
            }
        }
        Some(r)
    }

    /// The sum of two expressions. `None` exactly when the sum of the two
    /// coefficients of some key does not fit in 64 bits.
    pub fn add(&self, other: &LinExp) -> (out: Option<LinExp>)
        requires
            self.wf(),
            other.wf(),
        ensures
            out.is_some() <==> lv_fits(lv_add(self@, other@)),
            out matches Some(r) ==> r.wf() && r@ == lv_add(self@, other@),
    {
        let mut acc = self.stripped();
        let ghost a = self.terms@;
        let ghost b = other.terms@;
        let ghost z = seq![zero_term()];
        let mut i: usize = 0;
        proof {
            assert(b.take(0) =~= Seq::empty());
            assert(zero_term().coef@ == 0 as real) by (nonlinear_arith)
                requires
                    zero_term().coef@ == 0 as real / 1 as real,
            ;
            assert(z.drop_last() =~= Seq::empty());
            if b == z {
                assert(b[0] == zero_term());
            }
        }
        while i < other.terms.len()
            invariant
                i <= b.len(),
                a == self.terms@,
                b == other.terms@,
                z == seq![zero_term()],
                other.wf(),
                lin_proper(acc@),
                forall|k: Option<Par>| #[trigger]
                    lin_at(acc@, k) == lin_at(a, k) + lin_at(b.take(i as int), k),
            decreases b.len() - i,
        {
            let ghost before = acc@;
            let t = other.terms[i];
            proof {
                if b == z {
                    assert(b[0] == zero_term());
                    assert(Rat::wf(t.coef));
                    assert(b.take(1) == b);
                    assert(lin_at(z.drop_last(), t.par) == 0 as real);
                    assert(zero_term().coef@ == 0 as real) by (nonlinear_arith)
                        requires
                            zero_term().coef@ == 0 as real / 1 as real,
                    ;
                } else {
                    lemma_lin_at(b, i as int);
                    assert(lin_proper(b.take(i + 1))) by {
                        let bt = b.take(i + 1);
                        assert forall|x: int| 0 <= x < bt.len() implies Rat::wf(
                            (#[trigger] bt[x]).coef,
                        ) && bt[x].coef@ != 0 as real by {
                            assert(bt[x] == b[x]);
                        }
                        assert forall|x: int, y: int| 0 <= x < y < bt.len() implies key_rank(
                            (#[trigger] bt[x]).par,
                        ) < key_rank((#[trigger] bt[y]).par) by {
                            assert(bt[x] == b[x] && bt[y] == b[y]);
                        }
                    }
                    lemma_lin_at(b.take(i + 1), i as int);
                }
                assert(b.take(i + 1).drop_last() == b.take(i as int));
                assert(lin_at(before, t.par) == lin_at(a, t.par) + lin_at(
                    b.take(i as int),
                    t.par,
                ));
                assert(lin_at(b.take(i + 1), t.par) == lin_at(b, t.par));
            }
            let ok = put(&mut acc, t);
            if !ok {
                proof {
                    let v = lv_add(self@, other@);
                    assert(v(t.par) == lin_at(a, t.par) + lin_at(b, t.par));
                    assert(!fits(v(t.par)));
                }
                return None;
            }
            proof {
                assert forall|k: Option<Par>| #[trigger]
                    lin_at(acc@, k) == lin_at(a, k) + lin_at(b.take(i + 1), k) by {
                    assert(lin_at(before, k) == lin_at(a, k) + lin_at(b.take(i as int), k));
                }
            }
            i += 1;
        }
        proof {
            assert(b.take(b.len() as int) == b);
        }
        let ghost mid = acc@;
        let r = LinExp::finish(acc);
        proof {
            let v = lv_add(self@, other@);
            assert forall|k: Option<Par>| #[trigger] r@(k) == v(k) by {
                assert(lin_at(r.terms@, k) == lin_at(mid, k));
            }
            assert(r@ =~= v);
            assert forall|k: Option<Par>| fits(#[trigger] v(k)) by {
                lemma_lin_fits(r.terms@, k);
                assert(r@(k) == v(k));
            }
        }
        Some(r)
    }

    /// The product with the scalar `c`. `None` exactly when the product of
    /// `c` and some coefficient does not fit in 64 bits.
    pub fn scale(&self, c: &Rat) -> (out: Option<LinExp>)
        requires
            self.wf(),
            Rat::wf(*c),
        ensures
            out.is_some() <==> lv_fits(lv_scale(self@, c@)),
            out matches Some(r) ==> r.wf() && r@ == lv_scale(self@, c@),
    {
        let ghost s = self.terms@;
        let ghost z = seq![zero_term()];
        let ghost v = lv_scale(self@, c@);
        proof {
            assert(zero_term().coef@ == 0 as real) by (nonlinear_arith)
                requires
                    zero_term().coef@ == 0 as real / 1 as real,
            ;
            assert(z.drop_last() =~= Seq::empty());
            if s == z {
                assert(s[0] == zero_term());
            }
        }
        if c.is_zero() {
            let r = LinExp::zero();
            proof {
                assert forall|k: Option<Par>| #[trigger] r@(k) == v(k) by {
                    let x = self@(k);
                    assert(x * c@ == 0 as real) by (nonlinear_arith)
                        requires
                            c@ == 0 as real,
                    ;
                }
                assert(r@ =~= v);
                assert forall|k: Option<Par>| fits(#[trigger] v(k)) by {
                    lemma_lin_fits(r.terms@, k);
                    assert(r@(k) == v(k));
                }
            }
            return Some(r);
        }
        let mut terms: Vec<ParTerm> = Vec::new();
        let mut i: usize = 0;
        while i < self.terms.len()
            invariant
                i <= s.len(),
                s == self.terms@,
                z == seq![zero_term()],
                v == lv_scale(self@, c@),
                self.wf(),
                Rat::wf(*c),
                terms@.len() == i,
                forall|j: int|
                    0 <= j < i ==> (#[trigger] terms@[j]).par == s[j].par && Rat::wf(
                        terms@[j].coef,
                    ) && terms@[j].coef@ == s[j].coef@ * c@,
            decreases s.len() - i,
        {
            proof {
                if s == z {
                    assert(s[0] == zero_term());
                }
                assert(Rat::wf(s[i as int].coef));
            }
            match self.terms[i].scale(c) {
                None => {
                    proof {
                        if s == z {
                            assert(lin_at(z.drop_last(), s[0].par) == 0 as real);
                        } else {
                            lemma_lin_at(s, i as int);
                        }
                        assert(v(s[i as int].par) == s[i as int].coef@ * c@);
                        assert(!fits(v(s[i as int].par)));
                    }
                    return None;
                },
                Some(t) => {
                    terms.push(t);
                },
            }
            i += 1;
        }
        let r = LinExp { terms };
        proof {
            let rs = r.terms@;
            assert forall|k: Option<Par>| #[trigger] r@(k) == v(k) by {
                lemma_lin_scaled(s, rs, c@, k);
            }
            assert(r@ =~= v);
            if s == z {
                assert(rs[0].par.is_none());
                let x = rs[0].coef@;
                assert(x == 0 as real) by (nonlinear_arith)
                    requires
                        x == 0 as real * c@,
                ;
                rs[0].coef.lemma_view_injective(zero_term().coef);
                assert(rs =~= z);
            } else {
                assert forall|a: int| 0 <= a < rs.len() implies Rat::wf((#[trigger] rs[a]).coef)
                    && rs[a].coef@ != 0 as real by {
                    let x = s[a].coef@;
                    let y = c@;
                    assert(x * y != 0 as real) by (nonlinear_arith)
                        requires
                            x != 0 as real,
                            y != 0 as real,
                    ;
                }
                assert forall|a: int, b: int| 0 <= a < b < rs.len() implies key_rank(
                    (#[trigger] rs[a]).par,
                ) < key_rank((#[trigger] rs[b]).par) by {
                    assert(rs[a].par == s[a].par && rs[b].par == s[b].par);
                }
            }
            assert forall|k: Option<Par>| fits(#[trigger] v(k)) by {
                lemma_lin_fits(rs, k);
                assert(r@(k) == v(k));
            }
        }
        Some(r)
    }

    /// The additive inverse. `None` exactly when the inverse of some
    /// coefficient does not fit in 64 bits.
    pub fn neg(&self) -> (out: Option<LinExp>)
        requires
            self.wf(),
        ensures
            out.is_some() <==> lv_fits(lv_scale(self@, -(1 as real))),
            out matches Some(r) ==> r.wf() && r@ == lv_scale(self@, -(1 as real)),
    {
        let m = Rat::from_int(-1);
        self.scale(&m)
    }

    /// The sum with the constant `c`. `None` exactly when the new constant
    /// term does not fit in 64 bits.
    pub fn add_const(&self, c: &Rat) -> (out: Option<LinExp>)
        requires
            self.wf(),
            Rat::wf(*c),
        ensures
            out.is_some() <==> fits(self@(None) + c@),
            out matches Some(r) ==> r.wf() && r@ == lv_add(self@, lv_const(c@)),
    {
        let mut acc = self.stripped();
        let ghost before = acc@;
        let ok = put(&mut acc, ParTerm { par: None, coef: *c });
        if !ok {
            return None;
        }
        let ghost mid = acc@;
        let r = LinExp::finish(acc);
        proof {
            let v = lv_add(self@, lv_const(c@));
            assert forall|k: Option<Par>| #[trigger] r@(k) == v(k) by {
                assert(lin_at(r.terms@, k) == lin_at(mid, k));
                assert(lin_at(before, k) == lin_at(self.terms@, k));
            }
            assert(r@ =~= v);
        }
        Some(r)
    }
}

impl Coef for LinExp {
    type V = LinVal;

    open spec fn wf(&self) -> bool {
        LinExp::wf(self)
    }

    open spec fn val(&self) -> LinVal {
        self@
    }

    open spec fn zero_val() -> LinVal {
        lv_zero()
    }

    open spec fn one_val() -> LinVal {
        lv_one()
    }

    open spec fn add_val(a: LinVal, b: LinVal) -> LinVal {
        lv_add(a, b)
    }

    open spec fn scale_val(a: LinVal, c: real) -> LinVal {
        lv_scale(a, c)
    }

    open spec fn val_fits(a: LinVal) -> bool {
        lv_fits(a)
    }

    proof fn lemma_wf_fits(&self) {
        assert forall|k: Option<Par>| fits(#[trigger] self@(k)) by {
            lemma_lin_fits(self.terms@, k);
        }
    }

    proof fn lemma_zero_one() {
        let z = Rat { num: 0, den: 1 };
        let o = Rat { num: 1, den: 1 };
        assert(z@ == 0 as real && o@ == 1 as real) by (nonlinear_arith)
            requires
                z@ == 0 as real / 1 as real,
                o@ == 1 as real / 1 as real,
        ;
        z.lemma_fits();
        o.lemma_fits();
        assert(lv_zero()(None) != lv_one()(None));
    }

    proof fn lemma_add_zero(a: LinVal) {
        assert(lv_add(a, lv_zero()) =~= a);
        assert(lv_add(lv_zero(), a) =~= a);
    }

    proof fn lemma_add_comm(a: LinVal, b: LinVal) {
        assert(lv_add(a, b) =~= lv_add(b, a));
    }

    proof fn lemma_add_assoc(a: LinVal, b: LinVal, c: LinVal) {
        assert(lv_add(lv_add(a, b), c) =~= lv_add(a, lv_add(b, c)));
    }

    proof fn lemma_add_neg(a: LinVal) {
        let m = -(1 as real);
        assert forall|k: Option<Par>| #[trigger] lv_add(a, lv_scale(a, m))(k) == lv_zero()(k) by {
            let x = a(k);
            assert(x + x * m == 0 as real) by (nonlinear_arith)
                requires
                    m == -(1 as real),
            ;
        }
        assert(lv_add(a, lv_scale(a, m)) =~= lv_zero());
    }

    proof fn lemma_scale_unit(a: LinVal) {
        assert forall|k: Option<Par>| #[trigger]
            lv_scale(a, 1 as real)(k) == a(k) && lv_scale(a, 0 as real)(k) == lv_zero()(k) by {
            let x = a(k);
            assert(x * (1 as real) == x && x * (0 as real) == 0 as real) by (nonlinear_arith);
        }
        assert(lv_scale(a, 1 as real) =~= a);
        assert(lv_scale(a, 0 as real) =~= lv_zero());
    }

    proof fn lemma_scale_zero(c: real) {
        assert forall|k: Option<Par>| #[trigger] lv_scale(lv_zero(), c)(k) == lv_zero()(k) by {
            assert((0 as real) * c == 0 as real) by (nonlinear_arith);
        }
        assert(lv_scale(lv_zero(), c) =~= lv_zero());
    }

    proof fn lemma_scale_add(a: LinVal, b: LinVal, c: real) {
        assert forall|k: Option<Par>| #[trigger]
            lv_scale(lv_add(a, b), c)(k) == lv_add(lv_scale(a, c), lv_scale(b, c))(k) by {
            let x = a(k);
            let y = b(k);
            assert((x + y) * c == x * c + y * c) by (nonlinear_arith);
        }
        assert(lv_scale(lv_add(a, b), c) =~= lv_add(lv_scale(a, c), lv_scale(b, c)));
    }

    proof fn lemma_scale_sum(a: LinVal, c: real, d: real) {
        assert forall|k: Option<Par>| #[trigger]
            lv_scale(a, c + d)(k) == lv_add(lv_scale(a, c), lv_scale(a, d))(k) by {
            let x = a(k);
            assert(x * (c + d) == x * c + x * d) by (nonlinear_arith);
        }
        assert(lv_scale(a, c + d) =~= lv_add(lv_scale(a, c), lv_scale(a, d)));
    }

    proof fn lemma_scale_scale(a: LinVal, c: real, d: real) {
        assert forall|k: Option<Par>| #[trigger]
            lv_scale(lv_scale(a, c), d)(k) == lv_scale(a, c * d)(k) by {
            let x = a(k);
            assert((x * c) * d == x * (c * d)) by (nonlinear_arith);
        }
        assert(lv_scale(lv_scale(a, c), d) =~= lv_scale(a, c * d));
    }

    proof fn lemma_scale_nonzero(a: LinVal, c: real) {
        assert forall|k: Option<Par>| #[trigger] a(k) == lv_zero()(k) by {
            let x = a(k);
            assert(lv_scale(a, c)(k) == lv_zero()(k));
            assert(x == 0 as real) by (nonlinear_arith)
                requires
                    c != 0 as real,
                    x * c == 0 as real,
            ;
        }
        assert(a =~= lv_zero());
    }

    fn zero() -> (r: LinExp) {
        LinExp::zero()
    }

    fn one() -> (r: LinExp) {
        LinExp::one()
    }

    fn is_zero(&self) -> (b: bool) {
        LinExp::is_zero(self)
    }

    fn same(&self, other: &LinExp) -> (b: bool) {
        self.equals(other)
    }

    fn dup(&self) -> (r: LinExp) {
        let r = LinExp::dup(self);
        assert(r@ =~= self@);
        r
    }

    fn plus(&self, other: &LinExp) -> (out: Option<LinExp>) {
        self.add(other)
    }

    fn scaled(&self, c: &Rat) -> (out: Option<LinExp>) {
        self.scale(c)
    }

    fn negated(&self) -> (out: Option<LinExp>) {
        self.neg()
    }
}

impl LinExp {
    /// Whether the parameter `p` occurs in a term.
    pub open spec fn has_par(&self, p: Par) -> bool {
        exists|j: int| 0 <= j < self.terms@.len() && (#[trigger] self.terms@[j]).par == Some(p)
    }

    /// Takes every parameter of the expression into use in `ring`.
    pub fn register_pars(&self, ring: &mut crate::ring::Ring)
        requires
            old(ring).wf(),
        ensures
            final(ring).wf(),
            final(ring).vars@ == old(ring).vars@,
            forall|q: Par| final(ring).has_par(q) <==> (old(ring).has_par(q) || self.has_par(q)),
    {
        let ghost s = self.terms@;
        let mut j: usize = 0;
        while j < self.terms.len()
            invariant
                j <= s.len(),
                s == self.terms@,
                ring.wf(),
                ring.vars@ == old(ring).vars@,
                forall|q: Par|
                    ring.has_par(q) <==> (old(ring).has_par(q) || exists|j0: int|
                        0 <= j0 < j && (#[trigger] s[j0]).par == Some(q)),
            decreases s.len() - j,
        {
            let ghost before = *ring;
            match self.terms[j].par {
                Some(p) => {
                    ring.add_par(p);
                },
                None => {},
            }
            proof {
                assert forall|q: Par|
                    ring.has_par(q) <==> (old(ring).has_par(q) || exists|j0: int|
                        0 <= j0 < j + 1 && (#[trigger] s[j0]).par == Some(q)) by {
                    if exists|j0: int| 0 <= j0 < j && (#[trigger] s[j0]).par == Some(q) {
                        let j0 = choose|j0: int| 0 <= j0 < j && (#[trigger] s[j0]).par == Some(q);
                        assert(0 <= j0 < j + 1 && s[j0].par == Some(q));
                    }
                    if exists|j0: int| 0 <= j0 < j + 1 && (#[trigger] s[j0]).par == Some(q) {
                        let j0 = choose|j0: int|
                            0 <= j0 < j + 1 && (#[trigger] s[j0]).par == Some(q);
                        if j0 < j {
                            assert(before.has_par(q));
                        }
                    }
                    if s[j as int].par == Some(q) {
                        assert(0 <= j < j + 1 && s[j as int].par == Some(q));
                    }
                }
            }
            j += 1;
        }
    }
}

/// What a list of bindings denotes: for each pair its parameter and the
/// value of its expression.
pub type Bindings = Seq<(Par, LinVal)>;

/// The values of a list of bindings.
pub open spec fn bview(sol: Seq<(Par, LinExp)>) -> Bindings {
    Seq::new(sol.len(), |i: int| (sol[i].0, sol[i].1@))
}

/// What a list of bindings gives for the parameter `p`: the value of the
/// last pair that names it.
pub open spec fn binding(sol: Bindings, p: Par) -> Option<LinVal>
    decreases sol.len(),
{
    if sol.len() == 0 {
        None
    } else if sol.last().0 == p {
        Some(sol.last().1)
    } else {
        binding(sol.drop_last(), p)
    }
}

/// Every expression of the list is well formed.
pub open spec fn bindings_wf(sol: Seq<(Par, LinExp)>) -> bool {
    forall|i: int| 0 <= i < sol.len() ==> (#[trigger] sol[i]).1.wf()
}

/// Every parameter of the list of terms is bound.
pub open spec fn all_bound(s: Seq<ParTerm>, sol: Bindings) -> bool {
    forall|j: int|
        0 <= j < s.len() && (#[trigger] s[j]).par.is_some() ==> binding(
            sol,
            s[j].par.unwrap(),
        ).is_some()
}

/// What stands for a key under a list of bindings: one for the constant,
/// the bound value for a parameter.
pub open spec fn image(k: Option<Par>, sol: Bindings) -> LinVal {
    match k {
        None => lv_one(),
        Some(p) => match binding(sol, p) {
            Some(v) => v,
            None => lv_zero(),
        },
    }
}

/// The sum, from first to last, of the images of the terms of `s`, each
/// multiplied by the coefficient of its term; `None` when a product or a
/// partial sum has a coefficient that does not fit in 64 bits.
pub open spec fn lin_subst(s: Seq<ParTerm>, sol: Bindings) -> Option<LinVal>
    decreases s.len(),
{
    if s.len() == 0 {
        Some(lv_zero())
    } else {
        match lin_subst(s.drop_last(), sol) {
            None => None,
            Some(acc) => {
                let x = lv_scale(image(s.last().par, sol), s.last().coef@);
                if lv_fits(x) && lv_fits(lv_add(acc, x)) {
                    Some(lv_add(acc, x))
                } else {
                    None
                }
            },
        }
    }
}

/// The index of the pair that binds the parameter `p`.
pub fn find_binding(sol: &Vec<(Par, LinExp)>, p: Par) -> (out: Option<usize>)
    ensures
        out.is_some() == binding(bview(sol@), p).is_some(),
        out matches Some(i) ==> i < sol@.len() && binding(bview(sol@), p) == Some(
            sol@[i as int].1@,
        ),
{
    let ghost b = bview(sol@);
    let mut i: usize = sol.len();
    proof {
        assert(b.take(b.len() as int) == b);
    }
    while i > 0
        invariant
            i <= sol@.len(),
            b == bview(sol@),
            binding(b, p) == binding(b.take(i as int), p),
        decreases i,
    {
        proof {
            assert(b.take(i as int).drop_last() == b.take(i - 1));
            assert(b.take(i as int).last() == b[i - 1]);
        }
        if sol[i - 1].0.id == p.id {
            return Some(i - 1);
        }
        i -= 1;
    }
    None
}

impl LinExp {
    /// The expression with each parameter replaced by its binding: the sum
    /// of the bound expressions, each multiplied by the coefficient of its
    /// parameter, and of the constant.
    pub fn subst(&self, sol: &Vec<(Par, LinExp)>) -> (out: Option<LinExp>)
        requires
            self.wf(),
            bindings_wf(sol@),
            all_bound(self.terms@, bview(sol@)),
        ensures
            out.is_some() == lin_subst(self.terms@, bview(sol@)).is_some(),
            out matches Some(r) ==> r.wf() && Some(r@) == lin_subst(self.terms@, bview(sol@)),
    {
        let ghost s = self.terms@;
        let ghost b = bview(sol@);
        let mut acc = LinExp::zero();
        let mut i: usize = 0;
        proof {
            assert(s.take(0) =~= Seq::empty());
        }
        while i < self.terms.len()
            invariant
                i <= s.len(),
                s == self.terms@,
                b == bview(sol@),
                self.wf(),
                bindings_wf(sol@),
                all_bound(s, b),
                acc.wf(),
                lin_subst(s.take(i as int), b) == Some(acc@),
            decreases s.len() - i,
        {
            let t = self.terms[i];
            proof {
                assert(s.take(i + 1).drop_last() == s.take(i as int));
                assert(s.take(i + 1).last() == t);
                if s == seq![zero_term()] {
                    assert(s[0] == zero_term());
                }
                assert(Rat::wf(t.coef));
                assert(s[i as int].par.is_some() ==> binding(b, t.par.unwrap()).is_some());
            }
            let x = match t.par {
                None => LinExp::one().scale(&t.coef),
                Some(p) => {
                    match find_binding(sol, p) {
                        None => None,
                        Some(k) => {
                            assert(sol@[k as int].1.wf());
                            sol[k].1.scale(&t.coef)
                        },
                    }
                },
            };
            let next = match x {
                None => None,
                Some(x) => acc.add(&x),
            };
            match next {
                None => {
                    proof {
                        assert(lin_subst(s.take(i + 1), b).is_none());
                        lemma_lin_subst_prefix(s, b, i + 1);
                    }
                    return None;
                },
                Some(r) => {
                    acc = r;
                },
            }
            i += 1;
        }
        proof {
            assert(s.take(s.len() as int) == s);
        }
        Some(acc)
    }
}

/// A substitution that fails on the first terms of a list fails on the
/// list.
pub proof fn lemma_lin_subst_prefix(s: Seq<ParTerm>, sol: Bindings, k: int)
    requires
        0 <= k <= s.len(),
        lin_subst(s.take(k), sol).is_none(),
    ensures
        lin_subst(s, sol).is_none(),
    decreases s.len() - k,
{
    if k == s.len() {
        assert(s.take(k) == s);
    } else {
        assert(s.drop_last().take(k) == s.take(k));
        lemma_lin_subst_prefix(s.drop_last(), sol, k);
    }
}

/// The exact value of a list of terms under a list of bindings: the sum of
/// the images of the terms, each multiplied by the coefficient of its
/// term.
pub open spec fn lin_apply(s: Seq<ParTerm>, sol: Bindings) -> LinVal
    decreases s.len(),
{
    if s.len() == 0 {
        lv_zero()
    } else {
        lv_add(lin_apply(s.drop_last(), sol), lv_scale(image(s.last().par, sol), s.last().coef@))
    }
}

/// Where a substitution can be represented, its result is the exact value.
pub proof fn lemma_lin_subst_exact(s: Seq<ParTerm>, sol: Bindings)
    requires
        lin_subst(s, sol).is_some(),
    ensures
        lin_subst(s, sol) == Some(lin_apply(s, sol)),
    decreases s.len(),
{
    if s.len() > 0 {
        lemma_lin_subst_exact(s.drop_last(), sol);
    }
}

/// A list that binds the parameters with the ordinals below its length, in
/// the order of their ordinals, to well-formed expressions.
pub open spec fn solution_wf(sol: Seq<(Par, LinExp)>) -> bool {
    forall|j: int| 0 <= j < sol.len() ==> (#[trigger] sol[j]).0.id == j && sol[j].1.wf()
}

/// In such a list every parameter below the length is bound to the value
/// of the expression at its ordinal.
pub proof fn lemma_solution_binding(sol: Seq<(Par, LinExp)>, j: int)
    requires
        solution_wf(sol),
        0 <= j < sol.len(),
    ensures
        binding(bview(sol), sol[j].0) == Some(sol[j].1@),
    decreases sol.len(),
{
    let b = bview(sol);
    assert(b.last() == (sol[sol.len() - 1].0, sol[sol.len() - 1].1@));
    if j == sol.len() - 1 {
    } else {
        assert(sol[sol.len() - 1].0.id == sol.len() - 1);
        let s0 = sol.drop_last();
        assert forall|i: int| 0 <= i < s0.len() implies (#[trigger] s0[i]).0.id == i
            && s0[i].1.wf() by {
            assert(s0[i] == sol[i]);
        }
        lemma_solution_binding(s0, j);
        assert(b.drop_last() =~= bview(s0));
    }
}

} // verus!
