//! Sorted sums of monomials: the representation that polynomials and
//! templates share.
//!
//! A list of terms denotes a coefficient function: the sum, for each
//! exponent vector, of the coefficients of the terms that bear it. A list is
//! proper when its terms are not zero and stand in strictly descending
//! monomial order; a canonical list is proper and not empty, or else the
//! single zero sentinel. Two canonical lists with the same coefficient
//! function are the same list.
use crate::coef::Coef;
use crate::exps::{
    exps_order,
    exps_wf, grevlex, lemma_grevlex_equal, lemma_grevlex_flip, lemma_grevlex_trans, Exps, Order,
};
use crate::exps::degree;
use crate::mon::{term_mul, term_wf, term_zero, Mon, Term};
use crate::rat::Rat;
use vstd::prelude::*;

verus! {

/// What a list of monomials denotes, term by term.
pub open spec fn views<T: Coef>(v: Seq<Mon<T>>) -> Seq<Term<T::V>> {
    Seq::new(v.len(), |i: int| v[i]@)
}

/// Every monomial of the list is well formed.
pub open spec fn mons_wf<T: Coef>(v: Seq<Mon<T>>) -> bool {
    forall|i: int| 0 <= i < v.len() ==> (#[trigger] v[i]).wf()
}

/// The coefficient of the exponent vector `e`: the sum of the coefficients
/// of the terms that bear it.
pub open spec fn coeff<T: Coef>(s: Seq<Term<T::V>>, e: Exps) -> T::V
    decreases s.len(),
{
    if s.len() == 0 {
        T::zero_val()
    } else if s.last().exps == e {
        T::add_val(coeff::<T>(s.drop_last(), e), s.last().coef)
    } else {
        coeff::<T>(s.drop_last(), e)
    }
}

/// Terms that are well formed and not zero, in strictly descending order.
pub open spec fn proper<T: Coef>(s: Seq<Term<T::V>>) -> bool {
    &&& forall|i: int|
        0 <= i < s.len() ==> term_wf::<T>(#[trigger] s[i]) && s[i].coef != T::zero_val()
    &&& forall|i: int, j: int|
        0 <= i < j < s.len() ==> grevlex((#[trigger] s[i]).exps, (#[trigger] s[j]).exps)
            == Order::Greater
}

/// The single zero sentinel, or a proper list that is not empty.
pub open spec fn canonical<T: Coef>(s: Seq<Term<T::V>>) -> bool {
    s == seq![term_zero::<T>()] || (s.len() > 0 && proper::<T>(s))
}

/// A canonical list without its zero sentinel.
pub open spec fn strip<T: Coef>(s: Seq<Term<T::V>>) -> Seq<Term<T::V>> {
    if s == seq![term_zero::<T>()] {
        Seq::empty()
    } else {
        s
    }
}

/// A proper list made canonical: the empty list becomes the zero sentinel.
pub open spec fn finish<T: Coef>(s: Seq<Term<T::V>>) -> Seq<Term<T::V>> {
    if s.len() == 0 {
        seq![term_zero::<T>()]
    } else {
        s
    }
}

/// The proper list `s` with the term `t` added: `t` takes its place in the
/// order, or is folded into the term with the same exponent vector, which
/// disappears when the sum is zero.
pub open spec fn insert_spec<T: Coef>(s: Seq<Term<T::V>>, t: Term<T::V>) -> Seq<Term<T::V>>
    decreases s.len(),
{
    if t.coef == T::zero_val() {
        s
    } else if s.len() == 0 {
        seq![t]
    } else if grevlex(s.last().exps, t.exps) == Order::Greater {
        s.push(t)
    } else if grevlex(s.last().exps, t.exps) == Order::Equal {
        let c = T::add_val(s.last().coef, t.coef);
        if c == T::zero_val() {
            s.drop_last()
        } else {
            s.drop_last().push(Term { exps: t.exps, coef: c })
        }
    } else {
        insert_spec::<T>(s.drop_last(), t).push(s.last())
    }
}

/// The proper list `s` with every term of `l` added, from first to last.
pub open spec fn insert_all<T: Coef>(s: Seq<Term<T::V>>, l: Seq<Term<T::V>>) -> Seq<Term<T::V>>
    decreases l.len(),
{
    if l.len() == 0 {
        s
    } else {
        insert_spec::<T>(insert_all::<T>(s, l.drop_last()), l.last())
    }
}

/// The canonical list with the coefficient function of `l`.
pub open spec fn normal_form<T: Coef>(l: Seq<Term<T::V>>) -> Seq<Term<T::V>> {
    finish::<T>(insert_all::<T>(Seq::empty(), l))
}

/// Every exponent vector of `s` lies above `x`.
pub open spec fn all_above<T: Coef>(s: Seq<Term<T::V>>, x: Exps) -> bool {
    forall|i: int| 0 <= i < s.len() ==> grevlex((#[trigger] s[i]).exps, x) == Order::Greater
}

/// An exponent vector that no term bears has coefficient zero.
pub proof fn lemma_coeff_absent<T: Coef>(s: Seq<Term<T::V>>, e: Exps)
    requires
        forall|i: int| 0 <= i < s.len() ==> (#[trigger] s[i]).exps != e,
    ensures
        coeff::<T>(s, e) == T::zero_val(),
    decreases s.len(),
{
    if s.len() > 0 {
        assert(s[s.len() - 1].exps != e);
        lemma_coeff_absent::<T>(s.drop_last(), e);
    }
}

/// A prefix of a proper list is proper.
pub proof fn lemma_proper_take<T: Coef>(s: Seq<Term<T::V>>, k: int)
    requires
        proper::<T>(s),
        0 <= k <= s.len(),
    ensures
        proper::<T>(s.take(k)),
{
    let r = s.take(k);
    assert forall|i: int| 0 <= i < r.len() implies term_wf::<T>(#[trigger] r[i]) && r[i].coef
        != T::zero_val() by {
        assert(r[i] == s[i]);
    }
    assert forall|i: int, j: int| 0 <= i < j < r.len() implies grevlex(
        (#[trigger] r[i]).exps,
        (#[trigger] r[j]).exps,
    ) == Order::Greater by {
        assert(r[i] == s[i] && r[j] == s[j]);
    }
}

/// In a proper list the coefficient of a term's exponent vector is the
/// coefficient of that term.
pub proof fn lemma_coeff_at<T: Coef>(s: Seq<Term<T::V>>, i: int)
    requires
        proper::<T>(s),
        0 <= i < s.len(),
    ensures
        coeff::<T>(s, s[i].exps) == s[i].coef,
    decreases s.len(),
{
    let e = s[i].exps;
    let s0 = s.drop_last();
    lemma_proper_take::<T>(s, s.len() - 1);
    assert(s.take(s.len() - 1) == s0);
    if i == s.len() - 1 {
        assert forall|j: int| 0 <= j < s0.len() implies (#[trigger] s0[j]).exps != e by {
            assert(s0[j] == s[j]);
            assert(grevlex(s[j].exps, s[i].exps) == Order::Greater);
            lemma_grevlex_equal(s[j].exps, e);
        }
        lemma_coeff_absent::<T>(s0, e);
        T::lemma_add_zero(s[i].coef);
    } else {
        assert(grevlex(s[i].exps, s[s.len() - 1].exps) == Order::Greater);
        lemma_grevlex_equal(s[i].exps, s.last().exps);
        assert(s0[i] == s[i]);
        lemma_coeff_at::<T>(s0, i);
    }
}

/// Adding a term to a proper list gives a proper list, whose terms lie above
/// whatever the list and the term both lie above.
pub proof fn lemma_insert_proper<T: Coef>(s: Seq<Term<T::V>>, t: Term<T::V>)
    requires
        proper::<T>(s),
        term_wf::<T>(t),
    ensures
        proper::<T>(insert_spec::<T>(s, t)),
        forall|x: Exps|
            all_above::<T>(s, x) && grevlex(t.exps, x) == Order::Greater ==> #[trigger] all_above::<
                T,
            >(insert_spec::<T>(s, t), x),
    decreases s.len(),
{
    let r = insert_spec::<T>(s, t);
    if t.coef == T::zero_val() {
    } else if s.len() == 0 {
    } else {
        let s0 = s.drop_last();
        lemma_proper_take::<T>(s, s.len() - 1);
        assert(s.take(s.len() - 1) == s0);
        let last = s.last();
        assert(s[s.len() - 1] == last);
        if grevlex(last.exps, t.exps) == Order::Greater {
            assert forall|i: int, j: int| 0 <= i < j < r.len() implies grevlex(
                (#[trigger] r[i]).exps,
                (#[trigger] r[j]).exps,
            ) == Order::Greater by {
                if j == s.len() {
                    if i < s.len() - 1 {
                        assert(grevlex(s[i].exps, s[s.len() - 1].exps) == Order::Greater);
                        lemma_grevlex_flip(s[i].exps, last.exps);
                        lemma_grevlex_flip(last.exps, t.exps);
                        lemma_grevlex_trans(t.exps, last.exps, s[i].exps);
                        lemma_grevlex_flip(t.exps, s[i].exps);
                    }
                } else {
                    assert(r[i] == s[i] && r[j] == s[j]);
                }
            }
            assert forall|x: Exps|
                all_above::<T>(s, x) && grevlex(t.exps, x) == Order::Greater implies #[trigger] all_above::<
                T,
            >(r, x) by {
                assert forall|i: int| 0 <= i < r.len() implies grevlex((#[trigger] r[i]).exps, x)
                    == Order::Greater by {
                    if i < s.len() {
                        assert(r[i] == s[i]);
                    }
                }
            }
        } else if grevlex(last.exps, t.exps) == Order::Equal {
            lemma_grevlex_equal(last.exps, t.exps);
            let c = T::add_val(last.coef, t.coef);
            if c == T::zero_val() {
                assert forall|x: Exps|
                    all_above::<T>(s, x) && grevlex(t.exps, x)
                        == Order::Greater implies #[trigger] all_above::<T>(r, x) by {
                    assert forall|i: int| 0 <= i < r.len() implies grevlex(
                        (#[trigger] r[i]).exps,
                        x,
                    ) == Order::Greater by {
                        assert(r[i] == s[i]);
                    }
                }
            } else {
                let nt = Term::<T::V> { exps: t.exps, coef: c };
                assert(r == s0.push(nt));
                assert forall|i: int|
                    0 <= i < r.len() implies term_wf::<T>(#[trigger] r[i]) && r[i].coef
                    != T::zero_val() by {
                    if i < s0.len() {
                        assert(r[i] == s[i]);
                    }
                }
                assert forall|i: int, j: int| 0 <= i < j < r.len() implies grevlex(
                    (#[trigger] r[i]).exps,
                    (#[trigger] r[j]).exps,
                ) == Order::Greater by {
                    assert(r[i] == s[i]);
                    assert(r[j].exps == s[j].exps);
                }
                assert forall|x: Exps|
                    all_above::<T>(s, x) && grevlex(t.exps, x)
                        == Order::Greater implies #[trigger] all_above::<T>(r, x) by {
                    assert forall|i: int| 0 <= i < r.len() implies grevlex(
                        (#[trigger] r[i]).exps,
                        x,
                    ) == Order::Greater by {
                        assert(r[i].exps == s[i].exps);
                    }
                }
            }
        } else {
            lemma_insert_proper::<T>(s0, t);
            let r0 = insert_spec::<T>(s0, t);
            assert(r == r0.push(last));
            assert(all_above::<T>(s0, last.exps)) by {
                assert forall|i: int| 0 <= i < s0.len() implies grevlex(
                    (#[trigger] s0[i]).exps,
                    last.exps,
                ) == Order::Greater by {
                    assert(s0[i] == s[i]);
                }
            }
            lemma_grevlex_flip(last.exps, t.exps);
            assert(all_above::<T>(r0, last.exps));
            assert forall|i: int|
                0 <= i < r.len() implies term_wf::<T>(#[trigger] r[i]) && r[i].coef
                != T::zero_val() by {
                if i < r0.len() {
                    assert(r[i] == r0[i]);
                }
            }
            assert forall|i: int, j: int| 0 <= i < j < r.len() implies grevlex(
                (#[trigger] r[i]).exps,
                (#[trigger] r[j]).exps,
            ) == Order::Greater by {
                if j == r0.len() {
                    assert(r[i] == r0[i]);
                } else {
                    assert(r[i] == r0[i] && r[j] == r0[j]);
                }
            }
            assert forall|x: Exps|
                all_above::<T>(s, x) && grevlex(t.exps, x) == Order::Greater implies #[trigger] all_above::<
                T,
            >(r, x) by {
                assert(all_above::<T>(s0, x)) by {
                    assert forall|i: int| 0 <= i < s0.len() implies grevlex(
                        (#[trigger] s0[i]).exps,
                        x,
                    ) == Order::Greater by {
                        assert(s0[i] == s[i]);
                    }
                }
                assert(all_above::<T>(r0, x));
                assert forall|i: int| 0 <= i < r.len() implies grevlex((#[trigger] r[i]).exps, x)
                    == Order::Greater by {
                    if i < r0.len() {
                        assert(r[i] == r0[i]);
                    } else {
                        assert(r[i] == s[s.len() - 1]);
                    }
                }
            }
        }
    }
}

/// Adding a term adds its coefficient to the coefficient of its exponent
/// vector and changes no other coefficient.
pub proof fn lemma_insert_coeff<T: Coef>(s: Seq<Term<T::V>>, t: Term<T::V>, e: Exps)
    ensures
        coeff::<T>(insert_spec::<T>(s, t), e) == if e == t.exps {
            T::add_val(coeff::<T>(s, e), t.coef)
        } else {
            coeff::<T>(s, e)
        },
    decreases s.len(),
{
    let r = insert_spec::<T>(s, t);
    if t.coef == T::zero_val() {
        T::lemma_add_zero(coeff::<T>(s, e));
    } else if s.len() == 0 {
        assert(r.drop_last() == s);
    } else {
        let s0 = s.drop_last();
        let last = s.last();
        if grevlex(last.exps, t.exps) == Order::Greater {
            assert(r.drop_last() == s);
        } else if grevlex(last.exps, t.exps) == Order::Equal {
            lemma_grevlex_equal(last.exps, t.exps);
            let c = T::add_val(last.coef, t.coef);
            T::lemma_add_assoc(coeff::<T>(s0, e), last.coef, t.coef);
            if c == T::zero_val() {
                T::lemma_add_zero(coeff::<T>(s0, e));
            } else {
                assert(r.drop_last() == s0);
            }
        } else {
            lemma_grevlex_equal(last.exps, t.exps);
            lemma_insert_coeff::<T>(s0, t, e);
            assert(r.drop_last() == insert_spec::<T>(s0, t));
        }
    }
}

/// Every coefficient of a proper list of well-formed monomials can be
/// represented.
pub proof fn lemma_coeff_fits<T: Coef>(v: Seq<Mon<T>>, e: Exps)
    requires
        mons_wf(v),
        proper::<T>(views(v)),
    ensures
        T::val_fits(coeff::<T>(views(v), e)),
{
    let s = views(v);
    if exists|i: int| 0 <= i < s.len() && (#[trigger] s[i]).exps == e {
        let i = choose|i: int| 0 <= i < s.len() && (#[trigger] s[i]).exps == e;
        lemma_coeff_at::<T>(s, i);
        assert(v[i].wf());
        v[i].coef.lemma_wf_fits();
    } else {
        lemma_coeff_absent::<T>(s, e);
        T::lemma_zero_one();
    }
}

/// Adds the monomial `m` to the proper list. Returns `false`, and leaves
/// the list as it was, exactly when the coefficient that `m` has to be
/// folded into cannot take it.
pub fn insert_term<T: Coef>(list: &mut Vec<Mon<T>>, m: Mon<T>) -> (ok: bool)
    requires
        mons_wf(old(list)@),
        proper::<T>(views(old(list)@)),
        m.wf(),
    ensures
        ok <==> T::val_fits(T::add_val(coeff::<T>(views(old(list)@), m@.exps), m@.coef)),
        ok ==> mons_wf(final(list)@) && proper::<T>(views(final(list)@)) && views(final(list)@)
            == insert_spec::<T>(views(old(list)@), m@),
        !ok ==> final(list)@ == old(list)@,
{
    let ghost v0 = list@;
    let ghost s = views(list@);
    let ghost t = m@;
    proof {
        lemma_coeff_fits::<T>(v0, t.exps);
        lemma_insert_proper::<T>(s, t);
    }
    if m.coef.is_zero() {
        proof {
            T::lemma_add_zero(coeff::<T>(s, t.exps));
        }
        return true;
    }
    let mut i: usize = list.len();
    proof {
        assert(s.take(s.len() as int) == s);
        assert(insert_spec::<T>(s, t) + s.skip(s.len() as int) == insert_spec::<T>(s, t));
    }
    while i > 0 && exps_order(&list[i - 1].vars, &m.vars) == Order::Less
        invariant
            i <= list@.len(),
            list@ == v0,
            s == views(v0),
            t == m@,
            m.wf(),
            mons_wf(v0),
            proper::<T>(s),
            t.coef != T::zero_val(),
            insert_spec::<T>(s, t) == insert_spec::<T>(s.take(i as int), t) + s.skip(i as int),
            forall|j: int| i <= j < s.len() ==> grevlex((#[trigger] s[j]).exps, t.exps) == Order::Less,
        decreases i,
    {
        proof {
            let si = s.take(i as int);
            assert(si.last() == s[i - 1]);
            assert(si.drop_last() == s.take(i - 1));
            assert(insert_spec::<T>(si, t) == insert_spec::<T>(s.take(i - 1), t).push(s[i - 1]));
            assert(s.skip(i - 1) == seq![s[i - 1]] + s.skip(i as int));
            assert(insert_spec::<T>(s.take(i - 1), t).push(s[i - 1]) + s.skip(i as int)
                == insert_spec::<T>(s.take(i - 1), t) + s.skip(i - 1));
        }
        i -= 1;
    }
    let ghost si = s.take(i as int);
    proof {
        if i > 0 {
            assert(si.last() == s[i - 1]);
            assert(si.drop_last() == s.take(i - 1));
            assert(v0[i - 1].wf());
        }
    }
    if i > 0 && exps_order(&list[i - 1].vars, &m.vars) == Order::Equal {
        proof {
            lemma_grevlex_equal(s[i - 1].exps, t.exps);
            lemma_coeff_at::<T>(s, i - 1);
        }
        match list[i - 1].coef.plus(&m.coef) {
            None => false,
            Some(c) => {
                if c.is_zero() {
                    list.remove(i - 1);
                    proof {
                        assert(list@ == v0.remove(i - 1));
                        assert(views(list@) =~= s.take(i - 1) + s.skip(i as int));
                        assert forall|j: int| 0 <= j < list@.len() implies (
                        #[trigger] list@[j]).wf() by {
                            if j < i - 1 {
                                assert(list@[j] == v0[j]);
                            } else {
                                assert(list@[j] == v0[j + 1]);
                            }
                        }
                    }
                    true
                } else {
                    let nm = Mon { vars: m.vars, coef: c };
                    list.set(i - 1, nm);
                    proof {
                        assert(list@ == v0.update(i - 1, nm));
                        assert(views(list@) =~= s.take(i - 1).push(nm@) + s.skip(i as int));
                        assert forall|j: int| 0 <= j < list@.len() implies (
                        #[trigger] list@[j]).wf() by {
                            if j != i - 1 {
                                assert(list@[j] == v0[j]);
                            }
                        }
                    }
                    true
                }
            },
        }
    } else {
        proof {
            assert forall|j: int| 0 <= j < s.len() implies (#[trigger] s[j]).exps != t.exps by {
                lemma_grevlex_equal(s[j].exps, t.exps);
                if j < i {
                    assert(grevlex(s[i - 1].exps, t.exps) == Order::Greater);
                    if j < i - 1 {
                        assert(grevlex(s[j].exps, s[i - 1].exps) == Order::Greater);
                        lemma_grevlex_flip(s[j].exps, s[i - 1].exps);
                        lemma_grevlex_flip(s[i - 1].exps, t.exps);
                        lemma_grevlex_trans(t.exps, s[i - 1].exps, s[j].exps);
                        lemma_grevlex_flip(t.exps, s[j].exps);
                    }
                }
            }
            lemma_coeff_absent::<T>(s, t.exps);
            T::lemma_add_zero(t.coef);
            m.coef.lemma_wf_fits();
            if i == 0 {
                assert(si =~= Seq::empty());
                assert(insert_spec::<T>(si, t) == seq![t]);
            } else {
                assert(insert_spec::<T>(si, t) == si.push(t));
            }
        }
        list.insert(i, m);
        proof {
            assert(list@ == v0.insert(i as int, m));
            assert(views(list@) =~= si.push(t) + s.skip(i as int));
            assert forall|j: int| 0 <= j < list@.len() implies (#[trigger] list@[j]).wf() by {
                if j < i {
                    assert(list@[j] == v0[j]);
                } else if j > i {
                    assert(list@[j] == v0[j - 1]);
                }
            }
        }
        true
    }
}

/// Every term of the list is well formed.
pub open spec fn terms_wf<T: Coef>(l: Seq<Term<T::V>>) -> bool {
    forall|i: int| 0 <= i < l.len() ==> term_wf::<T>(#[trigger] l[i])
}

/// Summing the list from first to last, every coefficient of every partial
/// sum can be represented.
pub open spec fn sums_fit<T: Coef>(l: Seq<Term<T::V>>) -> bool {
    forall|k: int, e: Exps| 0 <= k <= l.len() ==> T::val_fits(#[trigger] coeff::<T>(l.take(k), e))
}

/// The list `p` begins the list `l`.
pub open spec fn is_prefix<A>(p: Seq<A>, l: Seq<A>) -> bool {
    p.len() <= l.len() && l.take(p.len() as int) == p
}

/// The views of well-formed monomials are well-formed terms.
pub proof fn lemma_views_wf<T: Coef>(v: Seq<Mon<T>>)
    requires
        mons_wf(v),
    ensures
        terms_wf::<T>(views(v)),
{
    assert forall|i: int| 0 <= i < views(v).len() implies term_wf::<T>(#[trigger] views(v)[i]) by {
        assert(v[i].wf());
    }
}

/// Adding a list of terms keeps a list proper and adds coefficient
/// functions.
pub proof fn lemma_insert_all<T: Coef>(s: Seq<Term<T::V>>, l: Seq<Term<T::V>>)
    requires
        proper::<T>(s),
        terms_wf::<T>(l),
    ensures
        proper::<T>(insert_all::<T>(s, l)),
        forall|e: Exps| #[trigger]
            coeff::<T>(insert_all::<T>(s, l), e) == T::add_val(coeff::<T>(s, e), coeff::<T>(l, e)),
    decreases l.len(),
{
    if l.len() == 0 {
        assert forall|e: Exps| #[trigger]
            coeff::<T>(insert_all::<T>(s, l), e) == T::add_val(
                coeff::<T>(s, e),
                coeff::<T>(l, e),
            ) by {
            T::lemma_add_zero(coeff::<T>(s, e));
        }
    } else {
        let l0 = l.drop_last();
        assert forall|i: int| 0 <= i < l0.len() implies term_wf::<T>(#[trigger] l0[i]) by {
            assert(l0[i] == l[i]);
        }
        lemma_insert_all::<T>(s, l0);
        let r0 = insert_all::<T>(s, l0);
        assert(term_wf::<T>(l[l.len() - 1]));
        lemma_insert_proper::<T>(r0, l.last());
        assert forall|e: Exps| #[trigger]
            coeff::<T>(insert_all::<T>(s, l), e) == T::add_val(
                coeff::<T>(s, e),
                coeff::<T>(l, e),
            ) by {
            lemma_insert_coeff::<T>(r0, l.last(), e);
            assert(coeff::<T>(r0, e) == T::add_val(coeff::<T>(s, e), coeff::<T>(l0, e)));
            if e == l.last().exps {
                T::lemma_add_assoc(coeff::<T>(s, e), coeff::<T>(l0, e), l.last().coef);
            }
        }
    }
}

/// The normal form of a list of well-formed terms is canonical and has the
/// coefficient function of the list.
pub proof fn lemma_normal_form<T: Coef>(l: Seq<Term<T::V>>)
    requires
        terms_wf::<T>(l),
    ensures
        canonical::<T>(normal_form::<T>(l)),
        forall|e: Exps| #[trigger] coeff::<T>(normal_form::<T>(l), e) == coeff::<T>(l, e),
{
    let s = Seq::<Term<T::V>>::empty();
    lemma_insert_all::<T>(s, l);
    let r = insert_all::<T>(s, l);
    assert forall|e: Exps| #[trigger] coeff::<T>(normal_form::<T>(l), e) == coeff::<T>(l, e) by {
        assert(coeff::<T>(r, e) == T::add_val(coeff::<T>(s, e), coeff::<T>(l, e)));
        T::lemma_add_zero(coeff::<T>(l, e));
        lemma_finish_coeff::<T>(r, e);
    }
}

/// The zero sentinel adds nothing to a coefficient function.
pub proof fn lemma_finish_coeff<T: Coef>(s: Seq<Term<T::V>>, e: Exps)
    ensures
        coeff::<T>(finish::<T>(s), e) == coeff::<T>(s, e),
        coeff::<T>(strip::<T>(s), e) == coeff::<T>(s, e),
        coeff::<T>(seq![term_zero::<T>()], e) == T::zero_val(),
{
    let z = seq![term_zero::<T>()];
    assert(z.drop_last() =~= Seq::empty());
    assert(coeff::<T>(z.drop_last(), e) == T::zero_val());
    T::lemma_add_zero(T::zero_val());
}

/// The monomial at `i` of a canonical list is the zero sentinel only if the
/// list is the sentinel alone.
pub proof fn lemma_canonical_zero<T: Coef>(s: Seq<Term<T::V>>, i: int)
    requires
        canonical::<T>(s),
        0 <= i < s.len(),
    ensures
        s[i].coef == T::zero_val() <==> s == seq![term_zero::<T>()],
        term_wf::<T>(s[i]),
{
    if s == seq![term_zero::<T>()] {
        assert(s[i] == term_zero::<T>());
        assert(crate::exps::degree(s[i].exps) == 0);
    }
}

/// Makes a proper list canonical: an empty list becomes the zero sentinel.
pub fn finish_terms<T: Coef>(list: Vec<Mon<T>>) -> (r: Vec<Mon<T>>)
    requires
        mons_wf(list@),
        proper::<T>(views(list@)),
    ensures
        mons_wf(r@),
        canonical::<T>(views(r@)),
        views(r@) == finish::<T>(views(list@)),
{
    if list.len() == 0 {
        let mut r: Vec<Mon<T>> = Vec::new();
        r.push(Mon::zero());
        assert(views(r@) =~= seq![term_zero::<T>()]);
        r
    } else {
        list
    }
}

/// The canonical form of a list of monomials: the terms summed by exponent
/// vector and sorted. `None` exactly when a partial sum cannot be
/// represented.
pub fn normalize_terms<T: Coef>(list: &Vec<Mon<T>>) -> (out: Option<Vec<Mon<T>>>)
    requires
        mons_wf(list@),
    ensures
        out.is_some() <==> sums_fit::<T>(views(list@)),
        out matches Some(r) ==> mons_wf(r@) && canonical::<T>(views(r@)) && views(r@)
            == normal_form::<T>(views(list@)) && forall|e: Exps| #[trigger]
            coeff::<T>(views(r@), e) == coeff::<T>(views(list@), e),
{
    let ghost l = views(list@);
    let mut acc: Vec<Mon<T>> = Vec::new();
    let mut k: usize = 0;
    proof {
        lemma_views_wf(list@);
        assert(l.take(0) =~= Seq::empty());
        assert(views(acc@) =~= Seq::empty());
        T::lemma_zero_one();
    }
    while k < list.len()
        invariant
            k <= list@.len(),
            l == views(list@),
            mons_wf(list@),
            terms_wf::<T>(l),
            mons_wf(acc@),
            proper::<T>(views(acc@)),
            views(acc@) == insert_all::<T>(Seq::empty(), l.take(k as int)),
            forall|j: int, e: Exps|
                0 <= j <= k ==> T::val_fits(#[trigger] coeff::<T>(l.take(j), e)),
        decreases list@.len() - k,
    {
        let ghost before = views(acc@);
        let ghost lk = l.take(k as int);
        let ghost lk1 = l.take(k + 1);
        let ghost t = l[k as int];
        proof {
            assert(list@[k as int].wf());
            assert(lk1.drop_last() == lk);
            assert(lk1.last() == t);
            assert forall|i: int| 0 <= i < lk.len() implies term_wf::<T>(#[trigger] lk[i]) by {
                assert(lk[i] == l[i]);
            }
            lemma_insert_all::<T>(Seq::empty(), lk);
            assert(coeff::<T>(before, t.exps) == T::add_val(
                coeff::<T>(Seq::empty(), t.exps),
                coeff::<T>(lk, t.exps),
            ));
            T::lemma_add_zero(coeff::<T>(lk, t.exps));
        }
        let ok = insert_term(&mut acc, list[k].dup());
        if !ok {
            proof {
                assert(!T::val_fits(coeff::<T>(l.take(k + 1), t.exps)));
            }
            return None;
        }
        proof {
            assert forall|j: int, e: Exps| 0 <= j <= k + 1 implies T::val_fits(
                #[trigger] coeff::<T>(l.take(j), e),
            ) by {
                if j == k + 1 {
                    if e != t.exps {
                        assert(coeff::<T>(lk1, e) == coeff::<T>(lk, e));
                    }
                }
            }
        }
        k += 1;
    }
    proof {
        assert(l.take(l.len() as int) == l);
        lemma_normal_form::<T>(l);
    }
    Some(finish_terms(acc))
}

/// A copy of a list of monomials.
pub fn dup_terms<T: Coef>(a: &Vec<Mon<T>>) -> (r: Vec<Mon<T>>)
    requires
        mons_wf(a@),
    ensures
        mons_wf(r@),
        views(r@) == views(a@),
{
    let mut r: Vec<Mon<T>> = Vec::new();
    let mut i: usize = 0;
    while i < a.len()
        invariant
            i <= a@.len(),
            mons_wf(a@),
            mons_wf(r@),
            r@.len() == i,
            forall|j: int| 0 <= j < i ==> (#[trigger] r@[j])@ == a@[j]@,
        decreases a@.len() - i,
    {
        assert(a@[i as int].wf());
        let m = a[i].dup();
        r.push(m);
        i += 1;
    }
    assert(views(r@) =~= views(a@));
    r
}

/// Whether a canonical list is the zero sentinel.
pub fn is_zero_terms<T: Coef>(a: &Vec<Mon<T>>) -> (b: bool)
    requires
        mons_wf(a@),
        canonical::<T>(views(a@)),
    ensures
        b == (views(a@) == seq![term_zero::<T>()]),
{
    assert(views(a@).len() == a@.len());
    assert(a@[0].wf());
    proof {
        lemma_canonical_zero::<T>(views(a@), 0);
    }
    a[0].is_zero()
}

/// A copy of a canonical list without its zero sentinel.
pub fn strip_terms<T: Coef>(a: &Vec<Mon<T>>) -> (r: Vec<Mon<T>>)
    requires
        mons_wf(a@),
        canonical::<T>(views(a@)),
    ensures
        mons_wf(r@),
        proper::<T>(views(r@)),
        views(r@) == strip::<T>(views(a@)),
{
    if is_zero_terms(a) {
        let r: Vec<Mon<T>> = Vec::new();
        assert(views(r@) =~= Seq::empty());
        r
    } else {
        dup_terms(a)
    }
}

/// Whether two canonical lists are the same: term by term the same
/// exponents and coefficients of the same value.
pub fn same_terms<T: Coef>(a: &Vec<Mon<T>>, b: &Vec<Mon<T>>) -> (r: bool)
    requires
        mons_wf(a@),
        mons_wf(b@),
    ensures
        r == (views(a@) == views(b@)),
{
    if a.len() != b.len() {
        assert(views(a@).len() != views(b@).len());
        return false;
    }
    let mut i: usize = 0;
    while i < a.len()
        invariant
            i <= a@.len(),
            a@.len() == b@.len(),
            mons_wf(a@),
            mons_wf(b@),
            forall|j: int| 0 <= j < i ==> (#[trigger] a@[j])@ == b@[j]@,
        decreases a@.len() - i,
    {
        assert(a@[i as int].wf() && b@[i as int].wf());
        if !a[i].equals(&b[i]) {
            assert(views(a@)[i as int] != views(b@)[i as int]);
            return false;
        }
        i += 1;
    }
    assert(views(a@) =~= views(b@));
    true
}

/// In a canonical list, the terms before a term do not bear its exponent
/// vector, so that the coefficient of that vector is the term's own.
proof fn lemma_canonical_step<T: Coef>(b: Seq<Term<T::V>>, k: int)
    requires
        canonical::<T>(b),
        0 <= k < b.len(),
    ensures
        coeff::<T>(b.take(k + 1), b[k].exps) == b[k].coef,
        coeff::<T>(b, b[k].exps) == b[k].coef,
{
    if b == seq![term_zero::<T>()] {
        assert(b.take(k + 1) == b);
        lemma_finish_coeff::<T>(b, b[k].exps);
    } else {
        lemma_proper_take::<T>(b, k + 1);
        lemma_coeff_at::<T>(b.take(k + 1), k);
        lemma_coeff_at::<T>(b, k);
    }
}

/// The sum of two canonical lists. `None` exactly when the sum of the two
/// coefficients of some exponent vector cannot be represented.
pub fn sum_terms<T: Coef>(a: &Vec<Mon<T>>, b: &Vec<Mon<T>>) -> (out: Option<Vec<Mon<T>>>)
    requires
        mons_wf(a@),
        mons_wf(b@),
        canonical::<T>(views(a@)),
        canonical::<T>(views(b@)),
    ensures
        out.is_some() <==> forall|e: Exps|
            T::val_fits(
                T::add_val(#[trigger] coeff::<T>(views(a@), e), coeff::<T>(views(b@), e)),
            ),
        out matches Some(r) ==> mons_wf(r@) && canonical::<T>(views(r@)) && views(r@) == finish::<
            T,
        >(insert_all::<T>(strip::<T>(views(a@)), views(b@))) && forall|e: Exps| #[trigger]
            coeff::<T>(views(r@), e) == T::add_val(
                coeff::<T>(views(a@), e),
                coeff::<T>(views(b@), e),
            ),
{
    let ghost sa = views(a@);
    let ghost sb = views(b@);
    let ghost base = strip::<T>(sa);
    let mut acc = strip_terms(a);
    let mut k: usize = 0;
    proof {
        lemma_views_wf(b@);
        assert(sb.take(0) =~= Seq::empty());
    }
    while k < b.len()
        invariant
            k <= b@.len(),
            sa == views(a@),
            sb == views(b@),
            base == strip::<T>(sa),
            proper::<T>(base),
            mons_wf(b@),
            terms_wf::<T>(sb),
            canonical::<T>(sb),
            mons_wf(acc@),
            proper::<T>(views(acc@)),
            views(acc@) == insert_all::<T>(base, sb.take(k as int)),
        decreases b@.len() - k,
    {
        let ghost bk = sb.take(k as int);
        let ghost bk1 = sb.take(k + 1);
        let ghost t = sb[k as int];
        proof {
            assert(b@[k as int].wf());
            assert(bk1.drop_last() == bk);
            assert(bk1.last() == t);
            assert forall|i: int| 0 <= i < bk.len() implies term_wf::<T>(#[trigger] bk[i]) by {
                assert(bk[i] == sb[i]);
            }
            lemma_insert_all::<T>(base, bk);
            lemma_canonical_step::<T>(sb, k as int);
            lemma_finish_coeff::<T>(sa, t.exps);
            let ca = coeff::<T>(sa, t.exps);
            assert(coeff::<T>(views(acc@), t.exps) == T::add_val(ca, coeff::<T>(bk, t.exps)));
            T::lemma_add_assoc(ca, coeff::<T>(bk, t.exps), t.coef);
            assert(T::add_val(coeff::<T>(bk, t.exps), t.coef) == coeff::<T>(bk1, t.exps));
        }
        let ok = insert_term(&mut acc, b[k].dup());
        if !ok {
            proof {
                assert(!T::val_fits(
                    T::add_val(coeff::<T>(views(a@), t.exps), coeff::<T>(views(b@), t.exps)),
                ));
            }
            return None;
        }
        k += 1;
    }
    proof {
        assert(sb.take(sb.len() as int) == sb);
        lemma_insert_all::<T>(base, sb);
        let r = views(acc@);
        assert forall|e: Exps|
            T::val_fits(
                T::add_val(#[trigger] coeff::<T>(views(a@), e), coeff::<T>(views(b@), e)),
            ) && coeff::<T>(finish::<T>(r), e) == T::add_val(
                coeff::<T>(views(a@), e),
                coeff::<T>(views(b@), e),
            ) by {
            lemma_coeff_fits::<T>(acc@, e);
            lemma_finish_coeff::<T>(sa, e);
            lemma_finish_coeff::<T>(r, e);
            assert(coeff::<T>(r, e) == T::add_val(coeff::<T>(base, e), coeff::<T>(sb, e)));
        }
    }
    Some(finish_terms(acc))
}

/// The list `s` with every coefficient multiplied by the scalar `c`.
pub open spec fn scaled<T: Coef>(s: Seq<Term<T::V>>, c: real) -> Seq<Term<T::V>> {
    Seq::new(s.len(), |i: int| Term { exps: s[i].exps, coef: T::scale_val(s[i].coef, c) })
}

/// Multiplying every coefficient of a list by a scalar multiplies its
/// coefficient function by the scalar.
pub proof fn lemma_scaled_coeff<T: Coef>(s: Seq<Term<T::V>>, c: real, e: Exps)
    ensures
        coeff::<T>(scaled::<T>(s, c), e) == T::scale_val(coeff::<T>(s, e), c),
    decreases s.len(),
{
    if s.len() == 0 {
        T::lemma_scale_zero(c);
    } else {
        lemma_scaled_coeff::<T>(s.drop_last(), c, e);
        assert(scaled::<T>(s, c).drop_last() =~= scaled::<T>(s.drop_last(), c));
        T::lemma_scale_add(coeff::<T>(s.drop_last(), e), s.last().coef, c);
    }
}

/// Multiplying a canonical list by a scalar other than zero gives a
/// canonical list.
pub proof fn lemma_scaled_canonical<T: Coef>(s: Seq<Term<T::V>>, c: real)
    requires
        canonical::<T>(s),
        c != 0 as real,
    ensures
        canonical::<T>(scaled::<T>(s, c)),
{
    let r = scaled::<T>(s, c);
    if s == seq![term_zero::<T>()] {
        T::lemma_scale_zero(c);
        assert(r =~= seq![term_zero::<T>()]);
    } else {
        assert forall|i: int| 0 <= i < r.len() implies term_wf::<T>(#[trigger] r[i]) && r[i].coef
            != T::zero_val() by {
            assert(term_wf::<T>(s[i]));
            if r[i].coef == T::zero_val() {
                T::lemma_scale_nonzero(s[i].coef, c);
            }
        }
        assert forall|i: int, j: int| 0 <= i < j < r.len() implies grevlex(
            (#[trigger] r[i]).exps,
            (#[trigger] r[j]).exps,
        ) == Order::Greater by {
            assert(r[i].exps == s[i].exps && r[j].exps == s[j].exps);
        }
    }
}

/// The additive inverse of a canonical list: every coefficient changes
/// sign. `None` exactly when the inverse of some coefficient cannot be
/// represented.
pub fn neg_terms<T: Coef>(a: &Vec<Mon<T>>) -> (out: Option<Vec<Mon<T>>>)
    requires
        mons_wf(a@),
        canonical::<T>(views(a@)),
    ensures
        out.is_some() <==> forall|e: Exps|
            T::val_fits(T::scale_val(#[trigger] coeff::<T>(views(a@), e), -(1 as real))),
        out matches Some(r) ==> mons_wf(r@) && canonical::<T>(views(r@)) && views(r@) == scaled::<
            T,
        >(views(a@), -(1 as real)) && forall|e: Exps| #[trigger]
            coeff::<T>(views(r@), e) == T::scale_val(coeff::<T>(views(a@), e), -(1 as real)),
{
    let ghost s = views(a@);
    let ghost c = -(1 as real);
    let mut r: Vec<Mon<T>> = Vec::new();
    let mut i: usize = 0;
    while i < a.len()
        invariant
            i <= a@.len(),
            s == views(a@),
            c == -(1 as real),
            mons_wf(a@),
            canonical::<T>(s),
            r@.len() == i,
            forall|j: int|
                0 <= j < i ==> (#[trigger] r@[j]).coef.wf() && r@[j]@ == scaled::<T>(s, c)[j],
        decreases a@.len() - i,
    {
        assert(a@[i as int].wf());
        match a[i].coef.negated() {
            None => {
                proof {
                    lemma_canonical_step::<T>(s, i as int);
                }
                return None;
            },
            Some(nc) => {
                r.push(Mon { vars: crate::exps::exps_dup(&a[i].vars), coef: nc });
            },
        }
        i += 1;
    }
    proof {
        assert(views(r@) =~= scaled::<T>(s, c));
        lemma_scaled_canonical::<T>(s, c);
        assert forall|j: int| 0 <= j < r@.len() implies (#[trigger] r@[j]).wf() by {
            assert(r@[j]@ == views(r@)[j]);
            lemma_canonical_zero::<T>(views(r@), j);
        }
        assert forall|e: Exps|
            T::val_fits(T::scale_val(#[trigger] coeff::<T>(views(a@), e), c)) && coeff::<T>(
                views(r@),
                e,
            ) == T::scale_val(coeff::<T>(views(a@), e), c) by {
            lemma_scaled_coeff::<T>(s, c, e);
            if views(r@) == seq![term_zero::<T>()] {
                lemma_finish_coeff::<T>(views(r@), e);
                T::lemma_zero_one();
            } else {
                lemma_coeff_fits::<T>(r@, e);
            }
        }
    }
    Some(r)
}

/// The product of the term `t` and the rational term `q` can be
/// represented: its coefficient fits and, unless the coefficient is zero,
/// its total degree stays within a machine word.
pub open spec fn mul_ok<T: Coef>(t: Term<T::V>, q: Term<real>) -> bool {
    let c = T::scale_val(t.coef, q.coef);
    T::val_fits(c) && (c == T::zero_val() || degree(t.exps) + degree(q.exps) <= usize::MAX)
}

/// The products of one term with every term of a rational list.
pub open spec fn row<T: Coef>(t: Term<T::V>, p: Seq<Term<real>>) -> Seq<Term<T::V>> {
    Seq::new(p.len(), |j: int| term_mul::<T>(t, p[j]))
}

/// The products of every term of `a` with every term of `p`, the terms of
/// `a` in turn.
pub open spec fn products<T: Coef>(a: Seq<Term<T::V>>, p: Seq<Term<real>>) -> Seq<Term<T::V>>
    decreases a.len(),
{
    if a.len() == 0 {
        Seq::empty()
    } else {
        products::<T>(a.drop_last(), p) + row::<T>(a.last(), p)
    }
}

/// Every product of a term of `a` and a term of `p` can be represented.
pub open spec fn products_ok<T: Coef>(a: Seq<Term<T::V>>, p: Seq<Term<real>>) -> bool {
    forall|i: int, j: int|
        0 <= i < a.len() && 0 <= j < p.len() ==> mul_ok::<T>(#[trigger] a[i], #[trigger] p[j])
}

/// The products of the first terms of `a`, and of the next term with the
/// first terms of `p`, begin the list of all products.
pub proof fn lemma_products_prefix<T: Coef>(
    a: Seq<Term<T::V>>,
    p: Seq<Term<real>>,
    i: int,
    j: int,
)
    requires
        0 <= i < a.len(),
        0 <= j <= p.len(),
    ensures
        is_prefix(products::<T>(a.take(i), p) + row::<T>(a[i], p).take(j), products::<T>(a, p)),
    decreases a.len(),
{
    let a0 = a.drop_last();
    let x = products::<T>(a.take(i), p) + row::<T>(a[i], p).take(j);
    if i == a.len() - 1 {
        assert(a.take(i) == a0);
        assert(products::<T>(a, p).take(x.len() as int) =~= x);
    } else {
        lemma_products_prefix::<T>(a0, p, i, j);
        assert(a0.take(i) == a.take(i));
        assert(a0[i] == a[i]);
        assert(products::<T>(a, p).take(x.len() as int) =~= products::<T>(a0, p).take(
            x.len() as int,
        ));
    }
}

/// The product of a canonical list and a canonical rational list: the
/// normal form of all products of their terms. `None` exactly when a
/// product of two terms, or a partial sum of the products, cannot be
/// represented.
pub fn mul_terms<T: Coef>(a: &Vec<Mon<T>>, p: &Vec<Mon<Rat>>) -> (out: Option<Vec<Mon<T>>>)
    requires
        mons_wf(a@),
        mons_wf(p@),
    ensures
        out.is_some() <==> products_ok::<T>(views(a@), views(p@)) && sums_fit::<T>(
            products::<T>(views(a@), views(p@)),
        ),
        out matches Some(r) ==> mons_wf(r@) && canonical::<T>(views(r@)) && views(r@)
            == normal_form::<T>(products::<T>(views(a@), views(p@))) && forall|e: Exps| #[trigger]
            coeff::<T>(views(r@), e) == coeff::<T>(products::<T>(views(a@), views(p@)), e),
{
    let ghost sa = views(a@);
    let ghost sp = views(p@);
    let ghost all = products::<T>(sa, sp);
    let ghost mut done: Seq<Term<T::V>> = Seq::empty();
    let mut acc: Vec<Mon<T>> = Vec::new();
    let mut i: usize = 0;
    proof {
        assert(sa.take(0) =~= Seq::empty());
        assert(views(acc@) =~= Seq::empty());
        assert(done.take(0) =~= done);
        T::lemma_zero_one();
    }
    while i < a.len()
        invariant
            i <= a@.len(),
            sa == views(a@),
            sp == views(p@),
            all == products::<T>(sa, sp),
            mons_wf(a@),
            mons_wf(p@),
            mons_wf(acc@),
            proper::<T>(views(acc@)),
            done == products::<T>(sa.take(i as int), sp),
            views(acc@) == insert_all::<T>(Seq::empty(), done),
            terms_wf::<T>(done),
            sums_fit::<T>(done),
            forall|i0: int, j0: int|
                0 <= i0 < i && 0 <= j0 < sp.len() ==> mul_ok::<T>(
                    #[trigger] sa[i0],
                    #[trigger] sp[j0],
                ),
        decreases a@.len() - i,
    {
        let ghost base = done;
        let ghost t = sa[i as int];
        let mut j: usize = 0;
        proof {
            assert(row::<T>(t, sp).take(0) =~= Seq::empty());
            assert(base + Seq::empty() =~= base);
        }
        while j < p.len()
            invariant
                i < a@.len(),
                j <= p@.len(),
                sa == views(a@),
                sp == views(p@),
                all == products::<T>(sa, sp),
                t == sa[i as int],
                mons_wf(a@),
                mons_wf(p@),
                mons_wf(acc@),
                proper::<T>(views(acc@)),
                base == products::<T>(sa.take(i as int), sp),
                done == base + row::<T>(t, sp).take(j as int),
                views(acc@) == insert_all::<T>(Seq::empty(), done),
                terms_wf::<T>(done),
                sums_fit::<T>(done),
                forall|i0: int, j0: int|
                    0 <= i0 < i && 0 <= j0 < sp.len() ==> mul_ok::<T>(
                        #[trigger] sa[i0],
                        #[trigger] sp[j0],
                    ),
                forall|j0: int| 0 <= j0 < j ==> mul_ok::<T>(t, #[trigger] sp[j0]),
            decreases p@.len() - j,
        {
            assert(a@[i as int].wf() && p@[j as int].wf());
            let prod = a[i].mul_mon(&p[j]);
            let m = match prod {
                None => {
                    proof {
                        assert(!mul_ok::<T>(sa[i as int], sp[j as int]));
                    }
                    return None;
                },
                Some(m) => m,
            };
            let ghost x = m@;
            let ghost next = done.push(x);
            proof {
                assert(x == row::<T>(t, sp)[j as int]);
                assert(row::<T>(t, sp).take(j + 1) == row::<T>(t, sp).take(j as int).push(x));
                assert(next =~= base + row::<T>(t, sp).take(j + 1));
                assert(next.drop_last() == done);
                lemma_insert_all::<T>(Seq::empty(), done);
                T::lemma_add_zero(coeff::<T>(done, x.exps));
                assert(coeff::<T>(views(acc@), x.exps) == coeff::<T>(done, x.exps));
                assert(coeff::<T>(next, x.exps) == T::add_val(coeff::<T>(done, x.exps), x.coef));
            }
            let ok = insert_term(&mut acc, m);
            if !ok {
                proof {
                    lemma_products_prefix::<T>(sa, sp, i as int, j + 1);
                    assert(all.take(next.len() as int) == next);
                    assert(!T::val_fits(coeff::<T>(all.take(next.len() as int), x.exps)));
                }
                return None;
            }
            proof {
                assert forall|k: int| 0 <= k < next.len() implies term_wf::<T>(
                    #[trigger] next[k],
                ) by {
                    if k < done.len() {
                        assert(next[k] == done[k]);
                    }
                }
                lemma_insert_all::<T>(Seq::empty(), next);
                assert forall|k: int, e: Exps| 0 <= k <= next.len() implies T::val_fits(
                    #[trigger] coeff::<T>(next.take(k), e),
                ) by {
                    if k == next.len() {
                        assert(next.take(k) == next);
                        lemma_coeff_fits::<T>(acc@, e);
                        T::lemma_add_zero(coeff::<T>(next, e));
                    } else {
                        assert(next.take(k) == done.take(k));
                    }
                }
                done = next;
            }
            j += 1;
        }
        proof {
            assert(row::<T>(t, sp).take(sp.len() as int) == row::<T>(t, sp));
            assert(sa.take(i + 1).drop_last() == sa.take(i as int));
            assert(sa.take(i + 1).last() == t);
        }
        i += 1;
    }
    proof {
        assert(sa.take(sa.len() as int) == sa);
        lemma_normal_form::<T>(all);
    }
    Some(finish_terms(acc))
}

/// The canonical form of a list of terms, where every partial sum can be
/// represented.
pub open spec fn normal_spec<T: Coef>(l: Seq<Term<T::V>>) -> Option<Seq<Term<T::V>>> {
    if sums_fit::<T>(l) {
        Some(normal_form::<T>(l))
    } else {
        None
    }
}

/// The sum of two canonical lists, where every coefficient of the sum can
/// be represented.
pub open spec fn add_spec<T: Coef>(a: Seq<Term<T::V>>, b: Seq<Term<T::V>>) -> Option<
    Seq<Term<T::V>>,
> {
    if forall|e: Exps| T::val_fits(T::add_val(#[trigger] coeff::<T>(a, e), coeff::<T>(b, e))) {
        Some(finish::<T>(insert_all::<T>(strip::<T>(a), b)))
    } else {
        None
    }
}

/// The additive inverse of a canonical list, where the inverse of every
/// coefficient can be represented.
pub open spec fn neg_spec<T: Coef>(a: Seq<Term<T::V>>) -> Option<Seq<Term<T::V>>> {
    if forall|e: Exps| T::val_fits(T::scale_val(#[trigger] coeff::<T>(a, e), -(1 as real))) {
        Some(scaled::<T>(a, -(1 as real)))
    } else {
        None
    }
}

/// The product of a list and a rational list, where every product of two
/// terms and every partial sum of the products can be represented.
pub open spec fn mul_spec<T: Coef>(a: Seq<Term<T::V>>, p: Seq<Term<real>>) -> Option<
    Seq<Term<T::V>>,
> {
    if products_ok::<T>(a, p) && sums_fit::<T>(products::<T>(a, p)) {
        Some(normal_form::<T>(products::<T>(a, p)))
    } else {
        None
    }
}

/// The difference of two canonical lists: the first plus the inverse of the
/// second.
pub open spec fn sub_spec<T: Coef>(a: Seq<Term<T::V>>, b: Seq<Term<T::V>>) -> Option<
    Seq<Term<T::V>>,
> {
    match neg_spec::<T>(b) {
        Some(nb) => add_spec::<T>(a, nb),
        None => None,
    }
}

/// The total degree of the leading term.
pub open spec fn leading_degree<V>(s: Seq<Term<V>>) -> int {
    degree(s[0].exps)
}

/// No term of a proper list has a larger total degree than the first.
pub proof fn lemma_leading_degree<T: Coef>(s: Seq<Term<T::V>>, i: int)
    requires
        proper::<T>(s),
        0 <= i < s.len(),
    ensures
        degree(s[i].exps) <= leading_degree(s),
{
    if i > 0 {
        assert(grevlex(s[0].exps, s[i].exps) == Order::Greater);
    }
}

/// The total degree of the leading term of a canonical list.
pub fn degree_terms<T: Coef>(a: &Vec<Mon<T>>) -> (d: usize)
    requires
        mons_wf(a@),
        canonical::<T>(views(a@)),
    ensures
        d == leading_degree(views(a@)),
{
    assert(views(a@).len() == a@.len());
    assert(a@[0].wf());
    crate::exps::exps_degree(&a[0].vars)
}

} // verus!
