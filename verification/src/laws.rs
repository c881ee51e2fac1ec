//! Laws of the algebra of polynomials and templates.
//!
//! A canonical list is determined by its coefficient function. From this
//! follow the laws of the operations: normalization changes no canonical
//! list, zero is neutral for addition, one for multiplication, and
//! multiplication distributes over addition.
use crate::coef::Coef;
use crate::exps::{
    degree, exps_mul, exps_wf, grevlex, lemma_exps_mul, lemma_grevlex_equal, lemma_grevlex_flip,
    lemma_grevlex_trans, Exps, Order,
};
use crate::mon::{term_mul, term_one, term_wf, term_zero, Mon, Term};
use crate::rat::Rat;
use crate::terms::{
    add_spec, canonical, coeff, finish, insert_all, insert_spec, lemma_coeff_absent,
    lemma_coeff_at, lemma_coeff_fits, lemma_finish_coeff, lemma_insert_all, lemma_normal_form,
    lemma_proper_take, mons_wf, mul_ok, mul_spec, normal_form, normal_spec, products, products_ok,
    proper, row, strip, sums_fit, terms_wf, views,
};
use vstd::prelude::*;

verus! {

/// The last term of a proper list has an exponent vector of its own: the
/// list before it gives that vector the coefficient zero.
pub proof fn lemma_last_alone<T: Coef>(s: Seq<Term<T::V>>)
    requires
        proper::<T>(s),
        s.len() > 0,
    ensures
        proper::<T>(s.drop_last()),
        coeff::<T>(s.drop_last(), s.last().exps) == T::zero_val(),
        coeff::<T>(s, s.last().exps) == s.last().coef,
{
    let s0 = s.drop_last();
    let e = s.last().exps;
    lemma_proper_take::<T>(s, s.len() - 1);
    assert(s.take(s.len() - 1) == s0);
    assert forall|j: int| 0 <= j < s0.len() implies (#[trigger] s0[j]).exps != e by {
        assert(s0[j] == s[j]);
        assert(grevlex(s[j].exps, s[s.len() - 1].exps) == Order::Greater);
        lemma_grevlex_equal(s[j].exps, e);
    }
    lemma_coeff_absent::<T>(s0, e);
    lemma_coeff_at::<T>(s, s.len() - 1);
}

/// Two proper lists with the same coefficient function are the same list.
pub proof fn lemma_proper_unique<T: Coef>(a: Seq<Term<T::V>>, b: Seq<Term<T::V>>)
    requires
        proper::<T>(a),
        proper::<T>(b),
        forall|e: Exps| coeff::<T>(a, e) == coeff::<T>(b, e),
    ensures
        a == b,
    decreases a.len() + b.len(),
{
    if a.len() == 0 && b.len() == 0 {
        assert(a =~= b);
    } else if a.len() == 0 {
        lemma_coeff_at::<T>(b, 0);
        assert(coeff::<T>(a, b[0].exps) == T::zero_val());
    } else if b.len() == 0 {
        lemma_coeff_at::<T>(a, 0);
        assert(coeff::<T>(b, a[0].exps) == T::zero_val());
    } else {
        let x = a.last();
        let y = b.last();
        let a0 = a.drop_last();
        let b0 = b.drop_last();
        lemma_last_alone::<T>(a);
        lemma_last_alone::<T>(b);
        assert(a[a.len() - 1] == x && b[b.len() - 1] == y);
        lemma_grevlex_equal(x.exps, y.exps);
        lemma_grevlex_flip(x.exps, y.exps);
        if grevlex(x.exps, y.exps) == Order::Less {
            // no term of `b` bears the vector of `x`
            assert forall|j: int| 0 <= j < b.len() implies (#[trigger] b[j]).exps != x.exps by {
                lemma_grevlex_equal(b[j].exps, x.exps);
                if j < b.len() - 1 {
                    assert(grevlex(b[j].exps, b[b.len() - 1].exps) == Order::Greater);
                    lemma_grevlex_flip(b[j].exps, y.exps);
                    lemma_grevlex_trans(x.exps, y.exps, b[j].exps);
                    lemma_grevlex_flip(x.exps, b[j].exps);
                }
            }
            lemma_coeff_absent::<T>(b, x.exps);
            assert(coeff::<T>(a, x.exps) == coeff::<T>(b, x.exps));
        } else if grevlex(x.exps, y.exps) == Order::Greater {
            assert forall|j: int| 0 <= j < a.len() implies (#[trigger] a[j]).exps != y.exps by {
                lemma_grevlex_equal(a[j].exps, y.exps);
                if j < a.len() - 1 {
                    assert(grevlex(a[j].exps, a[a.len() - 1].exps) == Order::Greater);
                    lemma_grevlex_flip(a[j].exps, x.exps);
                    lemma_grevlex_trans(y.exps, x.exps, a[j].exps);
                    lemma_grevlex_flip(y.exps, a[j].exps);
                }
            }
            lemma_coeff_absent::<T>(a, y.exps);
            assert(coeff::<T>(a, y.exps) == coeff::<T>(b, y.exps));
        } else {
            assert(x.exps == y.exps);
            assert(coeff::<T>(a, x.exps) == coeff::<T>(b, x.exps));
            assert(x.coef == y.coef);
            assert(x == y);
            assert forall|e: Exps| coeff::<T>(a0, e) == coeff::<T>(b0, e) by {
                assert(coeff::<T>(a, e) == coeff::<T>(b, e));
            }
            lemma_proper_unique::<T>(a0, b0);
            assert(a == a0.push(x));
            assert(b == b0.push(y));
        }
    }
}

/// Two canonical lists with the same coefficient function are the same
/// list: the canonical form is what makes equality of lists the equality
/// of what they denote.
pub proof fn lemma_canonical_unique<T: Coef>(a: Seq<Term<T::V>>, b: Seq<Term<T::V>>)
    requires
        canonical::<T>(a),
        canonical::<T>(b),
        forall|e: Exps| coeff::<T>(a, e) == coeff::<T>(b, e),
    ensures
        a == b,
{
    let a0 = strip::<T>(a);
    let b0 = strip::<T>(b);
    assert forall|e: Exps| coeff::<T>(a0, e) == coeff::<T>(b0, e) by {
        lemma_finish_coeff::<T>(a, e);
        lemma_finish_coeff::<T>(b, e);
        assert(coeff::<T>(a, e) == coeff::<T>(b, e));
    }
    lemma_proper_unique::<T>(a0, b0);
    assert(finish::<T>(a0) == a);
    assert(finish::<T>(b0) == b);
}

/// The terms of a canonical list are well formed.
pub proof fn lemma_canonical_wf<T: Coef>(s: Seq<Term<T::V>>)
    requires
        canonical::<T>(s),
    ensures
        terms_wf::<T>(s),
{
    assert forall|i: int| 0 <= i < s.len() implies term_wf::<T>(#[trigger] s[i]) by {
        crate::terms::lemma_canonical_zero::<T>(s, i);
    }
}

/// Normalization is idempotent: the normal form of a normal form is that
/// normal form.
pub proof fn lemma_normal_idempotent<T: Coef>(l: Seq<Term<T::V>>)
    requires
        terms_wf::<T>(l),
    ensures
        normal_form::<T>(normal_form::<T>(l)) == normal_form::<T>(l),
{
    let n = normal_form::<T>(l);
    lemma_normal_form::<T>(l);
    lemma_normal_canonical::<T>(n);
}

/// The normal form of a canonical list is the list itself.
pub proof fn lemma_normal_canonical<T: Coef>(s: Seq<Term<T::V>>)
    requires
        canonical::<T>(s),
    ensures
        normal_form::<T>(s) == s,
{
    lemma_canonical_wf::<T>(s);
    lemma_normal_form::<T>(s);
    let n = normal_form::<T>(s);
    assert forall|e: Exps| coeff::<T>(n, e) == coeff::<T>(s, e) by {}
    lemma_canonical_unique::<T>(n, s);
}

/// The coefficients of a prefix of a canonical list are coefficients of
/// the list, or zero.
proof fn lemma_prefix_coeff<T: Coef>(s: Seq<Term<T::V>>, k: int, e: Exps)
    requires
        canonical::<T>(s),
        0 <= k <= s.len(),
    ensures
        coeff::<T>(s.take(k), e) == coeff::<T>(s, e) || coeff::<T>(s.take(k), e) == T::zero_val(),
{
    let p = s.take(k);
    if s == seq![term_zero::<T>()] {
        lemma_finish_coeff::<T>(s, e);
        if k == 0 {
            assert(p =~= Seq::empty());
        } else {
            assert(p == s);
        }
    } else {
        lemma_proper_take::<T>(s, k);
        if exists|i: int| 0 <= i < p.len() && (#[trigger] p[i]).exps == e {
            let i = choose|i: int| 0 <= i < p.len() && (#[trigger] p[i]).exps == e;
            lemma_coeff_at::<T>(p, i);
            assert(p[i] == s[i]);
            lemma_coeff_at::<T>(s, i);
        } else {
            lemma_coeff_absent::<T>(p, e);
        }
    }
}

/// Normalization is idempotent on what can be represented: to normalize
/// the monomials of a polynomial or template gives it back.
pub proof fn lemma_normalize_again<T: Coef>(v: Seq<Mon<T>>)
    requires
        mons_wf(v),
        canonical::<T>(views(v)),
    ensures
        normal_spec::<T>(views(v)) == Some(views(v)),
{
    let s = views(v);
    lemma_normal_canonical::<T>(s);
    assert forall|k: int, e: Exps| 0 <= k <= s.len() implies T::val_fits(
        #[trigger] coeff::<T>(s.take(k), e),
    ) by {
        lemma_prefix_coeff::<T>(s, k, e);
        lemma_all_fit::<T>(v, e);
        T::lemma_zero_one();
    }
}

/// Every coefficient of a canonical list of well-formed monomials can be
/// represented.
pub proof fn lemma_all_fit<T: Coef>(v: Seq<Mon<T>>, e: Exps)
    requires
        mons_wf(v),
        canonical::<T>(views(v)),
    ensures
        T::val_fits(coeff::<T>(views(v), e)),
{
    let s = views(v);
    if s == seq![term_zero::<T>()] {
        lemma_finish_coeff::<T>(s, e);
        T::lemma_zero_one();
    } else {
        lemma_coeff_fits::<T>(v, e);
    }
}

/// Zero is the neutral element of addition: `p + 0 == p` and
/// `0 + p == p`.
pub proof fn lemma_add_zero<T: Coef>(v: Seq<Mon<T>>)
    requires
        mons_wf(v),
        canonical::<T>(views(v)),
    ensures
        add_spec::<T>(views(v), seq![term_zero::<T>()]) == Some(views(v)),
        add_spec::<T>(seq![term_zero::<T>()], views(v)) == Some(views(v)),
{
    let p = views(v);
    let z = seq![term_zero::<T>()];
    assert forall|e: Exps|
        T::val_fits(T::add_val(#[trigger] coeff::<T>(p, e), coeff::<T>(z, e))) && T::val_fits(
            T::add_val(#[trigger] coeff::<T>(z, e), coeff::<T>(p, e)),
        ) by {
        lemma_finish_coeff::<T>(z, e);
        T::lemma_add_zero(coeff::<T>(p, e));
        lemma_all_fit::<T>(v, e);
    }
    // p + 0
    assert(z.drop_last() =~= Seq::empty());
    assert(insert_all::<T>(strip::<T>(p), z.drop_last()) == strip::<T>(p));
    assert(insert_all::<T>(strip::<T>(p), z) == insert_spec::<T>(strip::<T>(p), z.last()));
    assert(insert_spec::<T>(strip::<T>(p), term_zero::<T>()) == strip::<T>(p));
    assert(finish::<T>(strip::<T>(p)) == p);
    // 0 + p
    assert(strip::<T>(z) =~= Seq::empty());
    lemma_normal_canonical::<T>(p);
}

/// A weight for every exponent vector.
pub type Weight = spec_fn(Exps) -> real;

/// The weighted sum of a list of terms: the sum of the coefficients, each
/// multiplied by the weight of its exponent vector.
pub open spec fn wsum<T: Coef>(s: Seq<Term<T::V>>, g: Weight) -> T::V
    decreases s.len(),
{
    if s.len() == 0 {
        T::zero_val()
    } else {
        T::add_val(wsum::<T>(s.drop_last(), g), T::scale_val(s.last().coef, g(s.last().exps)))
    }
}

/// The weight that the rational list `c` gives to the exponent vector `f`
/// for the product vector `e`: the sum of the coefficients of the terms of
/// `c` whose exponent vector multiplied by `f` is `e`.
pub open spec fn weight(c: Seq<Term<real>>, e: Exps, f: Exps) -> real
    decreases c.len(),
{
    if c.len() == 0 {
        0 as real
    } else {
        weight(c.drop_last(), e, f) + if exps_mul(f, c.last().exps) == e {
            c.last().coef
        } else {
            0 as real
        }
    }
}

/// The weights that the list `c` gives for the product vector `e`.
pub open spec fn weights(c: Seq<Term<real>>, e: Exps) -> Weight {
    |f: Exps| weight(c, e, f)
}

/// `(x + t) + l == (x + l) + t`.
proof fn lemma_add_swap<T: Coef>(x: T::V, t: T::V, l: T::V)
    ensures
        T::add_val(T::add_val(x, t), l) == T::add_val(T::add_val(x, l), t),
{
    T::lemma_add_assoc(x, t, l);
    T::lemma_add_assoc(x, l, t);
    T::lemma_add_comm(t, l);
}

/// Adding a term to a proper list adds its weighted coefficient to the
/// weighted sum.
pub proof fn lemma_insert_wsum<T: Coef>(s: Seq<Term<T::V>>, t: Term<T::V>, g: Weight)
    ensures
        wsum::<T>(insert_spec::<T>(s, t), g) == T::add_val(
            wsum::<T>(s, g),
            T::scale_val(t.coef, g(t.exps)),
        ),
    decreases s.len(),
{
    let r = insert_spec::<T>(s, t);
    let w = g(t.exps);
    if t.coef == T::zero_val() {
        T::lemma_scale_zero(w);
        T::lemma_add_zero(wsum::<T>(s, g));
    } else if s.len() == 0 {
        assert(r.drop_last() == s);
    } else {
        let s0 = s.drop_last();
        let last = s.last();
        let x = wsum::<T>(s0, g);
        if grevlex(last.exps, t.exps) == Order::Greater {
            assert(r.drop_last() == s);
        } else if grevlex(last.exps, t.exps) == Order::Equal {
            lemma_grevlex_equal(last.exps, t.exps);
            let c = T::add_val(last.coef, t.coef);
            T::lemma_scale_add(last.coef, t.coef, w);
            T::lemma_add_assoc(x, T::scale_val(last.coef, w), T::scale_val(t.coef, w));
            if c == T::zero_val() {
                T::lemma_scale_zero(w);
                T::lemma_add_zero(x);
            } else {
                assert(r.drop_last() == s0);
            }
        } else {
            lemma_insert_wsum::<T>(s0, t, g);
            assert(r.drop_last() == insert_spec::<T>(s0, t));
            lemma_add_swap::<T>(
                x,
                T::scale_val(t.coef, w),
                T::scale_val(last.coef, g(last.exps)),
            );
        }
    }
}

/// Adding a list of terms adds weighted sums.
pub proof fn lemma_insert_all_wsum<T: Coef>(s: Seq<Term<T::V>>, l: Seq<Term<T::V>>, g: Weight)
    ensures
        wsum::<T>(insert_all::<T>(s, l), g) == T::add_val(wsum::<T>(s, g), wsum::<T>(l, g)),
    decreases l.len(),
{
    if l.len() == 0 {
        T::lemma_add_zero(wsum::<T>(s, g));
    } else {
        lemma_insert_all_wsum::<T>(s, l.drop_last(), g);
        lemma_insert_wsum::<T>(insert_all::<T>(s, l.drop_last()), l.last(), g);
        T::lemma_add_assoc(
            wsum::<T>(s, g),
            wsum::<T>(l.drop_last(), g),
            T::scale_val(l.last().coef, g(l.last().exps)),
        );
    }
}

/// The normal form of a list has the weighted sum of the list.
pub proof fn lemma_normal_wsum<T: Coef>(l: Seq<Term<T::V>>, g: Weight)
    ensures
        wsum::<T>(normal_form::<T>(l), g) == wsum::<T>(l, g),
{
    let e = Seq::<Term<T::V>>::empty();
    lemma_insert_all_wsum::<T>(e, l, g);
    T::lemma_add_zero(wsum::<T>(l, g));
    let r = insert_all::<T>(e, l);
    if r.len() == 0 {
        let z = seq![term_zero::<T>()];
        assert(z.drop_last() =~= e);
        T::lemma_scale_zero(g(z.last().exps));
        T::lemma_add_zero(T::zero_val());
        assert(wsum::<T>(z, g) == T::zero_val());
    }
}

/// The weighted sum of a concatenation is the sum of the weighted sums.
pub proof fn lemma_wsum_concat<T: Coef>(a: Seq<Term<T::V>>, b: Seq<Term<T::V>>, g: Weight)
    ensures
        wsum::<T>(a + b, g) == T::add_val(wsum::<T>(a, g), wsum::<T>(b, g)),
    decreases b.len(),
{
    if b.len() == 0 {
        assert(a + b == a);
        T::lemma_add_zero(wsum::<T>(a, g));
    } else {
        lemma_wsum_concat::<T>(a, b.drop_last(), g);
        assert((a + b).drop_last() == a + b.drop_last());
        assert((a + b).last() == b.last());
        T::lemma_add_assoc(
            wsum::<T>(a, g),
            wsum::<T>(b.drop_last(), g),
            T::scale_val(b.last().coef, g(b.last().exps)),
        );
    }
}

/// The coefficient function of a concatenation is the sum of the
/// coefficient functions.
pub proof fn lemma_coeff_concat<T: Coef>(a: Seq<Term<T::V>>, b: Seq<Term<T::V>>, e: Exps)
    ensures
        coeff::<T>(a + b, e) == T::add_val(coeff::<T>(a, e), coeff::<T>(b, e)),
    decreases b.len(),
{
    if b.len() == 0 {
        assert(a + b == a);
        T::lemma_add_zero(coeff::<T>(a, e));
    } else {
        lemma_coeff_concat::<T>(a, b.drop_last(), e);
        assert((a + b).drop_last() == a + b.drop_last());
        assert((a + b).last() == b.last());
        T::lemma_add_assoc(coeff::<T>(a, e), coeff::<T>(b.drop_last(), e), b.last().coef);
    }
}

/// Two lists with the same coefficient function have the same weighted
/// sums.
pub proof fn lemma_wsum_of_coeff<T: Coef>(s: Seq<Term<T::V>>, l: Seq<Term<T::V>>, g: Weight)
    requires
        terms_wf::<T>(s),
        terms_wf::<T>(l),
        forall|e: Exps| coeff::<T>(s, e) == coeff::<T>(l, e),
    ensures
        wsum::<T>(s, g) == wsum::<T>(l, g),
{
    lemma_normal_form::<T>(s);
    lemma_normal_form::<T>(l);
    let ns = normal_form::<T>(s);
    let nl = normal_form::<T>(l);
    assert forall|e: Exps| coeff::<T>(ns, e) == coeff::<T>(nl, e) by {
        assert(coeff::<T>(s, e) == coeff::<T>(l, e));
    }
    lemma_canonical_unique::<T>(ns, nl);
    lemma_normal_wsum::<T>(s, g);
    lemma_normal_wsum::<T>(l, g);
}

/// The coefficient that the products of one term with a rational list
/// give to an exponent vector is the coefficient of the term multiplied by
/// its weight.
pub proof fn lemma_row_coeff<T: Coef>(t: Term<T::V>, c: Seq<Term<real>>, e: Exps)
    ensures
        coeff::<T>(row::<T>(t, c), e) == T::scale_val(t.coef, weight(c, e, t.exps)),
    decreases c.len(),
{
    let r = row::<T>(t, c);
    if c.len() == 0 {
        T::lemma_scale_unit(t.coef);
    } else {
        let c0 = c.drop_last();
        let q = c.last();
        lemma_row_coeff::<T>(t, c0, e);
        assert(r.drop_last() =~= row::<T>(t, c0));
        assert(r.last() == term_mul::<T>(t, q));
        let w0 = weight(c0, e, t.exps);
        let sv = T::scale_val(t.coef, q.coef);
        let x = T::scale_val(t.coef, w0);
        T::lemma_scale_sum(t.coef, w0, q.coef);
        T::lemma_scale_sum(t.coef, w0, 0 as real);
        T::lemma_scale_unit(t.coef);
        T::lemma_add_zero(x);
        assert(w0 + (0 as real) == w0);
    }
}

/// The coefficient that the products of a list with a rational list give
/// to an exponent vector is the weighted sum of the list.
pub proof fn lemma_products_coeff<T: Coef>(a: Seq<Term<T::V>>, c: Seq<Term<real>>, e: Exps)
    ensures
        coeff::<T>(products::<T>(a, c), e) == wsum::<T>(a, weights(c, e)),
    decreases a.len(),
{
    if a.len() > 0 {
        lemma_products_coeff::<T>(a.drop_last(), c, e);
        lemma_coeff_concat::<T>(products::<T>(a.drop_last(), c), row::<T>(a.last(), c), e);
        lemma_row_coeff::<T>(a.last(), c, e);
    }
}

/// The products of well-formed terms that can be represented are well
/// formed.
pub proof fn lemma_products_wf<T: Coef>(a: Seq<Term<T::V>>, c: Seq<Term<real>>)
    requires
        terms_wf::<T>(a),
        terms_wf::<Rat>(c),
        products_ok::<T>(a, c),
    ensures
        terms_wf::<T>(products::<T>(a, c)),
    decreases a.len(),
{
    if a.len() > 0 {
        let a0 = a.drop_last();
        assert forall|i: int| 0 <= i < a0.len() implies term_wf::<T>(#[trigger] a0[i]) by {
            assert(a0[i] == a[i]);
        }
        assert forall|i: int, j: int| 0 <= i < a0.len() && 0 <= j < c.len() implies mul_ok::<T>(
            #[trigger] a0[i],
            #[trigger] c[j],
        ) by {
            assert(a0[i] == a[i]);
        }
        lemma_products_wf::<T>(a0, c);
        let p0 = products::<T>(a0, c);
        let r = row::<T>(a.last(), c);
        let p = products::<T>(a, c);
        assert forall|k: int| 0 <= k < p.len() implies term_wf::<T>(#[trigger] p[k]) by {
            if k < p0.len() {
                assert(p[k] == p0[k]);
            } else {
                let j = k - p0.len();
                assert(p[k] == r[j]);
                let t = a[a.len() - 1];
                assert(term_wf::<T>(t));
                assert(term_wf::<Rat>(c[j]));
                assert(mul_ok::<T>(t, c[j]));
                if T::scale_val(t.coef, c[j].coef) != T::zero_val() {
                    lemma_exps_mul(t.exps, c[j].exps);
                } else {
                    assert(degree(Seq::<(crate::ring::Var, usize)>::empty()) == 0);
                }
            }
        }
    }
}

/// The products of a concatenation are the products of its parts, one
/// after the other.
pub proof fn lemma_products_concat<T: Coef>(
    a: Seq<Term<T::V>>,
    b: Seq<Term<T::V>>,
    c: Seq<Term<real>>,
)
    ensures
        products::<T>(a + b, c) == products::<T>(a, c) + products::<T>(b, c),
    decreases b.len(),
{
    if b.len() == 0 {
        assert(a + b == a);
        assert(products::<T>(a, c) + Seq::<Term<T::V>>::empty() =~= products::<T>(a, c));
    } else {
        lemma_products_concat::<T>(a, b.drop_last(), c);
        assert((a + b).drop_last() == a + b.drop_last());
        assert((a + b).last() == b.last());
        assert((products::<T>(a, c) + products::<T>(b.drop_last(), c)) + row::<T>(b.last(), c)
            =~= products::<T>(a, c) + (products::<T>(b.drop_last(), c) + row::<T>(
            b.last(),
            c,
        )));
    }
}

/// Multiplication distributes over addition: where the sum `a + b`, the
/// three products and the sum of the two products can be represented,
/// `(a + b) c == a c + b c`.
pub proof fn lemma_mul_distributes<T: Coef>(
    a: Seq<Term<T::V>>,
    b: Seq<Term<T::V>>,
    c: Seq<Term<real>>,
)
    requires
        canonical::<T>(a),
        canonical::<T>(b),
        terms_wf::<Rat>(c),
        add_spec::<T>(a, b).is_some(),
        mul_spec::<T>(add_spec::<T>(a, b).unwrap(), c).is_some(),
        mul_spec::<T>(a, c).is_some(),
        mul_spec::<T>(b, c).is_some(),
        add_spec::<T>(mul_spec::<T>(a, c).unwrap(), mul_spec::<T>(b, c).unwrap()).is_some(),
    ensures
        mul_spec::<T>(add_spec::<T>(a, b).unwrap(), c) == add_spec::<T>(
            mul_spec::<T>(a, c).unwrap(),
            mul_spec::<T>(b, c).unwrap(),
        ),
{
    let s = add_spec::<T>(a, b).unwrap();
    let left = mul_spec::<T>(s, c).unwrap();
    let x = mul_spec::<T>(a, c).unwrap();
    let y = mul_spec::<T>(b, c).unwrap();
    let right = add_spec::<T>(x, y).unwrap();
    lemma_canonical_wf::<T>(a);
    lemma_canonical_wf::<T>(b);
    // the sum is canonical and has the sum of the coefficient functions
    lemma_strip_insert::<T>(a, b);
    lemma_canonical_wf::<T>(s);
    lemma_products_wf::<T>(s, c);
    lemma_products_wf::<T>(a, c);
    lemma_products_wf::<T>(b, c);
    lemma_normal_form::<T>(products::<T>(s, c));
    lemma_normal_form::<T>(products::<T>(a, c));
    lemma_normal_form::<T>(products::<T>(b, c));
    lemma_strip_insert::<T>(x, y);
    let ab = a + b;
    assert(terms_wf::<T>(ab)) by {
        assert forall|i: int| 0 <= i < ab.len() implies term_wf::<T>(#[trigger] ab[i]) by {
            if i < a.len() {
                assert(ab[i] == a[i]);
            } else {
                assert(ab[i] == b[i - a.len()]);
            }
        }
    }
    assert forall|e: Exps| coeff::<T>(s, e) == coeff::<T>(ab, e) by {
        lemma_coeff_concat::<T>(a, b, e);
    }
    assert forall|e: Exps| coeff::<T>(left, e) == coeff::<T>(right, e) by {
        let g = weights(c, e);
        lemma_products_coeff::<T>(s, c, e);
        lemma_products_coeff::<T>(a, c, e);
        lemma_products_coeff::<T>(b, c, e);
        lemma_wsum_of_coeff::<T>(s, ab, g);
        lemma_wsum_concat::<T>(a, b, g);
        assert(coeff::<T>(left, e) == coeff::<T>(products::<T>(s, c), e));
        assert(coeff::<T>(x, e) == coeff::<T>(products::<T>(a, c), e));
        assert(coeff::<T>(y, e) == coeff::<T>(products::<T>(b, c), e));
        assert(coeff::<T>(right, e) == T::add_val(coeff::<T>(x, e), coeff::<T>(y, e)));
    }
    lemma_canonical_unique::<T>(left, right);
}

/// The sum of two canonical lists is canonical and has the sum of their
/// coefficient functions.
pub proof fn lemma_strip_insert<T: Coef>(a: Seq<Term<T::V>>, b: Seq<Term<T::V>>)
    requires
        canonical::<T>(a),
        canonical::<T>(b),
    ensures
        canonical::<T>(finish::<T>(insert_all::<T>(strip::<T>(a), b))),
        forall|e: Exps| #[trigger]
            coeff::<T>(finish::<T>(insert_all::<T>(strip::<T>(a), b)), e) == T::add_val(
                coeff::<T>(a, e),
                coeff::<T>(b, e),
            ),
{
    lemma_canonical_wf::<T>(b);
    lemma_insert_all::<T>(strip::<T>(a), b);
    let r = insert_all::<T>(strip::<T>(a), b);
    assert forall|e: Exps| #[trigger]
        coeff::<T>(finish::<T>(r), e) == T::add_val(coeff::<T>(a, e), coeff::<T>(b, e)) by {
        lemma_finish_coeff::<T>(r, e);
        lemma_finish_coeff::<T>(a, e);
        assert(coeff::<T>(r, e) == T::add_val(coeff::<T>(strip::<T>(a), e), coeff::<T>(b, e)));
    }
}

/// The rational polynomial one.
pub open spec fn one_poly() -> Seq<Term<real>> {
    seq![term_one::<Rat>()]
}

/// The rational polynomial zero.
pub open spec fn zero_poly() -> Seq<Term<real>> {
    seq![term_zero::<Rat>()]
}

/// The products of a list of well-formed terms with the polynomial one are
/// the terms themselves.
pub proof fn lemma_products_one<T: Coef>(a: Seq<Term<T::V>>)
    requires
        terms_wf::<T>(a),
    ensures
        products::<T>(a, one_poly()) == a,
    decreases a.len(),
{
    let c = one_poly();
    if a.len() == 0 {
        assert(products::<T>(a, c) =~= a);
    } else {
        let a0 = a.drop_last();
        let t = a.last();
        assert forall|i: int| 0 <= i < a0.len() implies term_wf::<T>(#[trigger] a0[i]) by {
            assert(a0[i] == a[i]);
        }
        lemma_products_one::<T>(a0);
        assert(term_wf::<T>(a[a.len() - 1]));
        T::lemma_scale_unit(t.coef);
        let r = row::<T>(t, c);
        assert(r.len() == 1);
        assert(r[0] == term_mul::<T>(t, c[0]));
        assert(exps_mul(t.exps, Seq::empty()) == t.exps);
        if t.coef == T::zero_val() {
            assert(t.exps =~= Seq::empty());
        }
        assert(r[0] == t);
        assert(r =~= seq![t]);
        assert(a0 + seq![t] =~= a);
    }
}

/// One is the neutral element of multiplication: `p * 1 == p`.
pub proof fn lemma_mul_one<T: Coef>(v: Seq<Mon<T>>)
    requires
        mons_wf(v),
        canonical::<T>(views(v)),
    ensures
        mul_spec::<T>(views(v), one_poly()) == Some(views(v)),
{
    let p = views(v);
    let c = one_poly();
    lemma_canonical_wf::<T>(p);
    lemma_products_one::<T>(p);
    lemma_normalize_again::<T>(v);
    assert forall|i: int, j: int| 0 <= i < p.len() && 0 <= j < c.len() implies mul_ok::<T>(
        #[trigger] p[i],
        #[trigger] c[j],
    ) by {
        T::lemma_scale_unit(p[i].coef);
        assert(v[i].wf());
        v[i].coef.lemma_wf_fits();
        assert(p[i] == v[i]@);
        assert(degree(c[j].exps) == 0);
    }
}

/// One is the neutral element of the multiplication of polynomials from
/// the left too: `1 * p == p`.
pub proof fn lemma_one_mul(v: Seq<Mon<Rat>>)
    requires
        mons_wf(v),
        canonical::<Rat>(views(v)),
    ensures
        mul_spec::<Rat>(one_poly(), views(v)) == Some(views(v)),
{
    let p = views(v);
    let o = one_poly();
    lemma_canonical_wf::<Rat>(p);
    lemma_one_times(p);
    lemma_normalize_again::<Rat>(v);
    assert forall|i: int, j: int| 0 <= i < o.len() && 0 <= j < p.len() implies mul_ok::<Rat>(
        #[trigger] o[i],
        #[trigger] p[j],
    ) by {
        let c = p[j].coef;
        assert((1 as real) * c == c) by (nonlinear_arith);
        assert(v[j].wf());
        v[j].coef.lemma_wf_fits();
        assert(p[j] == v[j]@);
        assert(degree(o[i].exps) == 0);
        assert(term_wf::<Rat>(p[j]));
    }
}

/// A list of zero sentinels has the normal form zero, and all its partial
/// sums are zero.
pub proof fn lemma_zeros_normal<T: Coef>(l: Seq<Term<T::V>>)
    requires
        forall|i: int| 0 <= i < l.len() ==> #[trigger] l[i] == term_zero::<T>(),
    ensures
        insert_all::<T>(Seq::empty(), l) == Seq::<Term<T::V>>::empty(),
        normal_spec::<T>(l) == Some(seq![term_zero::<T>()]),
    decreases l.len(),
{
    lemma_zeros_coeff::<T>(l);
    if l.len() > 0 {
        let l0 = l.drop_last();
        assert forall|i: int| 0 <= i < l0.len() implies #[trigger] l0[i] == term_zero::<T>() by {
            assert(l0[i] == l[i]);
        }
        lemma_zeros_normal::<T>(l0);
        assert(l[l.len() - 1] == term_zero::<T>());
    }
    assert forall|k: int, e: Exps| 0 <= k <= l.len() implies T::val_fits(
        #[trigger] coeff::<T>(l.take(k), e),
    ) by {
        let p = l.take(k);
        assert forall|i: int| 0 <= i < p.len() implies #[trigger] p[i] == term_zero::<T>() by {
            assert(p[i] == l[i]);
        }
        lemma_zeros_coeff::<T>(p);
        T::lemma_zero_one();
    }
}

/// A list of zero sentinels has the coefficient function zero.
pub proof fn lemma_zeros_coeff<T: Coef>(l: Seq<Term<T::V>>)
    requires
        forall|i: int| 0 <= i < l.len() ==> #[trigger] l[i] == term_zero::<T>(),
    ensures
        forall|e: Exps| #[trigger] coeff::<T>(l, e) == T::zero_val(),
    decreases l.len(),
{
    if l.len() > 0 {
        let l0 = l.drop_last();
        assert forall|i: int| 0 <= i < l0.len() implies #[trigger] l0[i] == term_zero::<T>() by {
            assert(l0[i] == l[i]);
        }
        lemma_zeros_coeff::<T>(l0);
        assert(l[l.len() - 1] == term_zero::<T>());
        T::lemma_add_zero(T::zero_val());
        assert forall|e: Exps| #[trigger] coeff::<T>(l, e) == T::zero_val() by {
            assert(coeff::<T>(l0, e) == T::zero_val());
        }
    }
}

/// The products of a list with the polynomial zero are zero sentinels.
proof fn lemma_products_zero<T: Coef>(a: Seq<Term<T::V>>)
    ensures
        forall|i: int|
            0 <= i < products::<T>(a, zero_poly()).len() ==> #[trigger] products::<T>(
                a,
                zero_poly(),
            )[i] == term_zero::<T>(),
    decreases a.len(),
{
    let c = zero_poly();
    if a.len() > 0 {
        lemma_products_zero::<T>(a.drop_last());
        let p0 = products::<T>(a.drop_last(), c);
        let r = row::<T>(a.last(), c);
        let p = products::<T>(a, c);
        T::lemma_scale_unit(a.last().coef);
        assert forall|i: int| 0 <= i < p.len() implies #[trigger] p[i] == term_zero::<T>() by {
            if i < p0.len() {
                assert(p[i] == p0[i]);
            } else {
                assert(p[i] == r[i - p0.len()]);
                assert(r[i - p0.len()] == term_mul::<T>(a.last(), c[i - p0.len()]));
            }
        }
    }
}

/// A product with zero is zero: `p * 0 == 0`.
pub proof fn lemma_mul_zero<T: Coef>(a: Seq<Term<T::V>>)
    ensures
        mul_spec::<T>(a, zero_poly()) == Some(seq![term_zero::<T>()]),
{
    let c = zero_poly();
    lemma_products_zero::<T>(a);
    lemma_zeros_normal::<T>(products::<T>(a, c));
    assert forall|i: int, j: int| 0 <= i < a.len() && 0 <= j < c.len() implies mul_ok::<T>(
        #[trigger] a[i],
        #[trigger] c[j],
    ) by {
        T::lemma_scale_unit(a[i].coef);
        T::lemma_zero_one();
    }
}

/// A product of zero is zero: `0 * p == 0`.
pub proof fn lemma_zero_mul<T: Coef>(c: Seq<Term<real>>)
    ensures
        mul_spec::<T>(seq![term_zero::<T>()], c) == Some(seq![term_zero::<T>()]),
{
    let z = seq![term_zero::<T>()];
    assert(z.drop_last() =~= Seq::empty());
    assert(products::<T>(z.drop_last(), c) =~= Seq::empty());
    let r = row::<T>(term_zero::<T>(), c);
    let p = products::<T>(z, c);
    assert(p =~= r);
    assert forall|j: int| 0 <= j < p.len() implies #[trigger] p[j] == term_zero::<T>() by {
        T::lemma_scale_zero(c[j].coef);
        assert(r[j] == term_mul::<T>(term_zero::<T>(), c[j]));
    }
    lemma_zeros_normal::<T>(p);
    assert forall|i: int, j: int| 0 <= i < z.len() && 0 <= j < c.len() implies mul_ok::<T>(
        #[trigger] z[i],
        #[trigger] c[j],
    ) by {
        T::lemma_scale_zero(c[j].coef);
        T::lemma_zero_one();
    }
}

/// One for the exponent vector `e`, zero for every other.
pub open spec fn indicator(e: Exps) -> Weight {
    |z: Exps|
        if z == e {
            1 as real
        } else {
            0 as real
        }
}

/// The weight `g` of the product with the exponent vector `f`.
pub open spec fn shifted(g: Weight, f: Exps) -> Weight {
    |x: Exps| g(exps_mul(f, x))
}

/// The weight that gives to an exponent vector the sum of the rational
/// list `b`, weighted by `g` after multiplication with the vector.
pub open spec fn inner(b: Seq<Term<real>>, g: Weight) -> Weight {
    |f: Exps| wsum::<Rat>(b, shifted(g, f))
}

/// Two weights that agree on the exponent vectors of a list give it the
/// same weighted sum.
pub proof fn lemma_wsum_same<T: Coef>(s: Seq<Term<T::V>>, g: Weight, h: Weight)
    requires
        forall|i: int| 0 <= i < s.len() ==> g((#[trigger] s[i]).exps) == h(s[i].exps),
    ensures
        wsum::<T>(s, g) == wsum::<T>(s, h),
    decreases s.len(),
{
    if s.len() > 0 {
        let s0 = s.drop_last();
        assert forall|i: int| 0 <= i < s0.len() implies g((#[trigger] s0[i]).exps) == h(
            s0[i].exps,
        ) by {
            assert(s0[i] == s[i]);
        }
        lemma_wsum_same::<T>(s0, g, h);
        assert(g(s[s.len() - 1].exps) == h(s[s.len() - 1].exps));
    }
}

/// The weighted sum of the products of one term with a rational list is
/// the coefficient of the term multiplied by the weighted sum of the list,
/// with the weight shifted by the exponent vector of the term.
pub proof fn lemma_row_wsum<T: Coef>(t: Term<T::V>, b: Seq<Term<real>>, g: Weight)
    ensures
        wsum::<T>(row::<T>(t, b), g) == T::scale_val(
            t.coef,
            wsum::<Rat>(b, shifted(g, t.exps)),
        ),
    decreases b.len(),
{
    let r = row::<T>(t, b);
    let h = shifted(g, t.exps);
    if b.len() == 0 {
        T::lemma_scale_unit(t.coef);
    } else {
        let b0 = b.drop_last();
        let q = b.last();
        lemma_row_wsum::<T>(t, b0, g);
        assert(r.drop_last() =~= row::<T>(t, b0));
        assert(r.last() == term_mul::<T>(t, q));
        let w0 = wsum::<Rat>(b0, h);
        let gq = h(q.exps);
        assert(gq == g(exps_mul(t.exps, q.exps)));
        assert(wsum::<Rat>(b, h) == w0 + q.coef * gq);
        T::lemma_scale_sum(t.coef, w0, q.coef * gq);
        T::lemma_scale_scale(t.coef, q.coef, gq);
        if T::scale_val(t.coef, q.coef) == T::zero_val() {
            T::lemma_scale_zero(gq);
            T::lemma_scale_zero(g(Seq::empty()));
        }
    }
}

/// The weighted sum of the products of a list with a rational list is the
/// weighted sum of the list for the inner weight.
pub proof fn lemma_products_wsum<T: Coef>(a: Seq<Term<T::V>>, b: Seq<Term<real>>, g: Weight)
    ensures
        wsum::<T>(products::<T>(a, b), g) == wsum::<T>(a, inner(b, g)),
    decreases a.len(),
{
    if a.len() > 0 {
        lemma_products_wsum::<T>(a.drop_last(), b, g);
        lemma_wsum_concat::<T>(products::<T>(a.drop_last(), b), row::<T>(a.last(), b), g);
        lemma_row_wsum::<T>(a.last(), b, g);
    }
}

/// The weight that a list gives is its weighted sum for the shifted
/// indicator.
pub proof fn lemma_weight_wsum(c: Seq<Term<real>>, e: Exps, f: Exps)
    ensures
        weight(c, e, f) == wsum::<Rat>(c, shifted(indicator(e), f)),
    decreases c.len(),
{
    if c.len() > 0 {
        lemma_weight_wsum(c.drop_last(), e, f);
        let q = c.last().coef;
        assert(q * (1 as real) == q && q * (0 as real) == 0 as real) by (nonlinear_arith);
    }
}

/// No term of a canonical list has a larger total degree than the first.
pub proof fn lemma_degree_bound<T: Coef>(s: Seq<Term<T::V>>, i: int)
    requires
        canonical::<T>(s),
        0 <= i < s.len(),
    ensures
        degree(s[i].exps) <= crate::terms::leading_degree(s),
        exps_wf(s[i].exps),
{
    crate::terms::lemma_canonical_zero::<T>(s, i);
    if s != seq![term_zero::<T>()] {
        crate::terms::lemma_leading_degree::<T>(s, i);
    }
}

/// Multiplication is associative: where the four products can be
/// represented and the total degrees of the three factors together stay
/// within a machine word, `(a b) c == a (b c)`.
pub proof fn lemma_mul_assoc<T: Coef>(a: Seq<Term<T::V>>, b: Seq<Term<real>>, c: Seq<Term<real>>)
    requires
        canonical::<T>(a),
        canonical::<Rat>(b),
        canonical::<Rat>(c),
        crate::terms::leading_degree(a) + crate::terms::leading_degree(b)
            + crate::terms::leading_degree(c) <= usize::MAX,
        mul_spec::<T>(a, b).is_some(),
        mul_spec::<T>(mul_spec::<T>(a, b).unwrap(), c).is_some(),
        mul_spec::<Rat>(b, c).is_some(),
        mul_spec::<T>(a, mul_spec::<Rat>(b, c).unwrap()).is_some(),
    ensures
        mul_spec::<T>(mul_spec::<T>(a, b).unwrap(), c) == mul_spec::<T>(
            a,
            mul_spec::<Rat>(b, c).unwrap(),
        ),
{
    lemma_times_assoc::<T>(a, b, c);
}

/// Every term of the list has a well-formed exponent vector of total
/// degree at most `d`.
pub open spec fn degs_below<T: Coef>(s: Seq<Term<T::V>>, d: int) -> bool {
    forall|i: int| 0 <= i < s.len() ==> term_wf::<T>(#[trigger] s[i]) && degree(s[i].exps) <= d
}

/// Adding a term of total degree at most `d` to a list of terms of total
/// degree at most `d` gives such a list.
pub proof fn lemma_insert_degs<T: Coef>(s: Seq<Term<T::V>>, t: Term<T::V>, d: int)
    requires
        degs_below::<T>(s, d),
        term_wf::<T>(t),
        degree(t.exps) <= d,
    ensures
        degs_below::<T>(insert_spec::<T>(s, t), d),
    decreases s.len(),
{
    let r = insert_spec::<T>(s, t);
    if t.coef == T::zero_val() || s.len() == 0 {
    } else {
        let s0 = s.drop_last();
        let last = s.last();
        assert(s[s.len() - 1] == last);
        assert forall|i: int| 0 <= i < s0.len() implies term_wf::<T>(#[trigger] s0[i]) && degree(
            s0[i].exps,
        ) <= d by {
            assert(s0[i] == s[i]);
        }
        if grevlex(last.exps, t.exps) == Order::Greater {
            assert forall|i: int| 0 <= i < r.len() implies term_wf::<T>(#[trigger] r[i])
                && degree(r[i].exps) <= d by {
                if i < s.len() {
                    assert(r[i] == s[i]);
                }
            }
        } else if grevlex(last.exps, t.exps) == Order::Equal {
            lemma_grevlex_equal(last.exps, t.exps);
            assert forall|i: int| 0 <= i < r.len() implies term_wf::<T>(#[trigger] r[i])
                && degree(r[i].exps) <= d by {
                if i < s0.len() {
                    assert(r[i] == s[i]);
                }
            }
        } else {
            lemma_insert_degs::<T>(s0, t, d);
            let r0 = insert_spec::<T>(s0, t);
            assert(r == r0.push(last));
            assert forall|i: int| 0 <= i < r.len() implies term_wf::<T>(#[trigger] r[i])
                && degree(r[i].exps) <= d by {
                if i < r0.len() {
                    assert(r[i] == r0[i]);
                }
            }
        }
    }
}

/// The normal form of a list of terms of total degree at most `d` is a
/// canonical list of such terms.
pub proof fn lemma_normal_degs<T: Coef>(l: Seq<Term<T::V>>, d: int)
    requires
        degs_below::<T>(l, d),
        0 <= d,
    ensures
        degs_below::<T>(insert_all::<T>(Seq::empty(), l), d),
        degs_below::<T>(normal_form::<T>(l), d),
        canonical::<T>(normal_form::<T>(l)),
        crate::terms::leading_degree(normal_form::<T>(l)) <= d,
    decreases l.len(),
{
    lemma_normal_form::<T>(l);
    if l.len() > 0 {
        let l0 = l.drop_last();
        assert forall|i: int| 0 <= i < l0.len() implies term_wf::<T>(#[trigger] l0[i]) && degree(
            l0[i].exps,
        ) <= d by {
            assert(l0[i] == l[i]);
        }
        lemma_normal_degs::<T>(l0, d);
        assert(term_wf::<T>(l[l.len() - 1]));
        lemma_insert_degs::<T>(insert_all::<T>(Seq::empty(), l0), l.last(), d);
    }
    let r = insert_all::<T>(Seq::<Term<T::V>>::empty(), l);
    let n = normal_form::<T>(l);
    if r.len() == 0 {
        assert(n[0] == term_zero::<T>());
        assert(degree(n[0].exps) == 0);
    }
}

/// The products of terms of total degrees at most `da` and `db` are terms
/// of total degree at most `da + db`, where a machine word holds that.
pub proof fn lemma_products_degs<T: Coef>(a: Seq<Term<T::V>>, b: Seq<Term<real>>, da: int, db: int)
    requires
        degs_below::<T>(a, da),
        degs_below::<Rat>(b, db),
        0 <= da,
        0 <= db,
        da + db <= usize::MAX,
    ensures
        degs_below::<T>(products::<T>(a, b), da + db),
    decreases a.len(),
{
    if a.len() > 0 {
        let a0 = a.drop_last();
        assert forall|i: int| 0 <= i < a0.len() implies term_wf::<T>(#[trigger] a0[i]) && degree(
            a0[i].exps,
        ) <= da by {
            assert(a0[i] == a[i]);
        }
        lemma_products_degs::<T>(a0, b, da, db);
        let p0 = products::<T>(a0, b);
        let r = row::<T>(a.last(), b);
        let p = products::<T>(a, b);
        let t = a[a.len() - 1];
        assert forall|k: int| 0 <= k < p.len() implies term_wf::<T>(#[trigger] p[k]) && degree(
            p[k].exps,
        ) <= da + db by {
            if k < p0.len() {
                assert(p[k] == p0[k]);
            } else {
                let j = k - p0.len();
                assert(p[k] == r[j]);
                assert(term_wf::<T>(t) && degree(t.exps) <= da);
                assert(term_wf::<Rat>(b[j]) && degree(b[j].exps) <= db);
                crate::exps::lemma_degree_nonneg(t.exps);
                crate::exps::lemma_degree_nonneg(b[j].exps);
                if T::scale_val(t.coef, b[j].coef) != T::zero_val() {
                    lemma_exps_mul(t.exps, b[j].exps);
                } else {
                    assert(degree(Seq::<(crate::ring::Var, usize)>::empty()) == 0);
                }
            }
        }
    }
}

/// The terms of a canonical list have total degrees at most that of the
/// first.
pub proof fn lemma_canonical_degs<T: Coef>(s: Seq<Term<T::V>>)
    requires
        canonical::<T>(s),
    ensures
        degs_below::<T>(s, crate::terms::leading_degree(s)),
        0 <= crate::terms::leading_degree(s),
{
    assert forall|i: int| 0 <= i < s.len() implies term_wf::<T>(#[trigger] s[i]) && degree(
        s[i].exps,
    ) <= crate::terms::leading_degree(s) by {
        lemma_degree_bound::<T>(s, i);
        crate::terms::lemma_canonical_zero::<T>(s, i);
    }
    crate::exps::lemma_degree_nonneg(s[0].exps);
}

/// The product of two lists, as a canonical list, whether or not its
/// coefficients can be represented.
pub open spec fn times<T: Coef>(a: Seq<Term<T::V>>, b: Seq<Term<real>>) -> Seq<Term<T::V>> {
    normal_form::<T>(products::<T>(a, b))
}

/// The power of a polynomial by repeated multiplication.
pub open spec fn power(p: Seq<Term<real>>, n: nat) -> Seq<Term<real>>
    decreases n,
{
    if n == 0 {
        one_poly()
    } else {
        times::<Rat>(power(p, (n - 1) as nat), p)
    }
}

/// The product of canonical lists is canonical, and its total degree is
/// at most the sum of the total degrees of the factors.
pub proof fn lemma_times<T: Coef>(a: Seq<Term<T::V>>, b: Seq<Term<real>>)
    requires
        canonical::<T>(a),
        canonical::<Rat>(b),
        crate::terms::leading_degree(a) + crate::terms::leading_degree(b) <= usize::MAX,
    ensures
        canonical::<T>(times::<T>(a, b)),
        crate::terms::leading_degree(times::<T>(a, b)) <= crate::terms::leading_degree(a)
            + crate::terms::leading_degree(b),
        terms_wf::<T>(products::<T>(a, b)),
        forall|e: Exps| #[trigger]
            coeff::<T>(times::<T>(a, b), e) == coeff::<T>(products::<T>(a, b), e),
{
    lemma_canonical_degs::<T>(a);
    lemma_canonical_degs::<Rat>(b);
    let da = crate::terms::leading_degree(a);
    let db = crate::terms::leading_degree(b);
    lemma_products_degs::<T>(a, b, da, db);
    lemma_normal_degs::<T>(products::<T>(a, b), da + db);
    lemma_normal_form::<T>(products::<T>(a, b));
}

/// A product that can be represented is the product.
pub proof fn lemma_mul_is_times<T: Coef>(a: Seq<Term<T::V>>, b: Seq<Term<real>>)
    requires
        mul_spec::<T>(a, b).is_some(),
    ensures
        mul_spec::<T>(a, b) == Some(times::<T>(a, b)),
{
}

/// The product of canonical lists is associative, where the total degrees
/// of the three factors together stay within a machine word.
pub proof fn lemma_times_assoc<T: Coef>(a: Seq<Term<T::V>>, b: Seq<Term<real>>, c: Seq<Term<real>>)
    requires
        canonical::<T>(a),
        canonical::<Rat>(b),
        canonical::<Rat>(c),
        crate::terms::leading_degree(a) + crate::terms::leading_degree(b)
            + crate::terms::leading_degree(c) <= usize::MAX,
    ensures
        times::<T>(times::<T>(a, b), c) == times::<T>(a, times::<Rat>(b, c)),
{
    lemma_canonical_degs::<T>(a);
    lemma_canonical_degs::<Rat>(b);
    lemma_canonical_degs::<Rat>(c);
    lemma_times::<T>(a, b);
    lemma_times::<Rat>(b, c);
    let ab = times::<T>(a, b);
    let bc = times::<Rat>(b, c);
    lemma_times::<T>(ab, c);
    lemma_times::<T>(a, bc);
    let left = times::<T>(ab, c);
    let right = times::<T>(a, bc);
    assert forall|e: Exps| coeff::<T>(left, e) == coeff::<T>(right, e) by {
        let we = crate::laws::weights(c, e);
        let ind = indicator(e);
        lemma_products_coeff::<T>(ab, c, e);
        lemma_normal_wsum::<T>(products::<T>(a, b), we);
        lemma_products_wsum::<T>(a, b, we);
        let gl = inner(b, we);
        assert(coeff::<T>(left, e) == wsum::<T>(a, gl));
        lemma_products_coeff::<T>(a, bc, e);
        let gr = crate::laws::weights(bc, e);
        assert(coeff::<T>(right, e) == wsum::<T>(a, gr));
        assert forall|i: int| 0 <= i < a.len() implies gl((#[trigger] a[i]).exps) == gr(
            a[i].exps,
        ) by {
            let f = a[i].exps;
            lemma_degree_bound::<T>(a, i);
            lemma_weight_wsum(bc, e, f);
            lemma_normal_wsum::<Rat>(products::<Rat>(b, c), shifted(ind, f));
            lemma_products_wsum::<Rat>(b, c, shifted(ind, f));
            let hl = shifted(we, f);
            let hr = inner(c, shifted(ind, f));
            assert(gr(f) == wsum::<Rat>(b, hr));
            assert(gl(f) == wsum::<Rat>(b, hl));
            assert forall|j: int| 0 <= j < b.len() implies hl((#[trigger] b[j]).exps) == hr(
                b[j].exps,
            ) by {
                let x = b[j].exps;
                lemma_degree_bound::<Rat>(b, j);
                lemma_weight_wsum(c, e, exps_mul(f, x));
                let kl = shifted(ind, exps_mul(f, x));
                let kr = shifted(shifted(ind, f), x);
                assert(hl(x) == wsum::<Rat>(c, kl));
                assert(hr(x) == wsum::<Rat>(c, kr));
                assert forall|k: int| 0 <= k < c.len() implies kl((#[trigger] c[k]).exps) == kr(
                    c[k].exps,
                ) by {
                    let y = c[k].exps;
                    lemma_degree_bound::<Rat>(c, k);
                    crate::exps::lemma_exps_mul_assoc(f, x, y);
                }
                lemma_wsum_same::<Rat>(c, kl, kr);
            }
            lemma_wsum_same::<Rat>(b, hl, hr);
        }
        lemma_wsum_same::<T>(a, gl, gr);
    }
    lemma_canonical_unique::<T>(left, right);
}

/// The product of a canonical list with the polynomial one is the list.
pub proof fn lemma_times_one<T: Coef>(a: Seq<Term<T::V>>)
    requires
        canonical::<T>(a),
    ensures
        times::<T>(a, one_poly()) == a,
{
    lemma_canonical_wf::<T>(a);
    lemma_products_one::<T>(a);
    lemma_normal_canonical::<T>(a);
}

/// The product of the polynomial one with a canonical polynomial is the
/// polynomial.
pub proof fn lemma_one_times(p: Seq<Term<real>>)
    requires
        canonical::<Rat>(p),
    ensures
        products::<Rat>(one_poly(), p) == p,
        times::<Rat>(one_poly(), p) == p,
{
    let o = one_poly();
    let one = term_one::<Rat>();
    lemma_canonical_wf::<Rat>(p);
    assert(o.drop_last() =~= Seq::empty());
    assert(products::<Rat>(o.drop_last(), p) =~= Seq::empty());
    let r = row::<Rat>(one, p);
    assert(products::<Rat>(o, p) =~= r);
    assert forall|j: int| 0 <= j < p.len() implies #[trigger] r[j] == p[j] by {
        let t = p[j];
        assert(term_wf::<Rat>(t));
        let c = t.coef;
        assert((1 as real) * c == c) by (nonlinear_arith);
        assert(r[j] == term_mul::<Rat>(one, t));
        if c == 0 as real {
            assert(t.exps =~= Seq::empty());
        } else {
            assert(exps_mul(Seq::empty(), t.exps) == t.exps);
        }
    }
    assert(r =~= p);
    lemma_normal_canonical::<Rat>(p);
}

/// A power of a canonical polynomial is canonical, and its total degree is
/// at most the exponent times the total degree of the polynomial.
pub proof fn lemma_power(p: Seq<Term<real>>, n: nat)
    requires
        canonical::<Rat>(p),
        n * crate::terms::leading_degree(p) <= usize::MAX,
    ensures
        canonical::<Rat>(power(p, n)),
        crate::terms::leading_degree(power(p, n)) <= n * crate::terms::leading_degree(p),
    decreases n,
{
    let d = crate::terms::leading_degree(p);
    lemma_canonical_degs::<Rat>(p);
    if n == 0 {
        let o = one_poly();
        assert(o[0] == term_one::<Rat>());
        assert(degree(o[0].exps) == 0);
        assert(0 * d == 0) by (nonlinear_arith);
    } else {
        assert((n - 1) * d + d == n * d) by (nonlinear_arith);
        assert((n - 1) * d >= 0) by (nonlinear_arith)
            requires
                n >= 1,
                d >= 0,
        ;
        lemma_power(p, (n - 1) as nat);
        lemma_times::<Rat>(power(p, (n - 1) as nat), p);
    }
}

/// Powers multiply by adding their exponents.
pub proof fn lemma_power_add(p: Seq<Term<real>>, m: nat, k: nat)
    requires
        canonical::<Rat>(p),
        (m + k) * crate::terms::leading_degree(p) <= usize::MAX,
    ensures
        times::<Rat>(power(p, m), power(p, k)) == power(p, m + k),
    decreases k,
{
    let d = crate::terms::leading_degree(p);
    lemma_canonical_degs::<Rat>(p);
    assert(m * d <= (m + k) * d && k * d <= (m + k) * d && m * d + k * d == (m + k) * d)
        by (nonlinear_arith)
        requires
            d >= 0,
    ;
    lemma_power(p, m);
    if k == 0 {
        lemma_times_one::<Rat>(power(p, m));
    } else {
        let k1 = (k - 1) as nat;
        assert((m + k1) * d + d == (m + k) * d && k1 * d + d == k * d && k1 * d >= 0)
            by (nonlinear_arith)
            requires
                k1 == k - 1,
                d >= 0,
                k >= 1,
        ;
        lemma_power(p, k1);
        lemma_power_add(p, m, k1);
        lemma_times_assoc::<Rat>(power(p, m), power(p, k1), p);
        assert(power(p, (m + k) as nat) == times::<Rat>(power(p, (m + k1) as nat), p));
    }
}

/// The square-and-multiply loop, started with two powers of a polynomial,
/// gives the power for the sum of the exponents that it stands for.
pub proof fn lemma_pow_loop_power(p: Seq<Term<real>>, r: nat, k: nat, e: nat)
    requires
        canonical::<Rat>(p),
        (r + k * e) * crate::terms::leading_degree(p) <= usize::MAX,
        crate::poly::pow_loop(power(p, r), power(p, k), e).is_some(),
    ensures
        crate::poly::pow_loop(power(p, r), power(p, k), e) == Some(power(p, r + k * e)),
    decreases e,
{
    let d = crate::terms::leading_degree(p);
    lemma_canonical_degs::<Rat>(p);
    let res = power(p, r);
    let base = power(p, k);
    if e == 0 {
        assert(k * e == 0) by (nonlinear_arith)
            requires
                e == 0,
        ;
    } else {
        let h = e / 2;
        let odd = e % 2 == 1;
        let step: nat = if odd {
            k
        } else {
            0
        };
        assert(k * e == step + (2 * k) * h) by (nonlinear_arith)
            requires
                e == 2 * h + (if odd {
                    1int
                } else {
                    0int
                }),
                step == (if odd {
                    k as int
                } else {
                    0int
                }),
        ;
        assert((r + step) * d <= (r + k * e) * d) by (nonlinear_arith)
            requires
                d >= 0,
                k * e == step + (2 * k) * h,
                h >= 0,
                k >= 0,
        ;
        let r2 = (r + step) as nat;
        if odd {
            lemma_power_add(p, r, k);
            lemma_mul_is_times::<Rat>(res, base);
        }
        let next = if odd {
            times::<Rat>(res, base)
        } else {
            res
        };
        assert(next == power(p, r2));
        if h != 0 {
            assert((k + k) * d <= (r + k * e) * d) by (nonlinear_arith)
                requires
                    d >= 0,
                    k * e == step + (2 * k) * h,
                    h >= 1,
                    step >= 0,
                    r >= 0,
                    k >= 0,
            ;
            lemma_power_add(p, k, k);
            lemma_mul_is_times::<Rat>(base, base);
            let k2 = (k + k) as nat;
            assert(r2 + k2 * h == r + k * e) by (nonlinear_arith)
                requires
                    k * e == step + (2 * k) * h,
                    r2 == r + step,
                    k2 == k + k,
            ;
            lemma_pow_loop_power(p, r2, k2, h);
        } else {
            assert(r2 == r + k * e) by (nonlinear_arith)
                requires
                    k * e == step + (2 * k) * h,
                    h == 0,
                    r2 == r + step,
            ;
        }
    }
}

/// Binary exponentiation gives the power by repeated multiplication: where
/// the exponent times the total degree of the polynomial stays within a
/// machine word, the power that can be represented is the product of as
/// many factors as the exponent says.
pub proof fn lemma_pow_is_power(p: Seq<Term<real>>, n: nat)
    requires
        canonical::<Rat>(p),
        n * crate::terms::leading_degree(p) <= usize::MAX,
        crate::poly::pow_spec(p, n).is_some(),
    ensures
        crate::poly::pow_spec(p, n) == Some(power(p, n)),
{
    lemma_one_times(p);
    assert(power(p, 0) == one_poly());
    assert(power(p, 1) == times::<Rat>(power(p, 0), p));
    assert(power(p, 1) == p);
    assert(1 * n == n) by (nonlinear_arith);
    assert(0 + 1 * n == n);
    lemma_pow_loop_power(p, 0, 1, n);
}

/// The weighted sums for two weights add up to the weighted sum for the
/// sum of the weights.
pub proof fn lemma_wsum_weights<T: Coef>(s: Seq<Term<T::V>>, g: Weight, h: Weight, gh: Weight)
    requires
        forall|i: int|
            0 <= i < s.len() ==> gh((#[trigger] s[i]).exps) == g(s[i].exps) + h(s[i].exps),
    ensures
        wsum::<T>(s, gh) == T::add_val(wsum::<T>(s, g), wsum::<T>(s, h)),
    decreases s.len(),
{
    if s.len() == 0 {
        T::lemma_add_zero(T::zero_val());
    } else {
        let s0 = s.drop_last();
        let t = s.last();
        assert forall|i: int| 0 <= i < s0.len() implies gh((#[trigger] s0[i]).exps) == g(
            s0[i].exps,
        ) + h(s0[i].exps) by {
            assert(s0[i] == s[i]);
        }
        lemma_wsum_weights::<T>(s0, g, h, gh);
        assert(gh(s[s.len() - 1].exps) == g(s[s.len() - 1].exps) + h(s[s.len() - 1].exps));
        let a = wsum::<T>(s0, g);
        let b = wsum::<T>(s0, h);
        let x = T::scale_val(t.coef, g(t.exps));
        let y = T::scale_val(t.coef, h(t.exps));
        T::lemma_scale_sum(t.coef, g(t.exps), h(t.exps));
        // (a + b) + (x + y) == (a + x) + (b + y)
        T::lemma_add_assoc(T::add_val(a, b), x, y);
        T::lemma_add_assoc(a, b, x);
        T::lemma_add_comm(b, x);
        T::lemma_add_assoc(a, x, b);
        T::lemma_add_assoc(T::add_val(a, x), b, y);
    }
}

/// A weight for every pair of exponent vectors.
pub type BiWeight = spec_fn(Exps, Exps) -> real;

/// The weight `g` with the first vector held fixed.
pub open spec fn at_left(g: BiWeight, f: Exps) -> Weight {
    |x: Exps| g(f, x)
}

/// The weight `g` with the second vector held fixed.
pub open spec fn at_right(g: BiWeight, x: Exps) -> Weight {
    |f: Exps| g(f, x)
}

/// For each first vector the weighted sum of the list `b`.
pub open spec fn row_sums(b: Seq<Term<real>>, g: BiWeight) -> Weight {
    |f: Exps| wsum::<Rat>(b, at_left(g, f))
}

/// For each second vector the weighted sum of the list `a`.
pub open spec fn col_sums(a: Seq<Term<real>>, g: BiWeight) -> Weight {
    |x: Exps| wsum::<Rat>(a, at_right(g, x))
}

/// A factor common to all weights can be taken out of a weighted sum.
pub proof fn lemma_wsum_factor(b: Seq<Term<real>>, h: Weight, hc: Weight, c: real)
    requires
        forall|i: int| 0 <= i < b.len() ==> hc((#[trigger] b[i]).exps) == c * h(b[i].exps),
    ensures
        wsum::<Rat>(b, hc) == c * wsum::<Rat>(b, h),
    decreases b.len(),
{
    if b.len() == 0 {
        assert(c * (0 as real) == 0 as real) by (nonlinear_arith);
    } else {
        let b0 = b.drop_last();
        assert forall|i: int| 0 <= i < b0.len() implies hc((#[trigger] b0[i]).exps) == c * h(
            b0[i].exps,
        ) by {
            assert(b0[i] == b[i]);
        }
        lemma_wsum_factor(b0, h, hc, c);
        let q = b.last();
        assert(hc(b[b.len() - 1].exps) == c * h(b[b.len() - 1].exps));
        let w = wsum::<Rat>(b0, h);
        let y = h(q.exps);
        let z = q.coef;
        assert(c * w + z * (c * y) == c * (w + z * y)) by (nonlinear_arith);
    }
}

/// The order of a double sum over two lists can be exchanged.
pub proof fn lemma_sum_swap(a: Seq<Term<real>>, b: Seq<Term<real>>, g: BiWeight)
    ensures
        wsum::<Rat>(a, row_sums(b, g)) == wsum::<Rat>(b, col_sums(a, g)),
    decreases a.len(),
{
    let zero: Weight = |x: Exps| 0 as real;
    if a.len() == 0 {
        lemma_wsum_factor(b, zero, col_sums(a, g), 0 as real);
        assert((0 as real) * wsum::<Rat>(b, zero) == 0 as real) by (nonlinear_arith);
    } else {
        let a0 = a.drop_last();
        let t = a.last();
        lemma_sum_swap(a0, b, g);
        let h0 = col_sums(a0, g);
        let h = at_left(g, t.exps);
        let h1: Weight = |x: Exps| t.coef * g(t.exps, x);
        let hh = col_sums(a, g);
        assert forall|i: int| 0 <= i < b.len() implies hh((#[trigger] b[i]).exps) == h0(
            b[i].exps,
        ) + h1(b[i].exps) by {
            let x = b[i].exps;
            assert(at_right(g, x)(t.exps) == g(t.exps, x));
        }
        lemma_wsum_weights::<Rat>(b, h0, h1, hh);
        assert forall|i: int| 0 <= i < b.len() implies h1((#[trigger] b[i]).exps) == t.coef * h(
            b[i].exps,
        ) by {}
        lemma_wsum_factor(b, h, h1, t.coef);
        assert(row_sums(b, g)(t.exps) == wsum::<Rat>(b, h));
    }
}

/// The multiplication of polynomials is commutative, where the total
/// degrees of the two factors together stay within a machine word.
pub proof fn lemma_times_comm(a: Seq<Term<real>>, b: Seq<Term<real>>)
    requires
        canonical::<Rat>(a),
        canonical::<Rat>(b),
        crate::terms::leading_degree(a) + crate::terms::leading_degree(b) <= usize::MAX,
    ensures
        times::<Rat>(a, b) == times::<Rat>(b, a),
{
    lemma_times::<Rat>(a, b);
    lemma_times::<Rat>(b, a);
    let left = times::<Rat>(a, b);
    let right = times::<Rat>(b, a);
    assert forall|e: Exps| coeff::<Rat>(left, e) == coeff::<Rat>(right, e) by {
        let ind = indicator(e);
        let g: BiWeight = |f: Exps, x: Exps| ind(exps_mul(f, x));
        lemma_products_coeff::<Rat>(a, b, e);
        lemma_products_coeff::<Rat>(b, a, e);
        let wl = weights(b, e);
        let wr = weights(a, e);
        // the left side as a double sum
        assert forall|i: int| 0 <= i < a.len() implies wl((#[trigger] a[i]).exps) == row_sums(
            b,
            g,
        )(a[i].exps) by {
            let f = a[i].exps;
            lemma_weight_wsum(b, e, f);
            assert forall|j: int| 0 <= j < b.len() implies shifted(ind, f)(
                (#[trigger] b[j]).exps,
            ) == at_left(g, f)(b[j].exps) by {}
            lemma_wsum_same::<Rat>(b, shifted(ind, f), at_left(g, f));
        }
        lemma_wsum_same::<Rat>(a, wl, row_sums(b, g));
        lemma_sum_swap(a, b, g);
        // the right side
        assert forall|j: int| 0 <= j < b.len() implies wr((#[trigger] b[j]).exps) == col_sums(
            a,
            g,
        )(b[j].exps) by {
            let x = b[j].exps;
            lemma_degree_bound::<Rat>(b, j);
            lemma_weight_wsum(a, e, x);
            assert forall|i: int| 0 <= i < a.len() implies shifted(ind, x)(
                (#[trigger] a[i]).exps,
            ) == at_right(g, x)(a[i].exps) by {
                lemma_degree_bound::<Rat>(a, i);
                crate::exps::lemma_exps_mul_comm(x, a[i].exps);
            }
            lemma_wsum_same::<Rat>(a, shifted(ind, x), at_right(g, x));
        }
        lemma_wsum_same::<Rat>(b, wr, col_sums(a, g));
    }
    lemma_canonical_unique::<Rat>(left, right);
}

/// Addition is commutative: `a + b == b + a`.
pub proof fn lemma_add_comm<T: Coef>(a: Seq<Term<T::V>>, b: Seq<Term<T::V>>)
    requires
        canonical::<T>(a),
        canonical::<T>(b),
    ensures
        add_spec::<T>(a, b) == add_spec::<T>(b, a),
{
    assert forall|e: Exps|
        T::add_val(#[trigger] coeff::<T>(a, e), coeff::<T>(b, e)) == T::add_val(
            #[trigger] coeff::<T>(b, e),
            coeff::<T>(a, e),
        ) by {
        T::lemma_add_comm(coeff::<T>(a, e), coeff::<T>(b, e));
    }
    lemma_strip_insert::<T>(a, b);
    lemma_strip_insert::<T>(b, a);
    let l = finish::<T>(insert_all::<T>(strip::<T>(a), b));
    let r = finish::<T>(insert_all::<T>(strip::<T>(b), a));
    assert forall|e: Exps| coeff::<T>(l, e) == coeff::<T>(r, e) by {
        T::lemma_add_comm(coeff::<T>(a, e), coeff::<T>(b, e));
    }
    lemma_canonical_unique::<T>(l, r);
    if add_spec::<T>(a, b).is_some() {
        assert forall|e: Exps|
            T::val_fits(T::add_val(#[trigger] coeff::<T>(b, e), coeff::<T>(a, e))) by {
            T::lemma_add_comm(coeff::<T>(a, e), coeff::<T>(b, e));
            assert(T::val_fits(T::add_val(coeff::<T>(a, e), coeff::<T>(b, e))));
        }
    }
    if add_spec::<T>(b, a).is_some() {
        assert forall|e: Exps|
            T::val_fits(T::add_val(#[trigger] coeff::<T>(a, e), coeff::<T>(b, e))) by {
            T::lemma_add_comm(coeff::<T>(a, e), coeff::<T>(b, e));
            assert(T::val_fits(T::add_val(coeff::<T>(b, e), coeff::<T>(a, e))));
        }
    }
}

/// Addition is associative: where the four sums can be represented,
/// `(a + b) + c == a + (b + c)`.
pub proof fn lemma_add_assoc<T: Coef>(a: Seq<Term<T::V>>, b: Seq<Term<T::V>>, c: Seq<Term<T::V>>)
    requires
        canonical::<T>(a),
        canonical::<T>(b),
        canonical::<T>(c),
        add_spec::<T>(a, b).is_some(),
        add_spec::<T>(add_spec::<T>(a, b).unwrap(), c).is_some(),
        add_spec::<T>(b, c).is_some(),
        add_spec::<T>(a, add_spec::<T>(b, c).unwrap()).is_some(),
    ensures
        add_spec::<T>(add_spec::<T>(a, b).unwrap(), c) == add_spec::<T>(
            a,
            add_spec::<T>(b, c).unwrap(),
        ),
{
    let ab = add_spec::<T>(a, b).unwrap();
    let bc = add_spec::<T>(b, c).unwrap();
    lemma_strip_insert::<T>(a, b);
    lemma_strip_insert::<T>(b, c);
    lemma_strip_insert::<T>(ab, c);
    lemma_strip_insert::<T>(a, bc);
    let l = add_spec::<T>(ab, c).unwrap();
    let r = add_spec::<T>(a, bc).unwrap();
    assert forall|e: Exps| coeff::<T>(l, e) == coeff::<T>(r, e) by {
        T::lemma_add_assoc(coeff::<T>(a, e), coeff::<T>(b, e), coeff::<T>(c, e));
        assert(coeff::<T>(ab, e) == T::add_val(coeff::<T>(a, e), coeff::<T>(b, e)));
        assert(coeff::<T>(bc, e) == T::add_val(coeff::<T>(b, e), coeff::<T>(c, e)));
    }
    lemma_canonical_unique::<T>(l, r);
}

/// The sum of a polynomial or template and its inverse is zero, where the
/// inverse can be represented.
pub proof fn lemma_add_inverse<T: Coef>(a: Seq<Term<T::V>>)
    requires
        canonical::<T>(a),
        crate::terms::neg_spec::<T>(a).is_some(),
    ensures
        add_spec::<T>(a, crate::terms::neg_spec::<T>(a).unwrap()) == Some(
            seq![term_zero::<T>()],
        ),
{
    let m = -(1 as real);
    let n = crate::terms::neg_spec::<T>(a).unwrap();
    let z = seq![term_zero::<T>()];
    crate::terms::lemma_scaled_canonical::<T>(a, m);
    lemma_strip_insert::<T>(a, n);
    let s = finish::<T>(insert_all::<T>(strip::<T>(a), n));
    assert forall|e: Exps|
        T::add_val(#[trigger] coeff::<T>(a, e), coeff::<T>(n, e)) == T::zero_val() by {
        crate::terms::lemma_scaled_coeff::<T>(a, m, e);
        T::lemma_add_neg(coeff::<T>(a, e));
    }
    assert forall|e: Exps| coeff::<T>(s, e) == coeff::<T>(z, e) by {
        lemma_finish_coeff::<T>(z, e);
        assert(coeff::<T>(s, e) == T::add_val(coeff::<T>(a, e), coeff::<T>(n, e)));
    }
    lemma_canonical_unique::<T>(s, z);
    assert forall|e: Exps|
        T::val_fits(T::add_val(#[trigger] coeff::<T>(a, e), coeff::<T>(n, e))) by {
        T::lemma_zero_one();
    }
}

} // verus!
