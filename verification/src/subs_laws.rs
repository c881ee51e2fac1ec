//! The law of substitution: to substitute into a sum is to sum the
//! substitutions.
//!
//! What a substitution gives is a weighted sum of the template: each term
//! contributes its coefficient, multiplied by a weight that depends only on
//! its exponent vector. A weighted sum depends on the coefficient function
//! of the list alone, and so it is additive.
use crate::coef::Coef;
use crate::exps::{exp_at, exps_set, lemma_exps_remove, Exps};
use crate::laws::{
    lemma_canonical_unique, lemma_canonical_wf, lemma_coeff_concat, lemma_products_coeff,
    lemma_products_wf, lemma_strip_insert, lemma_wsum_concat, lemma_wsum_of_coeff,
    lemma_wsum_same, lemma_wsum_weights, weight, wsum, Weight,
};
use crate::linexp::{LinExp, LinVal};
use crate::mon::{term_one, term_wf, term_zero, Term};
use crate::poly::{pow_loop, pow_spec, PolyView};
use crate::rat::Rat;
use crate::ring::Var;
use crate::temp::{next_exp, strip_var, subs_from, subs_level, subs_spec, TempView};
use crate::terms::{
    add_spec, canonical, coeff, lemma_normal_form, mul_spec, products, terms_wf,
};
use vstd::prelude::*;

verus! {

/// The weight of the exponent vector `f` in the substitution of `p` for
/// `v`, for the exponent vector `e` of the result: the coefficient that
/// the power of `p` for the exponent of `v` in `f`, multiplied by `f`
/// without `v`, gives to `e`.
pub open spec fn subs_weight(v: Var, p: PolyView, e: Exps, f: Exps) -> real {
    match pow_spec(p, exp_at(f, v) as nat) {
        Some(c) => weight(c, e, exps_set(f, v, 0)),
        None => 0 as real,
    }
}

/// The weights of a substitution, for the exponent vectors in which `v`
/// has an exponent from `lo` up to, not including, `hi`.
pub open spec fn subs_weights(v: Var, p: PolyView, e: Exps, lo: int, hi: int) -> Weight {
    |f: Exps|
        if lo <= exp_at(f, v) < hi {
            subs_weight(v, p, e, f)
        } else {
            0 as real
        }
}

/// The bound above every exponent.
pub open spec fn top() -> int {
    usize::MAX + 1
}

/// A product of well-formed lists that can be represented is canonical.
pub proof fn lemma_mul_canonical<T: Coef>(a: Seq<Term<T::V>>, c: Seq<Term<real>>)
    requires
        terms_wf::<T>(a),
        terms_wf::<Rat>(c),
        mul_spec::<T>(a, c).is_some(),
    ensures
        canonical::<T>(mul_spec::<T>(a, c).unwrap()),
        forall|e: Exps| #[trigger]
            coeff::<T>(mul_spec::<T>(a, c).unwrap(), e) == coeff::<T>(products::<T>(a, c), e),
{
    lemma_products_wf::<T>(a, c);
    lemma_normal_form::<T>(products::<T>(a, c));
}

/// The square-and-multiply loop on canonical polynomials gives a canonical
/// polynomial.
pub proof fn lemma_pow_loop_canonical(res: PolyView, base: PolyView, e: nat)
    requires
        canonical::<Rat>(res),
        canonical::<Rat>(base),
        pow_loop(res, base, e).is_some(),
    ensures
        canonical::<Rat>(pow_loop(res, base, e).unwrap()),
    decreases e,
{
    lemma_canonical_wf::<Rat>(res);
    lemma_canonical_wf::<Rat>(base);
    if e != 0 {
        if e % 2 == 1 {
            lemma_mul_canonical::<Rat>(res, base);
        }
        let r = if e % 2 == 1 {
            mul_spec::<Rat>(res, base).unwrap()
        } else {
            res
        };
        if e / 2 != 0 {
            lemma_mul_canonical::<Rat>(base, base);
            lemma_pow_loop_canonical(r, mul_spec::<Rat>(base, base).unwrap(), e / 2);
        }
    }
}

/// A power of a canonical polynomial is canonical.
pub proof fn lemma_pow_canonical(p: PolyView, n: nat)
    requires
        canonical::<Rat>(p),
        pow_spec(p, n).is_some(),
    ensures
        canonical::<Rat>(pow_spec(p, n).unwrap()),
{
    let one = seq![term_one::<Rat>()];
    assert(canonical::<Rat>(one)) by {
        assert(one[0] == term_one::<Rat>());
        assert(crate::exps::degree(one[0].exps) == 0);
    }
    lemma_pow_loop_canonical(one, p, n);
}

/// The weighted sum of a list is the weighted first term plus the weighted
/// sum of the rest.
pub proof fn lemma_wsum_front<T: Coef>(s: Seq<Term<T::V>>, g: Weight)
    requires
        s.len() > 0,
    ensures
        wsum::<T>(s, g) == T::add_val(
            T::scale_val(s[0].coef, g(s[0].exps)),
            wsum::<T>(s.skip(1), g),
        ),
{
    let a = seq![s[0]];
    assert(a + s.skip(1) =~= s);
    lemma_wsum_concat::<T>(a, s.skip(1), g);
    assert(a.drop_last() =~= Seq::empty());
    assert(wsum::<T>(a.drop_last(), g) == T::zero_val());
    T::lemma_add_zero(T::scale_val(s[0].coef, g(s[0].exps)));
}

/// One round of a substitution adds to the coefficient function the
/// weighted sum of the terms of the round.
pub proof fn lemma_level(
    t: TempView,
    v: Var,
    p: PolyView,
    cur: int,
    base: PolyView,
    res: TempView,
    i: int,
)
    requires
        terms_wf::<LinExp>(t),
        canonical::<LinExp>(res),
        canonical::<Rat>(base),
        0 <= cur,
        0 <= i <= t.len(),
        pow_spec(p, cur as nat) == Some(base),
        subs_level(t, v, cur, base, res, i).is_some(),
    ensures
        canonical::<LinExp>(subs_level(t, v, cur, base, res, i).unwrap()),
        forall|e: Exps| #[trigger]
            coeff::<LinExp>(subs_level(t, v, cur, base, res, i).unwrap(), e) == LinExp::add_val(
                coeff::<LinExp>(res, e),
                wsum::<LinExp>(t.skip(i), subs_weights(v, p, e, cur, cur + 1)),
            ),
    decreases t.len() - i,
{
    let r = subs_level(t, v, cur, base, res, i).unwrap();
    if i >= t.len() {
        assert(t.skip(i) =~= Seq::empty());
        assert forall|e: Exps| #[trigger]
            coeff::<LinExp>(r, e) == LinExp::add_val(
                coeff::<LinExp>(res, e),
                wsum::<LinExp>(t.skip(i), subs_weights(v, p, e, cur, cur + 1)),
            ) by {
            LinExp::lemma_add_zero(coeff::<LinExp>(res, e));
        }
    } else {
        let rest = t.skip(i);
        assert(rest[0] == t[i]);
        assert(rest.skip(1) =~= t.skip(i + 1));
        assert(term_wf::<LinExp>(t[i]));
        if exp_at(t[i].exps, v) != cur {
            lemma_level(t, v, p, cur, base, res, i + 1);
            assert forall|e: Exps| #[trigger]
                coeff::<LinExp>(r, e) == LinExp::add_val(
                    coeff::<LinExp>(res, e),
                    wsum::<LinExp>(rest, subs_weights(v, p, e, cur, cur + 1)),
                ) by {
                let g = subs_weights(v, p, e, cur, cur + 1);
                lemma_wsum_front::<LinExp>(rest, g);
                assert(g(t[i].exps) == 0 as real);
                LinExp::lemma_scale_unit(t[i].coef);
                LinExp::lemma_add_zero(wsum::<LinExp>(t.skip(i + 1), g));
            }
        } else {
            let st = strip_var(t[i], v);
            let single = seq![st];
            lemma_exps_remove(t[i].exps, v);
            assert(terms_wf::<LinExp>(single)) by {
                assert forall|k: int| 0 <= k < single.len() implies term_wf::<LinExp>(
                    #[trigger] single[k],
                ) by {
                    if t[i].coef == LinExp::zero_val() {
                        assert(t[i].exps.len() == 0);
                    }
                }
            }
            lemma_canonical_wf::<Rat>(base);
            lemma_mul_canonical::<LinExp>(single, base);
            let m = mul_spec::<LinExp>(single, base).unwrap();
            lemma_strip_insert::<LinExp>(res, m);
            let r1 = add_spec::<LinExp>(res, m).unwrap();
            lemma_level(t, v, p, cur, base, r1, i + 1);
            assert forall|e: Exps| #[trigger]
                coeff::<LinExp>(r, e) == LinExp::add_val(
                    coeff::<LinExp>(res, e),
                    wsum::<LinExp>(rest, subs_weights(v, p, e, cur, cur + 1)),
                ) by {
                let g = subs_weights(v, p, e, cur, cur + 1);
                let w = crate::laws::weights(base, e);
                lemma_wsum_front::<LinExp>(rest, g);
                lemma_products_coeff::<LinExp>(single, base, e);
                assert(single.drop_last() =~= Seq::empty());
                assert(wsum::<LinExp>(single.drop_last(), w) == LinExp::zero_val());
                let x = LinExp::scale_val(t[i].coef, g(t[i].exps));
                LinExp::lemma_add_zero(x);
                assert(g(t[i].exps) == weight(base, e, st.exps));
                assert(coeff::<LinExp>(m, e) == x);
                assert(coeff::<LinExp>(r1, e) == LinExp::add_val(coeff::<LinExp>(res, e), x));
                LinExp::lemma_add_assoc(
                    coeff::<LinExp>(res, e),
                    x,
                    wsum::<LinExp>(t.skip(i + 1), g),
                );
            }
        }
    }
}

/// Where no term has an exponent above `cur`, and else for the least such
/// exponent: no term has an exponent strictly between the two.
pub proof fn lemma_next_exp(t: TempView, v: Var, cur: int, i: int, k: int)
    requires
        0 <= i <= k < t.len(),
    ensures
        match next_exp(t, v, cur, i) {
            None => exp_at(t[k].exps, v) <= cur,
            Some(nx) => nx > cur && (exp_at(t[k].exps, v) <= cur || exp_at(t[k].exps, v) >= nx),
        },
    decreases t.len() - i,
{
    if i < k {
        lemma_next_exp(t, v, cur, i + 1, k);
    } else {
        if i + 1 < t.len() {
            lemma_next_exp(t, v, cur, i + 1, i + 1);
        }
    }
}

/// The least exponent above `cur` is above `cur`.
pub proof fn lemma_next_above(t: TempView, v: Var, cur: int, i: int)
    requires
        0 <= i,
    ensures
        next_exp(t, v, cur, i) matches Some(nx) ==> nx > cur,
    decreases t.len() - i,
{
    if i < t.len() {
        lemma_next_above(t, v, cur, i + 1);
    }
}

/// A substitution from the exponent `cur` on adds to the coefficient
/// function the weighted sum of the terms with an exponent of at least
/// `cur`.
pub proof fn lemma_from(t: TempView, v: Var, p: PolyView, cur: int, res: TempView)
    requires
        terms_wf::<LinExp>(t),
        canonical::<LinExp>(res),
        canonical::<Rat>(p),
        0 <= cur,
        subs_from(t, v, p, cur, res).is_some(),
    ensures
        canonical::<LinExp>(subs_from(t, v, p, cur, res).unwrap()),
        forall|e: Exps| #[trigger]
            coeff::<LinExp>(subs_from(t, v, p, cur, res).unwrap(), e) == LinExp::add_val(
                coeff::<LinExp>(res, e),
                wsum::<LinExp>(t, subs_weights(v, p, e, cur, top())),
            ),
    decreases usize::MAX - cur,
{
    let r = subs_from(t, v, p, cur, res).unwrap();
    let base = pow_spec(p, cur as nat).unwrap();
    lemma_pow_canonical(p, cur as nat);
    lemma_level(t, v, p, cur, base, res, 0);
    let r1 = subs_level(t, v, cur, base, res, 0).unwrap();
    assert(t.skip(0) =~= t);
    lemma_next_above(t, v, cur, 0);
    match next_exp(t, v, cur, 0) {
        None => {
            assert forall|e: Exps| #[trigger]
                coeff::<LinExp>(r, e) == LinExp::add_val(
                    coeff::<LinExp>(res, e),
                    wsum::<LinExp>(t, subs_weights(v, p, e, cur, top())),
                ) by {
                let g = subs_weights(v, p, e, cur, cur + 1);
                let h = subs_weights(v, p, e, cur, top());
                assert forall|k: int| 0 <= k < t.len() implies g((#[trigger] t[k]).exps) == h(
                    t[k].exps,
                ) by {
                    lemma_next_exp(t, v, cur, 0, k);
                    lemma_exp_bound(t[k].exps, v);
                }
                lemma_wsum_same::<LinExp>(t, g, h);
            }
        },
        Some(nx) => {
            lemma_from(t, v, p, nx, r1);
            assert forall|e: Exps| #[trigger]
                coeff::<LinExp>(r, e) == LinExp::add_val(
                    coeff::<LinExp>(res, e),
                    wsum::<LinExp>(t, subs_weights(v, p, e, cur, top())),
                ) by {
                let g = subs_weights(v, p, e, cur, cur + 1);
                let h = subs_weights(v, p, e, nx, top());
                let gh = subs_weights(v, p, e, cur, top());
                assert forall|k: int| 0 <= k < t.len() implies gh((#[trigger] t[k]).exps) == g(
                    t[k].exps,
                ) + h(t[k].exps) by {
                    lemma_next_exp(t, v, cur, 0, k);
                    lemma_exp_bound(t[k].exps, v);
                }
                lemma_wsum_weights::<LinExp>(t, g, h, gh);
                LinExp::lemma_add_assoc(
                    coeff::<LinExp>(res, e),
                    wsum::<LinExp>(t, g),
                    wsum::<LinExp>(t, h),
                );
            }
        },
    }
}

/// The exponent of a variable lies below the bound of the exponents.
pub proof fn lemma_exp_bound(f: Exps, v: Var)
    ensures
        0 <= exp_at(f, v) < top(),
    decreases f.len(),
{
    if f.len() > 0 {
        lemma_exp_bound(f.drop_last(), v);
    }
}

/// What a substitution gives: a canonical template in which the
/// coefficient of each exponent vector is the weighted sum of the
/// template.
pub proof fn lemma_subs(t: TempView, v: Var, p: PolyView)
    requires
        canonical::<LinExp>(t),
        canonical::<Rat>(p),
        subs_spec(t, v, p).is_some(),
    ensures
        canonical::<LinExp>(subs_spec(t, v, p).unwrap()),
        forall|e: Exps| #[trigger]
            coeff::<LinExp>(subs_spec(t, v, p).unwrap(), e) == wsum::<LinExp>(
                t,
                |f: Exps| subs_weight(v, p, e, f),
            ),
{
    let z = seq![term_zero::<LinExp>()];
    lemma_canonical_wf::<LinExp>(t);
    lemma_from(t, v, p, 0, z);
    let r = subs_spec(t, v, p).unwrap();
    assert forall|e: Exps| #[trigger]
        coeff::<LinExp>(r, e) == wsum::<LinExp>(t, |f: Exps| subs_weight(v, p, e, f)) by {
        let g = subs_weights(v, p, e, 0, top());
        let h = |f: Exps| subs_weight(v, p, e, f);
        assert forall|k: int| 0 <= k < t.len() implies g((#[trigger] t[k]).exps) == h(
            t[k].exps,
        ) by {
            lemma_exp_bound(t[k].exps, v);
        }
        lemma_wsum_same::<LinExp>(t, g, h);
        crate::terms::lemma_finish_coeff::<LinExp>(z, e);
        LinExp::lemma_add_zero(wsum::<LinExp>(t, g));
    }
}

/// Substitution is additive: where the sum `a + b`, the three
/// substitutions and the sum of the two substitutions can be represented,
/// `(a + b)[v := p] == a[v := p] + b[v := p]`.
pub proof fn lemma_subs_additive(a: TempView, b: TempView, v: Var, p: PolyView)
    requires
        canonical::<LinExp>(a),
        canonical::<LinExp>(b),
        canonical::<Rat>(p),
        add_spec::<LinExp>(a, b).is_some(),
        subs_spec(add_spec::<LinExp>(a, b).unwrap(), v, p).is_some(),
        subs_spec(a, v, p).is_some(),
        subs_spec(b, v, p).is_some(),
        add_spec::<LinExp>(subs_spec(a, v, p).unwrap(), subs_spec(b, v, p).unwrap()).is_some(),
    ensures
        subs_spec(add_spec::<LinExp>(a, b).unwrap(), v, p) == add_spec::<LinExp>(
            subs_spec(a, v, p).unwrap(),
            subs_spec(b, v, p).unwrap(),
        ),
{
    let s = add_spec::<LinExp>(a, b).unwrap();
    let left = subs_spec(s, v, p).unwrap();
    let x = subs_spec(a, v, p).unwrap();
    let y = subs_spec(b, v, p).unwrap();
    let right = add_spec::<LinExp>(x, y).unwrap();
    lemma_strip_insert::<LinExp>(a, b);
    lemma_subs(s, v, p);
    lemma_subs(a, v, p);
    lemma_subs(b, v, p);
    lemma_strip_insert::<LinExp>(x, y);
    lemma_canonical_wf::<LinExp>(a);
    lemma_canonical_wf::<LinExp>(b);
    lemma_canonical_wf::<LinExp>(s);
    let ab = a + b;
    assert(terms_wf::<LinExp>(ab)) by {
        assert forall|i: int| 0 <= i < ab.len() implies term_wf::<LinExp>(#[trigger] ab[i]) by {
            if i < a.len() {
                assert(ab[i] == a[i]);
            } else {
                assert(ab[i] == b[i - a.len()]);
            }
        }
    }
    assert forall|e: Exps| coeff::<LinExp>(s, e) == coeff::<LinExp>(ab, e) by {
        lemma_coeff_concat::<LinExp>(a, b, e);
    }
    assert forall|e: Exps| coeff::<LinExp>(left, e) == coeff::<LinExp>(right, e) by {
        let g = |f: Exps| subs_weight(v, p, e, f);
        lemma_wsum_of_coeff::<LinExp>(s, ab, g);
        lemma_wsum_concat::<LinExp>(a, b, g);
        assert(coeff::<LinExp>(left, e) == wsum::<LinExp>(s, g));
        assert(coeff::<LinExp>(x, e) == wsum::<LinExp>(a, g));
        assert(coeff::<LinExp>(y, e) == wsum::<LinExp>(b, g));
    }
    lemma_canonical_unique::<LinExp>(left, right);
}

} // verus!
