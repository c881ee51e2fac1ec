//! Exponent vectors and their graded order.
//!
//! An exponent vector lists the variables of a monomial with their positive
//! exponents, in strictly increasing order of the variables. A variable that
//! is not listed has exponent zero.
use crate::ring::Var;
use vstd::prelude::*;

verus! {

/// The outcome of a comparison.
#[derive(Clone, Copy, PartialEq, Eq, Structural, Debug)]
pub enum Order {
    Less,
    Equal,
    Greater,
}

pub type Exps = Seq<(Var, usize)>;

/// The total degree: the sum of the exponents.
pub open spec fn degree(e: Exps) -> int
    decreases e.len(),
{
    if e.len() == 0 {
        0
    } else {
        degree(e.drop_last()) + e.last().1
    }
}

/// The exponent of the variable `v`.
pub open spec fn exp_at(e: Exps, v: Var) -> int
    decreases e.len(),
{
    if e.len() == 0 {
        0
    } else if e.last().0 == v {
        e.last().1 as int
    } else {
        exp_at(e.drop_last(), v)
    }
}

/// Variables strictly increasing and exponents positive.
pub open spec fn exps_sorted(e: Exps) -> bool {
    &&& forall|i: int| 0 <= i < e.len() ==> (#[trigger] e[i]).1 > 0
    &&& forall|i: int, j: int|
        0 <= i < j < e.len() ==> (#[trigger] e[i]).0.id < (#[trigger] e[j]).0.id
}

/// Variables strictly increasing, exponents positive, and a total degree
/// that a machine word holds.
pub open spec fn exps_wf(e: Exps) -> bool {
    &&& exps_sorted(e)
    &&& degree(e) <= usize::MAX
}

/// The comparison of two vectors by the highest variable in which they
/// differ: the vector with the smaller exponent there is the smaller one.
pub open spec fn revlex(a: Exps, b: Exps) -> Order
    decreases a.len() + b.len(),
{
    if a.len() == 0 && b.len() == 0 {
        Order::Equal
    } else if a.len() == 0 {
        Order::Less
    } else if b.len() == 0 {
        Order::Greater
    } else if a.last().0.id > b.last().0.id {
        Order::Greater
    } else if a.last().0.id < b.last().0.id {
        Order::Less
    } else if a.last().1 > b.last().1 {
        Order::Greater
    } else if a.last().1 < b.last().1 {
        Order::Less
    } else {
        revlex(a.drop_last(), b.drop_last())
    }
}

/// The graded order of exponent vectors: the total degree decides, and
/// among vectors of one degree the highest variable in which they differ,
/// where the smaller exponent makes the smaller vector.
pub open spec fn grevlex(a: Exps, b: Exps) -> Order {
    if degree(a) < degree(b) {
        Order::Less
    } else if degree(a) > degree(b) {
        Order::Greater
    } else {
        revlex(a, b)
    }
}

/// The exponent vector of a product: exponents add.
pub open spec fn exps_mul(a: Exps, b: Exps) -> Exps
    decreases a.len() + b.len(),
{
    if a.len() == 0 {
        b
    } else if b.len() == 0 {
        a
    } else if a.last().0.id > b.last().0.id {
        exps_mul(a.drop_last(), b).push(a.last())
    } else if a.last().0.id < b.last().0.id {
        exps_mul(a, b.drop_last()).push(b.last())
    } else {
        exps_mul(a.drop_last(), b.drop_last()).push(
            (a.last().0, (a.last().1 + b.last().1) as usize),
        )
    }
}

pub proof fn lemma_degree_nonneg(e: Exps)
    ensures
        degree(e) >= 0,
    decreases e.len(),
{
    if e.len() > 0 {
        lemma_degree_nonneg(e.drop_last());
    }
}

/// The degree of a prefix is at most the degree of the whole.
pub proof fn lemma_degree_take(e: Exps, k: int)
    requires
        0 <= k <= e.len(),
    ensures
        0 <= degree(e.take(k)) <= degree(e),
    decreases e.len() - k,
{
    lemma_degree_nonneg(e.take(k));
    if k < e.len() {
        lemma_degree_take(e, k + 1);
        assert(e.take(k + 1).drop_last() == e.take(k));
    } else {
        assert(e.take(k) == e);
    }
}

/// A prefix of a well-formed vector is well formed.
pub proof fn lemma_wf_take(e: Exps, k: int)
    requires
        exps_wf(e),
        0 <= k <= e.len(),
    ensures
        exps_wf(e.take(k)),
{
    lemma_degree_take(e, k);
}

/// A comparison yields `Equal` only for one and the same vector.
pub proof fn lemma_revlex_equal(a: Exps, b: Exps)
    ensures
        revlex(a, b) == Order::Equal <==> a == b,
    decreases a.len() + b.len(),
{
    if a.len() > 0 && b.len() > 0 {
        lemma_revlex_equal(a.drop_last(), b.drop_last());
        if a.drop_last() == b.drop_last() && a.last() == b.last() {
            assert(a == a.drop_last().push(a.last()));
            assert(b == b.drop_last().push(b.last()));
        }
    } else {
        if a.len() == 0 && b.len() == 0 {
            assert(a == b);
        }
    }
}

/// Exchanging the operands exchanges `Less` and `Greater`.
pub proof fn lemma_revlex_flip(a: Exps, b: Exps)
    ensures
        revlex(a, b) == Order::Less <==> revlex(b, a) == Order::Greater,
        revlex(a, b) == Order::Greater <==> revlex(b, a) == Order::Less,
        revlex(a, b) == Order::Equal <==> revlex(b, a) == Order::Equal,
    decreases a.len() + b.len(),
{
    if a.len() > 0 && b.len() > 0 {
        lemma_revlex_flip(a.drop_last(), b.drop_last());
    }
}

pub proof fn lemma_revlex_trans(a: Exps, b: Exps, c: Exps)
    requires
        revlex(a, b) == Order::Less,
        revlex(b, c) == Order::Less,
    ensures
        revlex(a, c) == Order::Less,
    decreases a.len() + b.len() + c.len(),
{
    if a.len() > 0 && b.len() > 0 && c.len() > 0 {
        if a.last() == b.last() && b.last() == c.last() {
            lemma_revlex_trans(a.drop_last(), b.drop_last(), c.drop_last());
        }
    }
}

pub proof fn lemma_grevlex_equal(a: Exps, b: Exps)
    ensures
        grevlex(a, b) == Order::Equal <==> a == b,
{
    lemma_revlex_equal(a, b);
}

pub proof fn lemma_grevlex_flip(a: Exps, b: Exps)
    ensures
        grevlex(a, b) == Order::Less <==> grevlex(b, a) == Order::Greater,
        grevlex(a, b) == Order::Greater <==> grevlex(b, a) == Order::Less,
        grevlex(a, b) == Order::Equal <==> grevlex(b, a) == Order::Equal,
{
    lemma_revlex_flip(a, b);
}

pub proof fn lemma_grevlex_trans(a: Exps, b: Exps, c: Exps)
    requires
        grevlex(a, b) == Order::Less,
        grevlex(b, c) == Order::Less,
    ensures
        grevlex(a, c) == Order::Less,
{
    if degree(a) == degree(b) && degree(b) == degree(c) {
        lemma_revlex_trans(a, b, c);
    }
}

/// The last variable of a product is the larger of the operands' last
/// variables, the product is well formed, and degrees add.
pub proof fn lemma_exps_mul(a: Exps, b: Exps)
    requires
        exps_wf(a),
        exps_wf(b),
        degree(a) + degree(b) <= usize::MAX,
    ensures
        exps_wf(exps_mul(a, b)),
        degree(exps_mul(a, b)) == degree(a) + degree(b),
        exps_mul(a, b).len() == 0 <==> a.len() == 0 && b.len() == 0,
        exps_mul(a, b).len() > 0 ==> exps_mul(a, b).last().0.id == if a.len() == 0 {
            b.last().0.id
        } else if b.len() == 0 {
            a.last().0.id
        } else if a.last().0.id > b.last().0.id {
            a.last().0.id
        } else {
            b.last().0.id
        },
    decreases a.len() + b.len(),
{
    let r = exps_mul(a, b);
    if a.len() == 0 || b.len() == 0 {
    } else {
        let a0 = a.drop_last();
        let b0 = b.drop_last();
        lemma_wf_take(a, a.len() - 1);
        lemma_wf_take(b, b.len() - 1);
        assert(a.take(a.len() - 1) == a0);
        assert(b.take(b.len() - 1) == b0);
        lemma_degree_nonneg(a0);
        lemma_degree_nonneg(b0);
        if a.last().0.id > b.last().0.id {
            lemma_exps_mul(a0, b);
            let r0 = exps_mul(a0, b);
            assert(r == r0.push(a.last()));
            assert(r.drop_last() == r0);
            assert(b0.len() == 0 || b0.last().0.id < b.last().0.id);
            assert(a0.len() == 0 || a0.last().0.id < a.last().0.id);
            lemma_push_wf(r0, a.last());
        } else if a.last().0.id < b.last().0.id {
            lemma_exps_mul(a, b0);
            let r0 = exps_mul(a, b0);
            assert(r == r0.push(b.last()));
            assert(r.drop_last() == r0);
            assert(b0.len() == 0 || b0.last().0.id < b.last().0.id);
            lemma_push_wf(r0, b.last());
        } else {
            lemma_exps_mul(a0, b0);
            let r0 = exps_mul(a0, b0);
            let x = (a.last().0, (a.last().1 + b.last().1) as usize);
            assert(r == r0.push(x));
            assert(r.drop_last() == r0);
            assert(b0.len() == 0 || b0.last().0.id < b.last().0.id);
            assert(a0.len() == 0 || a0.last().0.id < a.last().0.id);
            lemma_push_wf(r0, x);
        }
    }
}

/// Appending a higher variable with a positive exponent keeps a vector well
/// formed, as long as the degree stays within a machine word.
pub proof fn lemma_push_wf(e: Exps, x: (Var, usize))
    requires
        exps_wf(e),
        x.1 > 0,
        e.len() == 0 || e.last().0.id < x.0.id,
        degree(e) + x.1 <= usize::MAX,
    ensures
        exps_wf(e.push(x)),
        degree(e.push(x)) == degree(e) + x.1,
{
    let r = e.push(x);
    assert(r.drop_last() == e);
    assert forall|i: int, j: int| 0 <= i < j < r.len() implies (#[trigger] r[i]).0.id < (
    #[trigger] r[j]).0.id by {
        if j == e.len() {
            if i < e.len() - 1 {
                assert(e[i].0.id < e[e.len() - 1].0.id);
            }
        }
    }
}

/// In a product, the exponent of each variable is the sum of its exponents
/// in the operands.
pub proof fn lemma_exps_mul_at(a: Exps, b: Exps, v: Var)
    requires
        exps_wf(a),
        exps_wf(b),
        degree(a) + degree(b) <= usize::MAX,
    ensures
        exp_at(exps_mul(a, b), v) == exp_at(a, v) + exp_at(b, v),
    decreases a.len() + b.len(),
{
    if a.len() == 0 || b.len() == 0 {
    } else {
        let a0 = a.drop_last();
        let b0 = b.drop_last();
        lemma_wf_take(a, a.len() - 1);
        lemma_wf_take(b, b.len() - 1);
        assert(a.take(a.len() - 1) == a0);
        assert(b.take(b.len() - 1) == b0);
        lemma_degree_nonneg(a0);
        lemma_degree_nonneg(b0);
        if a.last().0.id > b.last().0.id {
            lemma_exps_mul_at(a0, b, v);
            assert(exps_mul(a, b).drop_last() == exps_mul(a0, b));
            if a.last().0 == v {
                lemma_absent(b, v);
            }
        } else if a.last().0.id < b.last().0.id {
            lemma_exps_mul_at(a, b0, v);
            assert(exps_mul(a, b).drop_last() == exps_mul(a, b0));
            if b.last().0 == v {
                lemma_absent(a, v);
            }
        } else {
            lemma_exps_mul_at(a0, b0, v);
            assert(exps_mul(a, b).drop_last() == exps_mul(a0, b0));
        }
    }
}

/// A variable above the last one listed has exponent zero.
pub proof fn lemma_absent(e: Exps, v: Var)
    requires
        exps_wf(e),
        e.len() == 0 || e.last().0.id < v.id,
    ensures
        exp_at(e, v) == 0,
    decreases e.len(),
{
    if e.len() > 0 {
        lemma_wf_take(e, e.len() - 1);
        assert(e.take(e.len() - 1) == e.drop_last());
        if e.len() > 1 {
            assert(e[e.len() - 2].0.id < e[e.len() - 1].0.id);
        }
        lemma_absent(e.drop_last(), v);
    }
}

/// The total degree of a vector.
pub fn exps_degree(e: &Vec<(Var, usize)>) -> (d: usize)
    requires
        exps_wf(e@),
    ensures
        d == degree(e@),
{
    let mut d: usize = 0;
    let mut i: usize = 0;
    while i < e.len()
        invariant
            i <= e@.len(),
            exps_wf(e@),
            d == degree(e@.take(i as int)),
        decreases e@.len() - i,
    {
        proof {
            lemma_degree_take(e@, i + 1);
            assert(e@.take(i + 1).drop_last() == e@.take(i as int));
        }
        d = d + e[i].1;
        i += 1;
    }
    proof {
        assert(e@.take(e@.len() as int) == e@);
    }
    d
}

/// Whether two vectors are the same.
pub fn exps_same(a: &Vec<(Var, usize)>, b: &Vec<(Var, usize)>) -> (r: bool)
    ensures
        r == (a@ == b@),
{
    if a.len() != b.len() {
        return false;
    }
    let mut i: usize = 0;
    while i < a.len()
        invariant
            i <= a@.len(),
            a@.len() == b@.len(),
            forall|j: int| 0 <= j < i ==> a@[j] == b@[j],
        decreases a@.len() - i,
    {
        if a[i].0.id != b[i].0.id || a[i].1 != b[i].1 {
            return false;
        }
        i += 1;
    }
    assert(a@ =~= b@);
    true
}

/// A copy of a vector.
pub fn exps_dup(a: &Vec<(Var, usize)>) -> (r: Vec<(Var, usize)>)
    ensures
        r@ == a@,
{
    let mut r: Vec<(Var, usize)> = Vec::new();
    let mut i: usize = 0;
    while i < a.len()
        invariant
            i <= a@.len(),
            r@ == a@.take(i as int),
        decreases a@.len() - i,
    {
        r.push(a[i]);
        assert(a@.take(i + 1) == a@.take(i as int).push(a@[i as int]));
        i += 1;
    }
    assert(a@.take(a@.len() as int) == a@);
    r
}

/// The comparison of two vectors by the highest variable in which they
/// differ.
fn exps_revlex(a: &Vec<(Var, usize)>, b: &Vec<(Var, usize)>) -> (r: Order)
    ensures
        r == revlex(a@, b@),
{
    let mut i: usize = a.len();
    let mut j: usize = b.len();
    proof {
        assert(a@.take(a@.len() as int) == a@);
        assert(b@.take(b@.len() as int) == b@);
    }
    while i > 0 && j > 0
        invariant
            i <= a@.len(),
            j <= b@.len(),
            revlex(a@, b@) == revlex(a@.take(i as int), b@.take(j as int)),
        decreases i,
    {
        let x = a[i - 1];
        let y = b[j - 1];
        proof {
            assert(a@.take(i as int).drop_last() == a@.take(i - 1));
            assert(b@.take(j as int).drop_last() == b@.take(j - 1));
        }
        if x.0.id > y.0.id {
            return Order::Greater;
        } else if x.0.id < y.0.id {
            return Order::Less;
        } else if x.1 > y.1 {
            return Order::Greater;
        } else if x.1 < y.1 {
            return Order::Less;
        }
        i -= 1;
        j -= 1;
    }
    if i == 0 && j == 0 {
        Order::Equal
    } else if i == 0 {
        Order::Less
    } else {
        Order::Greater
    }
}

/// The graded comparison of two vectors.
pub fn exps_order(a: &Vec<(Var, usize)>, b: &Vec<(Var, usize)>) -> (r: Order)
    requires
        exps_wf(a@),
        exps_wf(b@),
    ensures
        r == grevlex(a@, b@),
{
    let da = exps_degree(a);
    let db = exps_degree(b);
    if da < db {
        Order::Less
    } else if da > db {
        Order::Greater
    } else {
        exps_revlex(a, b)
    }
}

/// The exponent vector of a product; `None` when the total degree of the
/// product exceeds a machine word.
pub fn exps_product(a: &Vec<(Var, usize)>, b: &Vec<(Var, usize)>) -> (out: Option<
    Vec<(Var, usize)>,
>)
    requires
        exps_wf(a@),
        exps_wf(b@),
    ensures
        out.is_some() <==> degree(a@) + degree(b@) <= usize::MAX,
        out matches Some(r) ==> r@ == exps_mul(a@, b@) && exps_wf(r@),
{
    let da = exps_degree(a);
    let db = exps_degree(b);
    if da > usize::MAX - db {
        return None;
    }
    let mut res: Vec<(Var, usize)> = Vec::new();
    let mut i: usize = a.len();
    let mut j: usize = b.len();
    proof {
        assert(a@.take(a@.len() as int) == a@);
        assert(b@.take(b@.len() as int) == b@);
        assert(exps_mul(a@, b@) + res@ == exps_mul(a@, b@));
    }
    while i > 0 || j > 0
        invariant
            i <= a@.len(),
            j <= b@.len(),
            exps_wf(a@),
            exps_wf(b@),
            degree(a@) + degree(b@) <= usize::MAX,
            exps_mul(a@, b@) == exps_mul(a@.take(i as int), b@.take(j as int)) + res@,
        decreases i + j,
    {
        let ghost ai = a@.take(i as int);
        let ghost bj = b@.take(j as int);
        proof {
            if i > 0 {
                assert(ai.drop_last() == a@.take(i - 1));
            }
            if j > 0 {
                assert(bj.drop_last() == b@.take(j - 1));
            }
            lemma_degree_take(a@, i as int);
            lemma_degree_take(b@, j as int);
            if i > 0 {
                lemma_degree_take(a@, i - 1);
            }
            if j > 0 {
                lemma_degree_take(b@, j - 1);
            }
        }
        if j == 0 || (i > 0 && a[i - 1].0.id > b[j - 1].0.id) {
            let x = a[i - 1];
            proof {
                let rest = if j == 0 {
                    a@.take(i - 1)
                } else {
                    exps_mul(a@.take(i - 1), bj)
                };
                if j == 0 {
                    assert(exps_mul(ai, bj) == ai);
                    assert(ai == a@.take(i - 1).push(x));
                    assert(exps_mul(a@.take(i - 1), bj) == a@.take(i - 1));
                }
                assert(exps_mul(ai, bj) == exps_mul(a@.take(i - 1), bj).push(x));
                assert(exps_mul(a@.take(i - 1), bj).push(x) + res@ == exps_mul(
                    a@.take(i - 1),
                    bj,
                ) + res@.insert(0, x));
            }
            res.insert(0, x);
            i -= 1;
        } else if i == 0 || a[i - 1].0.id < b[j - 1].0.id {
            let y = b[j - 1];
            proof {
                if i == 0 {
                    assert(exps_mul(ai, bj) == bj);
                    assert(bj == b@.take(j - 1).push(y));
                    assert(exps_mul(ai, b@.take(j - 1)) == b@.take(j - 1));
                }
                assert(exps_mul(ai, bj) == exps_mul(ai, b@.take(j - 1)).push(y));
                assert(exps_mul(ai, b@.take(j - 1)).push(y) + res@ == exps_mul(
                    ai,
                    b@.take(j - 1),
                ) + res@.insert(0, y));
            }
            res.insert(0, y);
            j -= 1;
        } else {
            let x = a[i - 1];
            let y = b[j - 1];
            proof {
                assert(ai.last() == x);
                assert(bj.last() == y);
                assert(x.1 <= degree(ai));
                assert(y.1 <= degree(bj));
                lemma_degree_nonneg(a@.take(i - 1));
                lemma_degree_nonneg(b@.take(j - 1));
            }
            let z = (x.0, x.1 + y.1);
            proof {
                assert(exps_mul(ai, bj) == exps_mul(a@.take(i - 1), b@.take(j - 1)).push(z));
                assert(exps_mul(a@.take(i - 1), b@.take(j - 1)).push(z) + res@ == exps_mul(
                    a@.take(i - 1),
                    b@.take(j - 1),
                ) + res@.insert(0, z));
            }
            res.insert(0, z);
            i -= 1;
            j -= 1;
        }
    }
    proof {
        assert(a@.take(0) == Seq::<(Var, usize)>::empty());
        assert(exps_mul(a@.take(0), b@.take(0)) == Seq::<(Var, usize)>::empty());
        assert(Seq::<(Var, usize)>::empty() + res@ == res@);
        lemma_exps_mul(a@, b@);
    }
    Some(res)
}

/// The vector `e` with the exponent of `v` set to `k`.
pub open spec fn exps_set(e: Exps, v: Var, k: usize) -> Exps
    decreases e.len(),
{
    if e.len() == 0 || e.last().0.id < v.id {
        if k == 0 {
            e
        } else {
            e.push((v, k))
        }
    } else if e.last().0.id == v.id {
        if k == 0 {
            e.drop_last()
        } else {
            e.drop_last().push((v, k))
        }
    } else {
        exps_set(e.drop_last(), v, k).push(e.last())
    }
}

/// The vector that a list of pairs describes: each pair sets the exponent of
/// its variable, a later pair overriding an earlier one.
pub open spec fn exps_of_pairs(pairs: Seq<(Var, usize)>) -> Exps
    decreases pairs.len(),
{
    if pairs.len() == 0 {
        Seq::empty()
    } else {
        exps_set(exps_of_pairs(pairs.drop_last()), pairs.last().0, pairs.last().1)
    }
}

/// Setting an exponent keeps the order of the variables, makes the exponent
/// of `v` equal to `k` and leaves every other exponent as it was.
pub proof fn lemma_exps_set(e: Exps, v: Var, k: usize)
    requires
        exps_sorted(e),
    ensures
        exps_sorted(exps_set(e, v, k)),
        exps_set(e, v, k).len() > 0 ==> exps_set(e, v, k).last().0.id == v.id || (e.len() > 0
            && exps_set(e, v, k).last().0.id <= e.last().0.id),
        exps_set(e, v, k).len() > 0 && (e.len() == 0 || e.last().0.id <= v.id) ==> exps_set(
            e,
            v,
            k,
        ).last().0.id <= v.id,
    decreases e.len(),
{
    let r = exps_set(e, v, k);
    if e.len() == 0 || e.last().0.id < v.id {
        if k != 0 {
            assert forall|i: int, j: int| 0 <= i < j < r.len() implies (#[trigger] r[i]).0.id < (
            #[trigger] r[j]).0.id by {
                if j == e.len() && i < e.len() - 1 {
                    assert(e[i].0.id < e[e.len() - 1].0.id);
                }
            }
        }
    } else if e.last().0.id == v.id {
        let e0 = e.drop_last();
        if k != 0 {
            assert forall|i: int, j: int| 0 <= i < j < r.len() implies (#[trigger] r[i]).0.id < (
            #[trigger] r[j]).0.id by {
                assert(e[i].0.id < e[e.len() - 1].0.id);
                if j < e.len() - 1 {
                    assert(e[i].0.id < e[j].0.id);
                }
            }
        } else {
            if e0.len() > 0 {
                assert(e[e.len() - 2].0.id < e[e.len() - 1].0.id);
            }
        }
    } else {
        let e0 = e.drop_last();
        lemma_exps_set(e0, v, k);
        let r0 = exps_set(e0, v, k);
        assert(r == r0.push(e.last()));
        if e0.len() > 0 {
            assert(e[e.len() - 2].0.id < e[e.len() - 1].0.id);
        }
        assert forall|i: int, j: int| 0 <= i < j < r.len() implies (#[trigger] r[i]).0.id < (
        #[trigger] r[j]).0.id by {
            if j == r0.len() {
                if i < r0.len() - 1 {
                    assert(r0[i].0.id < r0[r0.len() - 1].0.id);
                }
            }
        }
    }
}

pub proof fn lemma_exps_of_pairs(pairs: Seq<(Var, usize)>)
    ensures
        exps_sorted(exps_of_pairs(pairs)),
    decreases pairs.len(),
{
    if pairs.len() > 0 {
        lemma_exps_of_pairs(pairs.drop_last());
        lemma_exps_set(exps_of_pairs(pairs.drop_last()), pairs.last().0, pairs.last().1);
    }
}

/// Sets the exponent of `v` to `k`.
fn set_exp(e: &mut Vec<(Var, usize)>, v: Var, k: usize)
    ensures
        final(e)@ == exps_set(old(e)@, v, k),
{
    let ghost e0 = e@;
    let mut i: usize = e.len();
    proof {
        assert(e0.take(e0.len() as int) == e0);
        assert(e0.skip(e0.len() as int) == Seq::<(Var, usize)>::empty());
        assert(exps_set(e0, v, k) + Seq::<(Var, usize)>::empty() == exps_set(e0, v, k));
    }
    while i > 0 && e[i - 1].0.id > v.id
        invariant
            i <= e@.len(),
            e@ == e0,
            exps_set(e0, v, k) == exps_set(e0.take(i as int), v, k) + e0.skip(i as int),
        decreases i,
    {
        proof {
            let t = e0.take(i as int);
            assert(t.drop_last() == e0.take(i - 1));
            assert(exps_set(t, v, k) == exps_set(e0.take(i - 1), v, k).push(e0[i - 1]));
            assert(e0.skip(i - 1) == seq![e0[i - 1]] + e0.skip(i as int));
            assert(exps_set(e0.take(i - 1), v, k).push(e0[i - 1]) + e0.skip(i as int)
                == exps_set(e0.take(i - 1), v, k) + e0.skip(i - 1));
        }
        i -= 1;
    }
    let ghost t = e0.take(i as int);
    proof {
        if i > 0 {
            assert(t.last() == e0[i - 1]);
            assert(t.drop_last() == e0.take(i - 1));
        }
    }
    if i > 0 && e[i - 1].0.id == v.id {
        if k == 0 {
            e.remove(i - 1);
            proof {
                assert(e@ == e0.remove(i - 1));
                assert(e0.remove(i - 1) == e0.take(i - 1) + e0.skip(i as int));
            }
        } else {
            e.set(i - 1, (v, k));
            proof {
                assert(e@ == e0.update(i - 1, (v, k)));
                assert(e0.update(i - 1, (v, k)) == e0.take(i - 1).push((v, k)) + e0.skip(
                    i as int,
                ));
            }
        }
    } else {
        if k != 0 {
            e.insert(i, (v, k));
            proof {
                assert(e@ == e0.insert(i as int, (v, k)));
                assert(e0.insert(i as int, (v, k)) == t.push((v, k)) + e0.skip(i as int));
            }
        } else {
            proof {
                assert(t + e0.skip(i as int) == e0);
            }
        }
    }
}

/// The degree of a vector, where a machine word holds it.
fn checked_degree(e: &Vec<(Var, usize)>) -> (out: Option<usize>)
    ensures
        out.is_some() <==> degree(e@) <= usize::MAX,
        out matches Some(d) ==> d == degree(e@),
{
    let mut d: usize = 0;
    let mut i: usize = 0;
    while i < e.len()
        invariant
            i <= e@.len(),
            d == degree(e@.take(i as int)),
        decreases e@.len() - i,
    {
        proof {
            lemma_degree_take(e@, i + 1);
            assert(e@.take(i + 1).drop_last() == e@.take(i as int));
        }
        if e[i].1 > usize::MAX - d {
            return None;
        }
        d = d + e[i].1;
        i += 1;
    }
    proof {
        assert(e@.take(e@.len() as int) == e@);
    }
    Some(d)
}

/// The vector that a list of pairs describes; `None` when its total degree
/// exceeds a machine word.
pub fn exps_from_pairs(pairs: &Vec<(Var, usize)>) -> (out: Option<Vec<(Var, usize)>>)
    ensures
        out.is_some() <==> degree(exps_of_pairs(pairs@)) <= usize::MAX,
        out matches Some(r) ==> r@ == exps_of_pairs(pairs@) && exps_wf(r@),
{
    let mut r: Vec<(Var, usize)> = Vec::new();
    let mut i: usize = 0;
    while i < pairs.len()
        invariant
            i <= pairs@.len(),
            r@ == exps_of_pairs(pairs@.take(i as int)),
        decreases pairs@.len() - i,
    {
        proof {
            assert(pairs@.take(i + 1).drop_last() == pairs@.take(i as int));
        }
        set_exp(&mut r, pairs[i].0, pairs[i].1);
        i += 1;
    }
    proof {
        assert(pairs@.take(pairs@.len() as int) == pairs@);
        lemma_exps_of_pairs(pairs@);
    }
    match checked_degree(&r) {
        Some(_) => Some(r),
        None => None,
    }
}

/// A well-formed vector of total degree at most `d` in the variables with
/// ordinals below `n`.
pub open spec fn in_box(e: Exps, n: int, d: int) -> bool {
    &&& exps_wf(e)
    &&& degree(e) <= d
    &&& forall|i: int| 0 <= i < e.len() ==> (#[trigger] e[i]).0.id < n
}

/// Well-formed vectors in strictly descending order.
pub open spec fn descending(s: Seq<Exps>) -> bool {
    &&& forall|i: int| 0 <= i < s.len() ==> exps_wf(#[trigger] s[i])
    &&& forall|i: int, j: int|
        0 <= i < j < s.len() ==> grevlex(#[trigger] s[i], #[trigger] s[j]) == Order::Greater
}

/// The list `s` holds, in descending order, exactly the vectors of total
/// degree at most `d` in the first `n` variables.
pub open spec fn lists_box(s: Seq<Exps>, n: int, d: int) -> bool {
    &&& descending(s)
    &&& forall|e: Exps| in_box(e, n, d) <==> #[trigger] s.contains(e)
}

/// The vectors of total degree at most `d` in the first `n` variables, in
/// descending order.
pub open spec fn monomials(n: int, d: int) -> Seq<Exps> {
    choose|s: Seq<Exps>| lists_box(s, n, d)
}

/// Two descending lists with the same elements are the same list.
pub proof fn lemma_descending_unique(a: Seq<Exps>, b: Seq<Exps>)
    requires
        descending(a),
        descending(b),
        forall|e: Exps| a.contains(e) <==> b.contains(e),
    ensures
        a == b,
    decreases a.len() + b.len(),
{
    if a.len() == 0 && b.len() == 0 {
        assert(a =~= b);
    } else if a.len() == 0 {
        assert(b.contains(b[0]));
        assert(a.contains(b[0]));
    } else if b.len() == 0 {
        assert(a.contains(a[0]));
        assert(b.contains(a[0]));
    } else {
        let x = a.last();
        let y = b.last();
        assert(a.contains(x)) by {
            assert(a[a.len() - 1] == x);
        }
        assert(b.contains(y)) by {
            assert(b[b.len() - 1] == y);
        }
        let jx = choose|j: int| 0 <= j < b.len() && b[j] == x;
        let iy = choose|i: int| 0 <= i < a.len() && a[i] == y;
        lemma_grevlex_equal(x, y);
        lemma_grevlex_flip(x, y);
        if jx < b.len() - 1 {
            assert(grevlex(b[jx], b[b.len() - 1]) == Order::Greater);
        }
        if iy < a.len() - 1 {
            assert(grevlex(a[iy], a[a.len() - 1]) == Order::Greater);
        }
        assert(x == y);
        let a0 = a.drop_last();
        let b0 = b.drop_last();
        assert(descending(a0)) by {
            assert forall|i: int| 0 <= i < a0.len() implies exps_wf(#[trigger] a0[i]) by {
                assert(a0[i] == a[i]);
            }
            assert forall|i: int, j: int| 0 <= i < j < a0.len() implies grevlex(
                #[trigger] a0[i],
                #[trigger] a0[j],
            ) == Order::Greater by {
                assert(a0[i] == a[i] && a0[j] == a[j]);
            }
        }
        assert(descending(b0)) by {
            assert forall|i: int| 0 <= i < b0.len() implies exps_wf(#[trigger] b0[i]) by {
                assert(b0[i] == b[i]);
            }
            assert forall|i: int, j: int| 0 <= i < j < b0.len() implies grevlex(
                #[trigger] b0[i],
                #[trigger] b0[j],
            ) == Order::Greater by {
                assert(b0[i] == b[i] && b0[j] == b[j]);
            }
        }
        assert forall|e: Exps| a0.contains(e) <==> b0.contains(e) by {
            if a0.contains(e) {
                let i = choose|i: int| 0 <= i < a0.len() && a0[i] == e;
                assert(a[i] == e);
                assert(grevlex(a[i], a[a.len() - 1]) == Order::Greater);
                lemma_grevlex_equal(e, x);
                assert(a.contains(e));
                let j = choose|j: int| 0 <= j < b.len() && b[j] == e;
                assert(b0[j] == e);
            }
            if b0.contains(e) {
                let j = choose|j: int| 0 <= j < b0.len() && b0[j] == e;
                assert(b[j] == e);
                assert(grevlex(b[j], b[b.len() - 1]) == Order::Greater);
                lemma_grevlex_equal(e, y);
                assert(b.contains(e));
                let i = choose|i: int| 0 <= i < a.len() && a[i] == e;
                assert(a0[i] == e);
            }
        }
        lemma_descending_unique(a0, b0);
        assert(a == a0.push(x));
        assert(b == b0.push(y));
    }
}

/// A list that holds the vectors of a box in descending order is the list
/// `monomials` of that box.
pub proof fn lemma_monomials(s: Seq<Exps>, n: int, d: int)
    requires
        lists_box(s, n, d),
    ensures
        s == monomials(n, d),
{
    let m = monomials(n, d);
    assert(lists_box(m, n, d));
    assert forall|e: Exps| s.contains(e) <==> m.contains(e) by {
        assert(in_box(e, n, d) <==> s.contains(e));
        assert(in_box(e, n, d) <==> m.contains(e));
    }
    lemma_descending_unique(s, m);
}

/// A vector that is not empty is the product of the vector with its last
/// exponent lowered by one and its last variable.
pub proof fn lemma_split_last(e: Exps)
    requires
        exps_wf(e),
        e.len() > 0,
    ensures
        exps_wf(lower_last(e)),
        degree(lower_last(e)) == degree(e) - 1,
        exps_mul(lower_last(e), seq![(e.last().0, 1usize)]) == e,
        forall|i: int|
            0 <= i < lower_last(e).len() ==> exists|j: int|
                0 <= j < e.len() && (#[trigger] lower_last(e)[i]).0 == e[j].0,
{
    let e0 = e.drop_last();
    let x = e.last();
    let r = lower_last(e);
    let b = seq![(x.0, 1usize)];
    lemma_wf_take(e, e.len() - 1);
    assert(e.take(e.len() - 1) == e0);
    assert(e[e.len() - 1] == x);
    lemma_degree_nonneg(e0);
    assert(b.drop_last() =~= Seq::empty());
    assert(b.last() == (x.0, 1usize));
    if x.1 > 1 {
        let y = (x.0, (x.1 - 1) as usize);
        assert(r == e0.push(y));
        assert(r.drop_last() == e0);
        if e0.len() > 0 {
            assert(e[e.len() - 2].0.id < e[e.len() - 1].0.id);
        }
        lemma_push_wf(e0, y);
        assert(exps_mul(r, b) == exps_mul(r.drop_last(), b.drop_last()).push(
            (x.0, (y.1 + 1) as usize),
        ));
        assert(exps_mul(e0, Seq::empty()) == e0);
        assert(e0.push(x) == e);
        assert forall|i: int| 0 <= i < r.len() implies exists|j: int|
            0 <= j < e.len() && (#[trigger] r[i]).0 == e[j].0 by {
            assert(r[i].0 == e[i].0);
        }
    } else {
        assert(r == e0);
        if e0.len() > 0 {
            assert(e[e.len() - 2].0.id < e[e.len() - 1].0.id);
            assert(e0.last() == e[e.len() - 2]);
            assert(exps_mul(e0, b) == exps_mul(e0, b.drop_last()).push(b.last()));
        }
        assert(e0.push(x) == e);
        assert forall|i: int| 0 <= i < r.len() implies exists|j: int|
            0 <= j < e.len() && (#[trigger] r[i]).0 == e[j].0 by {
            assert(r[i].0 == e[i].0);
        }
    }
}

/// The vector with its last exponent lowered by one.
pub open spec fn lower_last(e: Exps) -> Exps {
    if e.last().1 > 1 {
        e.drop_last().push((e.last().0, (e.last().1 - 1) as usize))
    } else {
        e.drop_last()
    }
}

/// The views of a list of vectors.
pub open spec fn vec_views(l: Seq<Vec<(Var, usize)>>) -> Seq<Exps> {
    Seq::new(l.len(), |i: int| l[i]@)
}

/// Puts the vector `e` into a descending list, unless it is there already.
fn insert_exps(list: &mut Vec<Vec<(Var, usize)>>, e: Vec<(Var, usize)>)
    requires
        descending(vec_views(old(list)@)),
        exps_wf(e@),
    ensures
        descending(vec_views(final(list)@)),
        forall|x: Exps|
            #![trigger vec_views(final(list)@).contains(x)]
            vec_views(final(list)@).contains(x) <==> (vec_views(old(list)@).contains(x) || x
                == e@),
{
    let ghost s = vec_views(list@);
    let mut i: usize = 0;
    proof {
        assert forall|j: int| 0 <= j < list@.len() implies exps_wf(#[trigger] list@[j]@) by {
            assert(s[j] == list@[j]@);
        }
    }
    while i < list.len() && exps_order(&list[i], &e) == Order::Greater
        invariant
            i <= list@.len(),
            s == vec_views(list@),
            list@ == old(list)@,
            descending(s),
            exps_wf(e@),
            forall|j: int| 0 <= j < list@.len() ==> exps_wf(#[trigger] list@[j]@),
            forall|j: int| 0 <= j < i ==> grevlex(#[trigger] s[j], e@) == Order::Greater,
        decreases list@.len() - i,
    {
        i += 1;
    }
    if i < list.len() && exps_order(&list[i], &e) == Order::Equal {
        proof {
            lemma_grevlex_equal(s[i as int], e@);
            assert(s.contains(e@));
        }
    } else {
        let ghost ev = e@;
        list.insert(i, e);
        proof {
            let r = vec_views(list@);
            assert(r =~= s.insert(i as int, ev));
            assert forall|a: int| 0 <= a < r.len() implies exps_wf(#[trigger] r[a]) by {
                if a < i {
                    assert(r[a] == s[a]);
                } else if a > i {
                    assert(r[a] == s[a - 1]);
                }
            }
            assert forall|a: int, b: int| 0 <= a < b < r.len() implies grevlex(
                #[trigger] r[a],
                #[trigger] r[b],
            ) == Order::Greater by {
                if b < i {
                    assert(r[a] == s[a] && r[b] == s[b]);
                } else if b == i {
                    assert(r[a] == s[a]);
                } else if a > i {
                    assert(r[a] == s[a - 1] && r[b] == s[b - 1]);
                } else if a == i {
                    assert(r[b] == s[b - 1]);
                    lemma_grevlex_flip(s[i as int], ev);
                    if b - 1 > i {
                        assert(grevlex(s[i as int], s[b - 1]) == Order::Greater);
                        lemma_grevlex_flip(s[i as int], s[b - 1]);
                        lemma_grevlex_trans(s[b - 1], s[i as int], ev);
                        lemma_grevlex_flip(s[b - 1], ev);
                    }
                } else {
                    assert(r[a] == s[a] && r[b] == s[b - 1]);
                }
            }
            assert forall|x: Exps|
                #![trigger r.contains(x)]
                r.contains(x) <==> (s.contains(x) || x == ev) by {
                if r.contains(x) {
                    let a = choose|a: int| 0 <= a < r.len() && r[a] == x;
                    if a < i {
                        assert(s[a] == x);
                    } else if a > i {
                        assert(s[a - 1] == x);
                    }
                }
                if s.contains(x) {
                    let a = choose|a: int| 0 <= a < s.len() && s[a] == x;
                    if a < i {
                        assert(r[a] == x);
                    } else {
                        assert(r[a + 1] == x);
                    }
                }
                if x == ev {
                    assert(r[i as int] == x);
                }
            }
        }
    }
}

/// The vector of the variable with ordinal `v` alone.
pub open spec fn unit_exps(v: int) -> Exps {
    seq![(Var { id: v as usize }, 1usize)]
}

/// The variables of a product are variables of its operands.
pub proof fn lemma_exps_mul_vars(a: Exps, b: Exps, n: int)
    requires
        forall|i: int| 0 <= i < a.len() ==> (#[trigger] a[i]).0.id < n,
        forall|i: int| 0 <= i < b.len() ==> (#[trigger] b[i]).0.id < n,
    ensures
        forall|i: int| 0 <= i < exps_mul(a, b).len() ==> (#[trigger] exps_mul(a, b)[i]).0.id < n,
    decreases a.len() + b.len(),
{
    let r = exps_mul(a, b);
    if a.len() == 0 || b.len() == 0 {
    } else {
        let a0 = a.drop_last();
        let b0 = b.drop_last();
        assert forall|i: int| 0 <= i < a0.len() implies (#[trigger] a0[i]).0.id < n by {
            assert(a0[i] == a[i]);
        }
        assert forall|i: int| 0 <= i < b0.len() implies (#[trigger] b0[i]).0.id < n by {
            assert(b0[i] == b[i]);
        }
        assert(a[a.len() - 1].0.id < n);
        assert(b[b.len() - 1].0.id < n);
        if a.last().0.id > b.last().0.id {
            lemma_exps_mul_vars(a0, b, n);
            let r0 = exps_mul(a0, b);
            assert forall|i: int| 0 <= i < r.len() implies (#[trigger] r[i]).0.id < n by {
                if i < r0.len() {
                    assert(r[i] == r0[i]);
                }
            }
        } else if a.last().0.id < b.last().0.id {
            lemma_exps_mul_vars(a, b0, n);
            let r0 = exps_mul(a, b0);
            assert forall|i: int| 0 <= i < r.len() implies (#[trigger] r[i]).0.id < n by {
                if i < r0.len() {
                    assert(r[i] == r0[i]);
                }
            }
        } else {
            lemma_exps_mul_vars(a0, b0, n);
            let r0 = exps_mul(a0, b0);
            assert forall|i: int| 0 <= i < r.len() implies (#[trigger] r[i]).0.id < n by {
                if i < r0.len() {
                    assert(r[i] == r0[i]);
                }
            }
        }
    }
}

/// The vector of one variable is well formed and has degree one.
pub proof fn lemma_unit_exps(v: int)
    requires
        0 <= v <= usize::MAX,
    ensures
        exps_wf(unit_exps(v)),
        degree(unit_exps(v)) == 1,
        unit_exps(v)[0].0.id == v,
{
    let u = unit_exps(v);
    assert(u.drop_last() =~= Seq::empty());
    assert(degree(u.drop_last()) == 0);
}

/// Puts into the list the products of `m` and each of the first `n`
/// variables.
fn extend_by_vars(list: &mut Vec<Vec<(Var, usize)>>, m: &Vec<(Var, usize)>, n: usize)
    requires
        descending(vec_views(old(list)@)),
        exps_wf(m@),
        degree(m@) < usize::MAX,
    ensures
        descending(vec_views(final(list)@)),
        forall|x: Exps|
            #![trigger vec_views(final(list)@).contains(x)]
            vec_views(final(list)@).contains(x) <==> (vec_views(old(list)@).contains(x)
                || exists|v: int| 0 <= v < n && x == exps_mul(m@, #[trigger] unit_exps(v))),
{
    let ghost l0 = vec_views(list@);
    let mut v: usize = 0;
    while v < n
        invariant
            v <= n,
            exps_wf(m@),
            degree(m@) < usize::MAX,
            descending(vec_views(list@)),
            forall|x: Exps|
                #![trigger vec_views(list@).contains(x)]
                vec_views(list@).contains(x) <==> (l0.contains(x) || exists|v0: int|
                    0 <= v0 < v && x == exps_mul(m@, #[trigger] unit_exps(v0))),
        decreases n - v,
    {
        let ghost before = vec_views(list@);
        let mut one: Vec<(Var, usize)> = Vec::new();
        one.push((Var { id: v }, 1));
        proof {
            lemma_unit_exps(v as int);
            assert(one@ =~= unit_exps(v as int));
        }
        match exps_product(m, &one) {
            Some(e) => {
                insert_exps(list, e);
            },
            None => {},
        }
        proof {
            let now = vec_views(list@);
            let p = exps_mul(m@, unit_exps(v as int));
            assert forall|x: Exps|
                #![trigger now.contains(x)]
                now.contains(x) <==> (l0.contains(x) || exists|v0: int|
                    0 <= v0 < v + 1 && x == exps_mul(m@, #[trigger] unit_exps(v0))) by {
                assert(now.contains(x) <==> (before.contains(x) || x == p));
                if exists|v0: int| 0 <= v0 < v && x == exps_mul(m@, #[trigger] unit_exps(v0)) {
                    let v0 = choose|v0: int|
                        0 <= v0 < v && x == exps_mul(m@, #[trigger] unit_exps(v0));
                    assert(0 <= v0 < v + 1 && x == exps_mul(m@, unit_exps(v0)));
                }
                if exists|v0: int|
                    0 <= v0 < v + 1 && x == exps_mul(m@, #[trigger] unit_exps(v0)) {
                    let v0 = choose|v0: int|
                        0 <= v0 < v + 1 && x == exps_mul(m@, #[trigger] unit_exps(v0));
                    if v0 < v {
                        assert(before.contains(x));
                    }
                }
                if x == p {
                    assert(0 <= v < v + 1 && x == exps_mul(m@, unit_exps(v as int)));
                }
            }
        }
        v += 1;
    }
}

/// A copy of a list of vectors.
fn dup_list(list: &Vec<Vec<(Var, usize)>>) -> (r: Vec<Vec<(Var, usize)>>)
    ensures
        vec_views(r@) == vec_views(list@),
{
    let mut r: Vec<Vec<(Var, usize)>> = Vec::new();
    let mut i: usize = 0;
    while i < list.len()
        invariant
            i <= list@.len(),
            r@.len() == i,
            forall|j: int| 0 <= j < i ==> (#[trigger] r@[j])@ == list@[j]@,
        decreases list@.len() - i,
    {
        r.push(exps_dup(&list[i]));
        i += 1;
    }
    assert(vec_views(r@) =~= vec_views(list@));
    r
}

/// The vectors of total degree at most `d` in the first `n` variables, in
/// descending order.
pub fn exps_up_to(n: usize, d: usize) -> (list: Vec<Vec<(Var, usize)>>)
    ensures
        lists_box(vec_views(list@), n as int, d as int),
        vec_views(list@) == monomials(n as int, d as int),
        list@.len() > 0,
{
    let mut list: Vec<Vec<(Var, usize)>> = Vec::new();
    list.push(Vec::new());
    let mut s: usize = 0;
    proof {
        let l = vec_views(list@);
        let e0 = Seq::<(Var, usize)>::empty();
        assert(l[0] == e0);
        assert forall|e: Exps| in_box(e, n as int, 0) <==> #[trigger] l.contains(e) by {
            if in_box(e, n as int, 0) {
                if e.len() > 0 {
                    lemma_degree_nonneg(e.drop_last());
                    assert(e[e.len() - 1].1 > 0);
                }
                assert(e =~= e0);
                assert(l[0] == e);
            }
            if l.contains(e) {
                assert(e == e0);
            }
        }
    }
    while s < d
        invariant
            s <= d,
            list@.len() > 0,
            lists_box(vec_views(list@), n as int, s as int),
        decreases d - s,
    {
        let prev = dup_list(&list);
        let ghost p = vec_views(prev@);
        let mut a: usize = 0;
        while a < prev.len()
            invariant
                a <= prev@.len(),
                s < d,
                list@.len() > 0,
                p == vec_views(prev@),
                lists_box(p, n as int, s as int),
                descending(vec_views(list@)),
                forall|x: Exps|
                    #![trigger vec_views(list@).contains(x)]
                    vec_views(list@).contains(x) <==> (p.contains(x) || exists|a0: int, v: int|
                        0 <= a0 < a && 0 <= v < n && x == exps_mul(
                            #[trigger] p[a0],
                            #[trigger] unit_exps(v),
                        )),
            decreases prev@.len() - a,
        {
            let ghost before = vec_views(list@);
            proof {
                assert(p[a as int] == prev@[a as int]@);
                assert(p.contains(p[a as int]));
                assert(in_box(p[a as int], n as int, s as int));
            }
            extend_by_vars(&mut list, &prev[a], n);
            proof {
                let now = vec_views(list@);
                let m = p[a as int];
                assert(now.contains(m));
                assert forall|x: Exps|
                    #![trigger now.contains(x)]
                    now.contains(x) <==> (p.contains(x) || exists|a0: int, v: int|
                        0 <= a0 < a + 1 && 0 <= v < n && x == exps_mul(
                            #[trigger] p[a0],
                            #[trigger] unit_exps(v),
                        )) by {
                    assert(now.contains(x) <==> (before.contains(x) || exists|v: int|
                        0 <= v < n && x == exps_mul(m, #[trigger] unit_exps(v))));
                    if exists|a0: int, v: int|
                        0 <= a0 < a && 0 <= v < n && x == exps_mul(
                            #[trigger] p[a0],
                            #[trigger] unit_exps(v),
                        ) {
                        let (a0, v) = choose|a0: int, v: int|
                            0 <= a0 < a && 0 <= v < n && x == exps_mul(
                                #[trigger] p[a0],
                                #[trigger] unit_exps(v),
                            );
                        assert(0 <= a0 < a + 1 && 0 <= v < n && x == exps_mul(
                            p[a0],
                            unit_exps(v),
                        ));
                    }
                    if exists|v: int| 0 <= v < n && x == exps_mul(m, #[trigger] unit_exps(v)) {
                        let v = choose|v: int|
                            0 <= v < n && x == exps_mul(m, #[trigger] unit_exps(v));
                        assert(0 <= a < a + 1 && 0 <= v < n && x == exps_mul(
                            p[a as int],
                            unit_exps(v),
                        ));
                    }
                    if exists|a0: int, v: int|
                        0 <= a0 < a + 1 && 0 <= v < n && x == exps_mul(
                            #[trigger] p[a0],
                            #[trigger] unit_exps(v),
                        ) {
                        let (a0, v) = choose|a0: int, v: int|
                            0 <= a0 < a + 1 && 0 <= v < n && x == exps_mul(
                                #[trigger] p[a0],
                                #[trigger] unit_exps(v),
                            );
                        if a0 < a {
                            assert(before.contains(x));
                        } else {
                            assert(x == exps_mul(m, unit_exps(v)));
                        }
                    }
                }
                assert(list@.len() > 0);
            }
            a += 1;
        }
        proof {
            let l = vec_views(list@);
            assert forall|e: Exps| in_box(e, n as int, s + 1) <==> #[trigger] l.contains(e) by {
                if in_box(e, n as int, s + 1) {
                    if degree(e) <= s {
                        assert(in_box(e, n as int, s as int));
                        assert(p.contains(e));
                    } else {
                        assert(e.len() > 0);
                        lemma_split_last(e);
                        let e1 = lower_last(e);
                        let v = e.last().0.id as int;
                        assert(e[e.len() - 1].0.id < n);
                        assert(unit_exps(v) == seq![(e.last().0, 1usize)]);
                        assert forall|i: int| 0 <= i < e1.len() implies (#[trigger] e1[i]).0.id
                            < n by {
                            let j = choose|j: int| 0 <= j < e.len() && e1[i].0 == e[j].0;
                            assert(e[j].0.id < n);
                        }
                        assert(in_box(e1, n as int, s as int));
                        assert(p.contains(e1));
                        let a0 = choose|a0: int| 0 <= a0 < p.len() && p[a0] == e1;
                        assert(0 <= a0 < prev@.len() && 0 <= v < n && e == exps_mul(
                            p[a0],
                            unit_exps(v),
                        ));
                    }
                }
                if l.contains(e) {
                    if p.contains(e) {
                        assert(in_box(e, n as int, s as int));
                    } else {
                        let (a0, v) = choose|a0: int, v: int|
                            0 <= a0 < prev@.len() && 0 <= v < n && e == exps_mul(
                                #[trigger] p[a0],
                                #[trigger] unit_exps(v),
                            );
                        assert(p.contains(p[a0]));
                        assert(in_box(p[a0], n as int, s as int));
                        lemma_unit_exps(v);
                        lemma_exps_mul(p[a0], unit_exps(v));
                        lemma_exps_mul_vars(p[a0], unit_exps(v), n as int);
                    }
                }
            }
        }
        s += 1;
    }
    proof {
        lemma_monomials(vec_views(list@), n as int, d as int);
    }
    list
}

/// Removing a variable keeps a vector well formed and does not raise its
/// total degree.
pub proof fn lemma_exps_remove(e: Exps, v: Var)
    requires
        exps_wf(e),
    ensures
        exps_wf(exps_set(e, v, 0)),
        degree(exps_set(e, v, 0)) <= degree(e),
        e.len() == 0 ==> exps_set(e, v, 0).len() == 0,
    decreases e.len(),
{
    lemma_exps_set(e, v, 0);
    lemma_degree_nonneg(e);
    if e.len() == 0 || e.last().0.id < v.id {
    } else if e.last().0.id == v.id {
    } else {
        let e0 = e.drop_last();
        lemma_wf_take(e, e.len() - 1);
        assert(e.take(e.len() - 1) == e0);
        lemma_exps_remove(e0, v);
        assert(exps_set(e, v, 0).drop_last() == exps_set(e0, v, 0));
    }
}

/// The exponent of the variable `v`.
pub fn exps_get(e: &Vec<(Var, usize)>, v: Var) -> (k: usize)
    ensures
        k == exp_at(e@, v),
{
    let mut i: usize = e.len();
    proof {
        assert(e@.take(e@.len() as int) == e@);
    }
    while i > 0
        invariant
            i <= e@.len(),
            exp_at(e@, v) == exp_at(e@.take(i as int), v),
        decreases i,
    {
        proof {
            assert(e@.take(i as int).drop_last() == e@.take(i - 1));
            assert(e@.take(i as int).last() == e@[i - 1]);
        }
        if e[i - 1].0.id == v.id {
            return e[i - 1].1;
        }
        i -= 1;
    }
    0
}

/// The vector without the variable `v`.
pub fn exps_without(e: &Vec<(Var, usize)>, v: Var) -> (r: Vec<(Var, usize)>)
    ensures
        r@ == exps_set(e@, v, 0),
{
    let mut r = exps_dup(e);
    set_exp(&mut r, v, 0);
    r
}

/// The variable `v` is the highest one in which `a` and `b` differ, and
/// `a` has the larger exponent there.
pub open spec fn higher(a: Exps, b: Exps, v: Var) -> bool {
    &&& exp_at(a, v) > exp_at(b, v)
    &&& forall|w: Var| w.id > v.id ==> #[trigger] exp_at(a, w) == exp_at(b, w)
}

/// In a sorted vector the last variable has the last exponent, a variable
/// above it the exponent zero, and every other variable the exponent that
/// it has in the vector without its last entry.
pub proof fn lemma_exp_at_last(e: Exps, w: Var)
    requires
        exps_sorted(e),
        e.len() > 0,
    ensures
        exps_sorted(e.drop_last()),
        exp_at(e, e.last().0) == e.last().1,
        e.last().1 > 0,
        w.id > e.last().0.id ==> exp_at(e, w) == 0 && exp_at(e.drop_last(), w) == 0,
        w.id >= e.last().0.id ==> exp_at(e.drop_last(), w) == 0,
        w != e.last().0 ==> exp_at(e, w) == exp_at(e.drop_last(), w),
        exp_at(e, w) >= 0,
    decreases e.len(),
{
    let e0 = e.drop_last();
    assert(e[e.len() - 1] == e.last());
    assert forall|i: int| 0 <= i < e0.len() implies (#[trigger] e0[i]).1 > 0 by {
        assert(e0[i] == e[i]);
    }
    assert forall|i: int, j: int| 0 <= i < j < e0.len() implies (#[trigger] e0[i]).0.id < (
    #[trigger] e0[j]).0.id by {
        assert(e0[i] == e[i] && e0[j] == e[j]);
    }
    if e0.len() > 0 {
        assert(e[e.len() - 2].0.id < e[e.len() - 1].0.id);
        assert(e0.last() == e[e.len() - 2]);
        lemma_exp_at_last(e0, w);
        lemma_exp_at_last(e0, e.last().0);
    } else {
        assert(exp_at(e0, w) == 0);
        assert(exp_at(e0, e.last().0) == 0);
    }
}

/// The comparison yields `Greater` exactly when the first vector has the
/// larger exponent in the highest variable in which the two differ.
pub proof fn lemma_revlex_greater(a: Exps, b: Exps)
    requires
        exps_sorted(a),
        exps_sorted(b),
    ensures
        revlex(a, b) == Order::Greater <==> exists|v: Var| higher(a, b, v),
    decreases a.len() + b.len(),
{
    let zero = Var { id: 0 };
    if a.len() == 0 && b.len() == 0 {
        assert forall|v: Var| !higher(a, b, v) by {}
    } else if a.len() == 0 {
        assert forall|v: Var| !higher(a, b, v) by {
            lemma_exp_at_last(b, v);
        }
    } else if b.len() == 0 {
        let u = a.last().0;
        lemma_exp_at_last(a, u);
        assert forall|w: Var| w.id > u.id implies #[trigger] exp_at(a, w) == exp_at(b, w) by {
            lemma_exp_at_last(a, w);
        }
        assert(higher(a, b, u));
    } else {
        let ua = a.last().0;
        let ub = b.last().0;
        lemma_exp_at_last(a, ua);
        lemma_exp_at_last(b, ub);
        if ua.id > ub.id {
            lemma_exp_at_last(b, ua);
            assert forall|w: Var| w.id > ua.id implies #[trigger] exp_at(a, w) == exp_at(b, w) by {
                lemma_exp_at_last(a, w);
                lemma_exp_at_last(b, w);
            }
            assert(higher(a, b, ua));
        } else if ua.id < ub.id {
            assert forall|v: Var| !higher(a, b, v) by {
                lemma_exp_at_last(a, v);
                lemma_exp_at_last(b, v);
                lemma_exp_at_last(a, ub);
                if higher(a, b, v) {
                    if v.id < ub.id {
                        assert(exp_at(a, ub) == exp_at(b, ub));
                    }
                }
            }
        } else {
            assert(ua == ub);
            if a.last().1 > b.last().1 {
                assert forall|w: Var| w.id > ua.id implies #[trigger] exp_at(a, w) == exp_at(
                    b,
                    w,
                ) by {
                    lemma_exp_at_last(a, w);
                    lemma_exp_at_last(b, w);
                }
                assert(higher(a, b, ua));
            } else if a.last().1 < b.last().1 {
                assert forall|v: Var| !higher(a, b, v) by {
                    lemma_exp_at_last(a, v);
                    lemma_exp_at_last(b, v);
                    if higher(a, b, v) {
                        if v.id < ua.id {
                            assert(exp_at(a, ua) == exp_at(b, ua));
                        }
                    }
                }
            } else {
                let a0 = a.drop_last();
                let b0 = b.drop_last();
                lemma_revlex_greater(a0, b0);
                if exists|v: Var| higher(a0, b0, v) {
                    let v = choose|v: Var| higher(a0, b0, v);
                    lemma_exp_at_last(a, v);
                    lemma_exp_at_last(b, v);
                    assert forall|w: Var| w.id > v.id implies #[trigger] exp_at(a, w) == exp_at(
                        b,
                        w,
                    ) by {
                        lemma_exp_at_last(a, w);
                        lemma_exp_at_last(b, w);
                        assert(exp_at(a0, w) == exp_at(b0, w));
                    }
                    assert(higher(a, b, v));
                }
                if exists|v: Var| higher(a, b, v) {
                    let v = choose|v: Var| higher(a, b, v);
                    lemma_exp_at_last(a, v);
                    lemma_exp_at_last(b, v);
                    assert forall|w: Var| w.id > v.id implies #[trigger] exp_at(a0, w) == exp_at(
                        b0,
                        w,
                    ) by {
                        lemma_exp_at_last(a, w);
                        lemma_exp_at_last(b, w);
                        assert(exp_at(a, w) == exp_at(b, w));
                    }
                    assert(higher(a0, b0, v));
                }
            }
        }
    }
}

/// The order is compatible with multiplication: of two vectors the lesser
/// one stays the lesser one when both are multiplied by a third.
pub proof fn lemma_grevlex_compatible(a: Exps, b: Exps, c: Exps)
    requires
        exps_wf(a),
        exps_wf(b),
        exps_wf(c),
        degree(a) + degree(c) <= usize::MAX,
        degree(b) + degree(c) <= usize::MAX,
        grevlex(a, b) == Order::Less,
    ensures
        grevlex(exps_mul(a, c), exps_mul(b, c)) == Order::Less,
{
    lemma_exps_mul(a, c);
    lemma_exps_mul(b, c);
    if degree(a) == degree(b) {
        lemma_revlex_flip(a, b);
        lemma_revlex_greater(b, a);
        let v = choose|v: Var| higher(b, a, v);
        let ac = exps_mul(a, c);
        let bc = exps_mul(b, c);
        lemma_exps_mul_at(a, c, v);
        lemma_exps_mul_at(b, c, v);
        assert forall|w: Var| w.id > v.id implies #[trigger] exp_at(bc, w) == exp_at(ac, w) by {
            lemma_exps_mul_at(a, c, w);
            lemma_exps_mul_at(b, c, w);
            assert(exp_at(b, w) == exp_at(a, w));
        }
        assert(higher(bc, ac, v));
        lemma_revlex_greater(bc, ac);
        lemma_revlex_flip(ac, bc);
    }
}

/// Two sorted vectors in which every variable has the same exponent are
/// the same vector.
pub proof fn lemma_exps_unique(a: Exps, b: Exps)
    requires
        exps_sorted(a),
        exps_sorted(b),
        forall|v: Var| exp_at(a, v) == exp_at(b, v),
    ensures
        a == b,
    decreases a.len() + b.len(),
{
    if a.len() == 0 && b.len() == 0 {
        assert(a =~= b);
    } else if a.len() == 0 {
        lemma_exp_at_last(b, b.last().0);
        assert(exp_at(a, b.last().0) == exp_at(b, b.last().0));
    } else if b.len() == 0 {
        lemma_exp_at_last(a, a.last().0);
        assert(exp_at(a, a.last().0) == exp_at(b, a.last().0));
    } else {
        let ua = a.last().0;
        let ub = b.last().0;
        lemma_exp_at_last(a, ua);
        lemma_exp_at_last(b, ub);
        lemma_exp_at_last(a, ub);
        lemma_exp_at_last(b, ua);
        assert(exp_at(a, ua) == exp_at(b, ua));
        assert(exp_at(a, ub) == exp_at(b, ub));
        assert(ua.id == ub.id);
        assert(ua == ub);
        assert(a.last() == b.last());
        let a0 = a.drop_last();
        let b0 = b.drop_last();
        assert forall|v: Var| exp_at(a0, v) == exp_at(b0, v) by {
            lemma_exp_at_last(a, v);
            lemma_exp_at_last(b, v);
            assert(exp_at(a, v) == exp_at(b, v));
        }
        lemma_exps_unique(a0, b0);
        assert(a == a0.push(a.last()));
        assert(b == b0.push(b.last()));
    }
}

/// The multiplication of exponent vectors is associative.
pub proof fn lemma_exps_mul_assoc(a: Exps, b: Exps, c: Exps)
    requires
        exps_wf(a),
        exps_wf(b),
        exps_wf(c),
        degree(a) + degree(b) + degree(c) <= usize::MAX,
    ensures
        exps_mul(exps_mul(a, b), c) == exps_mul(a, exps_mul(b, c)),
{
    lemma_degree_nonneg(a);
    lemma_degree_nonneg(b);
    lemma_degree_nonneg(c);
    lemma_exps_mul(a, b);
    lemma_exps_mul(b, c);
    let ab = exps_mul(a, b);
    let bc = exps_mul(b, c);
    lemma_exps_mul(ab, c);
    lemma_exps_mul(a, bc);
    assert forall|v: Var| exp_at(exps_mul(ab, c), v) == exp_at(exps_mul(a, bc), v) by {
        lemma_exps_mul_at(a, b, v);
        lemma_exps_mul_at(b, c, v);
        lemma_exps_mul_at(ab, c, v);
        lemma_exps_mul_at(a, bc, v);
    }
    lemma_exps_unique(exps_mul(ab, c), exps_mul(a, bc));
}

/// The multiplication of exponent vectors is commutative.
pub proof fn lemma_exps_mul_comm(a: Exps, b: Exps)
    requires
        exps_wf(a),
        exps_wf(b),
        degree(a) + degree(b) <= usize::MAX,
    ensures
        exps_mul(a, b) == exps_mul(b, a),
{
    lemma_exps_mul(a, b);
    lemma_exps_mul(b, a);
    assert forall|v: Var| exp_at(exps_mul(a, b), v) == exp_at(exps_mul(b, a), v) by {
        lemma_exps_mul_at(a, b, v);
        lemma_exps_mul_at(b, a, v);
    }
    lemma_exps_unique(exps_mul(a, b), exps_mul(b, a));
}

} // verus!
