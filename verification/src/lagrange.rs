//! Interpolation at zero recovers the constant term: the proof that shares
//! of a dealing determine the secret.

use crate::field::{
    gf_add, gf_div, gf_mul, lemma_add_laws, lemma_combine, lemma_div_cancel,
    lemma_mul_associative, lemma_mul_cancel, lemma_mul_commutative, lemma_mul_distributes,
    lemma_mul_distributes_left, lemma_mul_regroup, lemma_mul_zero_one,
};
use crate::scheme::{basis_at_zero, distinct_indices, interpolate_byte, poly_eval, sum_step};
use vstd::prelude::*;

verus! {

/// Sum over the rows `pts` of a term that depends on the row.
#[verifier::opaque]
pub open spec fn term_sum(pts: Seq<Seq<u8>>, t: spec_fn(Seq<u8>) -> u8) -> u8
    decreases pts.len(),
{
    if pts.len() == 0 {
        0
    } else {
        gf_add(term_sum(pts.drop_last(), t), t(pts.last()))
    }
}

/// The sum over no rows is zero.
pub proof fn lemma_term_sum_empty(t: spec_fn(Seq<u8>) -> u8)
    ensures
        term_sum(Seq::<Seq<u8>>::empty(), t) == 0,
{
    reveal(term_sum);
}

/// The sum over one more row.
pub proof fn lemma_term_sum_push(pts: Seq<Seq<u8>>, row: Seq<u8>, t: spec_fn(Seq<u8>) -> u8)
    ensures
        term_sum(pts.push(row), t) == gf_add(term_sum(pts, t), t(row)),
{
    reveal(term_sum);
    assert(pts.push(row).drop_last() == pts);
    assert(pts.push(row).last() == row);
}

/// The term of a row in a weighted basis sum: its basis value among `all`
/// times the weight of its index.
pub open spec fn weighted(all: Seq<Seq<u8>>, w: spec_fn(u8) -> u8) -> spec_fn(Seq<u8>) -> u8 {
    |row: Seq<u8>| gf_mul(basis_at_zero(all, row[0]), w(row[0]))
}

/// The weight that is the value of the polynomial `f`.
pub open spec fn values_of(f: Seq<u8>) -> spec_fn(u8) -> u8 {
    |x: u8| poly_eval(f, x)
}

/// A sum whose terms are a combination `a * t1 + b * t2` is that combination
/// of the sums.
pub proof fn lemma_term_sum_combination(
    pts: Seq<Seq<u8>>,
    t: spec_fn(Seq<u8>) -> u8,
    a: u8,
    t1: spec_fn(Seq<u8>) -> u8,
    b: u8,
    t2: spec_fn(Seq<u8>) -> u8,
)
    requires
        forall|i: int|
            0 <= i < pts.len() ==> t(#[trigger] pts[i]) == gf_add(
                gf_mul(a, t1(pts[i])),
                gf_mul(b, t2(pts[i])),
            ),
    ensures
        term_sum(pts, t) == gf_add(gf_mul(a, term_sum(pts, t1)), gf_mul(b, term_sum(pts, t2))),
    decreases pts.len(),
{
    reveal(term_sum);
    if pts.len() == 0 {
        lemma_mul_zero_one(a);
        lemma_mul_zero_one(b);
        lemma_add_laws(0, 0, 0);
    } else {
        let rest = pts.drop_last();
        let r = pts.last();
        assert forall|i: int| 0 <= i < rest.len() implies t(#[trigger] rest[i]) == gf_add(
            gf_mul(a, t1(rest[i])),
            gf_mul(b, t2(rest[i])),
        ) by {
            assert(rest[i] == pts[i]);
        }
        lemma_term_sum_combination(rest, t, a, t1, b, t2);
        assert(r == pts[pts.len() - 1]);
        lemma_combine(a, b, term_sum(rest, t1), term_sum(rest, t2), t1(r), t2(r));
    }
}

/// A sum whose terms are `a * t1` is `a` times the sum of `t1`.
pub proof fn lemma_term_sum_scaled(
    pts: Seq<Seq<u8>>,
    t: spec_fn(Seq<u8>) -> u8,
    a: u8,
    t1: spec_fn(Seq<u8>) -> u8,
)
    requires
        forall|i: int| 0 <= i < pts.len() ==> t(#[trigger] pts[i]) == gf_mul(a, t1(pts[i])),
    ensures
        term_sum(pts, t) == gf_mul(a, term_sum(pts, t1)),
    decreases pts.len(),
{
    reveal(term_sum);
    if pts.len() == 0 {
        lemma_mul_zero_one(a);
    } else {
        let rest = pts.drop_last();
        let r = pts.last();
        assert forall|i: int| 0 <= i < rest.len() implies t(#[trigger] rest[i]) == gf_mul(
            a,
            t1(rest[i]),
        ) by {
            assert(rest[i] == pts[i]);
        }
        lemma_term_sum_scaled(rest, t, a, t1);
        assert(r == pts[pts.len() - 1]);
        lemma_mul_distributes(a, term_sum(rest, t1), t1(r));
    }
}

/// The basis value among `all` with one more row.
pub proof fn lemma_basis_push(all: Seq<Seq<u8>>, row: Seq<u8>, xi: u8)
    ensures
        basis_at_zero(all.push(row), xi) == if row[0] != xi {
            gf_mul(basis_at_zero(all, xi), gf_div(row[0], gf_add(row[0], xi)))
        } else {
            basis_at_zero(all, xi)
        },
{
    reveal(basis_at_zero);
    assert(all.push(row).drop_last() == all);
    assert(all.push(row).last() == row);
}

/// The basis value among no rows is one.
pub proof fn lemma_basis_empty(xi: u8)
    ensures
        basis_at_zero(Seq::<Seq<u8>>::empty(), xi) == 1,
{
    reveal(basis_at_zero);
}

/// With two more rows of indices `p` and `q`, the basis value at another
/// index `x` satisfies
/// `(p + q) * basis(zs, p, q) == q * basis(zs, p) + p * basis(zs, q)`.
pub proof fn lemma_basis_two_more(zs: Seq<Seq<u8>>, prow: Seq<u8>, qrow: Seq<u8>, x: u8)
    requires
        x != prow[0],
        x != qrow[0],
    ensures
        gf_mul(gf_add(prow[0], qrow[0]), basis_at_zero(zs.push(prow).push(qrow), x)) == gf_add(
            gf_mul(qrow[0], basis_at_zero(zs.push(prow), x)),
            gf_mul(prow[0], basis_at_zero(zs.push(qrow), x)),
        ),
{
    let p: u8 = prow[0];
    let q: u8 = qrow[0];
    let b: u8 = basis_at_zero(zs, x);
    let dp: u8 = gf_add(p, x);
    let dq: u8 = gf_add(q, x);
    let fp: u8 = gf_div(p, dp);
    let fq: u8 = gf_div(q, dq);
    lemma_basis_push(zs, prow, x);
    lemma_basis_push(zs.push(prow), qrow, x);
    lemma_basis_push(zs, qrow, x);
    let whole: u8 = gf_mul(gf_mul(b, fp), fq);
    assert(basis_at_zero(zs.push(prow).push(qrow), x) == whole);
    lemma_add_laws(p, x, 0);
    lemma_add_laws(q, x, 0);
    lemma_div_cancel(p, dp);
    lemma_div_cancel(q, dq);
    assert(p ^ q == (p ^ x) ^ (q ^ x)) by (bit_vector);
    lemma_mul_distributes_left(dp, dq, whole);
    lemma_mul_regroup(dp, b, fp, fq);
    lemma_mul_regroup(dq, b, fp, fq);
    lemma_add_laws(gf_mul(p, gf_mul(b, fq)), gf_mul(q, gf_mul(b, fp)), 0);
}

/// The term of a row in a plain basis sum: its basis value among `all`.
pub open spec fn basis_of(all: Seq<Seq<u8>>) -> spec_fn(Seq<u8>) -> u8 {
    |row: Seq<u8>| basis_at_zero(all, row[0])
}

/// Rows with distinct indices keep them when the last row leaves.
pub proof fn lemma_distinct_drop_last(all: Seq<Seq<u8>>)
    requires
        all.len() >= 1,
        distinct_indices(all),
    ensures
        distinct_indices(all.drop_last()),
{
    let rest = all.drop_last();
    assert forall|i: int, j: int|
        0 <= i < rest.len() && 0 <= j < rest.len() && i != j implies (#[trigger] rest[i])[0] != (
    #[trigger] rest[j])[0] by {
        assert(rest[i] == all[i] && rest[j] == all[j]);
    }
}

/// Rows with distinct indices keep them when the row before the last
/// leaves.
pub proof fn lemma_distinct_drop_middle(zs: Seq<Seq<u8>>, prow: Seq<u8>, qrow: Seq<u8>)
    requires
        distinct_indices(zs.push(prow).push(qrow)),
    ensures
        distinct_indices(zs.push(qrow)),
        prow[0] != qrow[0],
        forall|i: int| 0 <= i < zs.len() ==> (#[trigger] zs[i])[0] != prow[0] && zs[i][0] != qrow[0],
{
    let all = zs.push(prow).push(qrow);
    let rest = zs.push(qrow);
    let m = all.len() as int;
    assert(all[m - 2] == prow && all[m - 1] == qrow);
    assert forall|i: int, j: int|
        0 <= i < rest.len() && 0 <= j < rest.len() && i != j implies (#[trigger] rest[i])[0] != (
    #[trigger] rest[j])[0] by {
        let ii = if i == m - 2 {
            m - 1
        } else {
            i
        };
        let jj = if j == m - 2 {
            m - 1
        } else {
            j
        };
        assert(rest[i] == all[ii] && rest[j] == all[jj]);
    }
    assert forall|i: int| 0 <= i < zs.len() implies (#[trigger] zs[i])[0] != prow[0] && zs[i][0]
        != qrow[0] by {
        assert(zs[i] == all[i]);
    }
}

/// The two-point relation, summed over rows whose indices are neither `p`
/// nor `q`.
pub proof fn lemma_basis_sum_two_more(
    pts: Seq<Seq<u8>>,
    zs: Seq<Seq<u8>>,
    prow: Seq<u8>,
    qrow: Seq<u8>,
)
    requires
        forall|i: int|
            0 <= i < pts.len() ==> (#[trigger] pts[i])[0] != prow[0] && pts[i][0] != qrow[0],
    ensures
        gf_mul(gf_add(prow[0], qrow[0]), term_sum(pts, basis_of(zs.push(prow).push(qrow))))
            == gf_add(
            gf_mul(qrow[0], term_sum(pts, basis_of(zs.push(prow)))),
            gf_mul(prow[0], term_sum(pts, basis_of(zs.push(qrow)))),
        ),
{
    let d: u8 = gf_add(prow[0], qrow[0]);
    let t_all = basis_of(zs.push(prow).push(qrow));
    let t_a = basis_of(zs.push(prow));
    let t_b = basis_of(zs.push(qrow));
    let t_d = |row: Seq<u8>| gf_mul(d, t_all(row));
    assert forall|i: int| 0 <= i < pts.len() implies t_d(#[trigger] pts[i]) == gf_add(
        gf_mul(qrow[0], t_a(pts[i])),
        gf_mul(prow[0], t_b(pts[i])),
    ) by {
        lemma_basis_two_more(zs, prow, qrow, pts[i][0]);
    }
    lemma_term_sum_combination(pts, t_d, qrow[0], t_a, prow[0], t_b);
    lemma_term_sum_scaled(pts, t_d, d, t_all);
}

/// The two-point relation for the two last rows themselves:
/// `(p + q) * basis(zs, p, q)(p) == q * basis(zs, p)(p)` and
/// `(p + q) * basis(zs, p, q)(q) == p * basis(zs, q)(q)`.
pub proof fn lemma_basis_two_more_ends(zs: Seq<Seq<u8>>, prow: Seq<u8>, qrow: Seq<u8>)
    requires
        prow[0] != qrow[0],
    ensures
        gf_mul(gf_add(prow[0], qrow[0]), basis_at_zero(zs.push(prow).push(qrow), prow[0]))
            == gf_mul(qrow[0], basis_at_zero(zs.push(prow), prow[0])),
        gf_mul(gf_add(prow[0], qrow[0]), basis_at_zero(zs.push(prow).push(qrow), qrow[0]))
            == gf_mul(prow[0], basis_at_zero(zs.push(qrow), qrow[0])),
{
    let p: u8 = prow[0];
    let q: u8 = qrow[0];
    let d: u8 = gf_add(p, q);
    let a_rows = zs.push(prow);
    lemma_add_laws(p, q, 0);
    lemma_add_laws(q, p, 0);
    lemma_basis_push(a_rows, qrow, p);
    lemma_basis_push(a_rows, qrow, q);
    lemma_basis_push(zs, prow, q);
    lemma_basis_push(zs, qrow, q);
    let bap: u8 = basis_at_zero(a_rows, p);
    let bzq: u8 = basis_at_zero(zs, q);
    let fq: u8 = gf_div(q, gf_add(q, p));
    let fp: u8 = gf_div(p, gf_add(p, q));
    lemma_div_cancel(q, d);
    lemma_div_cancel(p, d);
    lemma_mul_commutative(bap, fq);
    lemma_mul_associative(d, fq, bap);
    lemma_mul_commutative(bzq, fp);
    lemma_mul_associative(d, fp, bzq);
}

/// From `d * z == q * za + p * zb`, `d * ep == q * ap`, `d * eq == p * bq`,
/// `za + ap == 1` and `zb + bq == 1` with `d == p + q` not zero:
/// `z + ep + eq == 1`.
pub proof fn lemma_unity_step(
    p: u8,
    q: u8,
    z: u8,
    za: u8,
    zb: u8,
    ep: u8,
    eq: u8,
    ap: u8,
    bq: u8,
)
    requires
        p != q,
        gf_mul(gf_add(p, q), z) == gf_add(gf_mul(q, za), gf_mul(p, zb)),
        gf_mul(gf_add(p, q), ep) == gf_mul(q, ap),
        gf_mul(gf_add(p, q), eq) == gf_mul(p, bq),
        gf_add(za, ap) == 1,
        gf_add(zb, bq) == 1,
    ensures
        gf_add(gf_add(z, ep), eq) == 1,
{
    let d: u8 = gf_add(p, q);
    lemma_add_laws(p, q, 0);
    lemma_mul_distributes(d, gf_add(z, ep), eq);
    lemma_mul_distributes(d, z, ep);
    lemma_combine(q, p, za, zb, ap, bq);
    let u: u8 = gf_mul(d, z);
    let v: u8 = gf_mul(q, ap);
    let w: u8 = gf_mul(p, bq);
    assert((u ^ v) ^ w == u ^ (v ^ w)) by (bit_vector);
    lemma_mul_zero_one(q);
    lemma_mul_zero_one(p);
    lemma_mul_zero_one(d);
    lemma_add_laws(q, p, 0);
    assert(gf_mul(d, gf_add(gf_add(z, ep), eq)) == gf_mul(d, 1));
    lemma_mul_cancel(d, gf_add(gf_add(z, ep), eq), 1);
}

/// The basis value of a single row is one, and so is their sum.
pub proof fn lemma_basis_sum_single(row: Seq<u8>)
    ensures
        term_sum(seq![row], basis_of(seq![row])) == 1,
{
    let all = seq![row];
    let none = Seq::<Seq<u8>>::empty();
    assert(all == none.push(row));
    lemma_basis_empty(row[0]);
    lemma_basis_push(none, row, row[0]);
    lemma_term_sum_empty(basis_of(all));
    lemma_term_sum_push(none, row, basis_of(all));
    lemma_add_laws(1, 0, 0);
}

/// If the basis values sum to one among `zs` with `prow` and among `zs` with
/// `qrow`, they do among `zs` with both.
pub proof fn lemma_basis_sum_two_more_is_one(zs: Seq<Seq<u8>>, prow: Seq<u8>, qrow: Seq<u8>)
    requires
        prow[0] != qrow[0],
        forall|i: int| 0 <= i < zs.len() ==> (#[trigger] zs[i])[0] != prow[0] && zs[i][0] != qrow[0],
        term_sum(zs.push(prow), basis_of(zs.push(prow))) == 1,
        term_sum(zs.push(qrow), basis_of(zs.push(qrow))) == 1,
    ensures
        term_sum(zs.push(prow).push(qrow), basis_of(zs.push(prow).push(qrow))) == 1,
{
    let a_rows = zs.push(prow);
    let b_rows = zs.push(qrow);
    let all = a_rows.push(qrow);
    let t_all = basis_of(all);
    let t_a = basis_of(a_rows);
    let t_b = basis_of(b_rows);
    lemma_basis_sum_two_more(zs, zs, prow, qrow);
    lemma_basis_two_more_ends(zs, prow, qrow);
    lemma_term_sum_push(a_rows, qrow, t_all);
    lemma_term_sum_push(zs, prow, t_all);
    lemma_term_sum_push(zs, prow, t_a);
    lemma_term_sum_push(zs, qrow, t_b);
    lemma_unity_step(
        prow[0],
        qrow[0],
        term_sum(zs, t_all),
        term_sum(zs, t_a),
        term_sum(zs, t_b),
        t_all(prow),
        t_all(qrow),
        t_a(prow),
        t_b(qrow),
    );
}

/// The basis values of a list of rows with pairwise distinct indices sum to
/// one.
pub proof fn lemma_basis_sum_is_one(all: Seq<Seq<u8>>)
    requires
        all.len() >= 1,
        distinct_indices(all),
    ensures
        term_sum(all, basis_of(all)) == 1,
    decreases all.len(),
{
    let m = all.len() as int;
    let qrow = all[m - 1];
    let a_rows = all.drop_last();
    if m == 1 {
        assert(all == seq![qrow]);
        lemma_basis_sum_single(qrow);
    } else {
        let prow = all[m - 2];
        let zs = a_rows.drop_last();
        assert(a_rows == zs.push(prow));
        assert(all == zs.push(prow).push(qrow));
        lemma_distinct_drop_last(all);
        lemma_distinct_drop_middle(zs, prow, qrow);
        lemma_basis_sum_is_one(a_rows);
        lemma_basis_sum_is_one(zs.push(qrow));
        lemma_basis_sum_two_more_is_one(zs, prow, qrow);
    }
}

/// The quotient of the polynomial `f` by `X + a`: its coefficients are the
/// partial values of Horner's rule at `a`.
pub open spec fn quotient(f: Seq<u8>, a: u8) -> Seq<u8> {
    if f.len() == 0 {
        Seq::empty()
    } else {
        Seq::new((f.len() - 1) as nat, |i: int| poly_eval(f.take(i + 1), a))
    }
}

/// `(fa + d * h) * x + c == (fa * a + c) + d * (h * x + fa)` where
/// `d == x + a`.
pub proof fn lemma_division_step(fa: u8, h: u8, x: u8, a: u8, c: u8)
    ensures
        gf_add(gf_mul(gf_add(fa, gf_mul(gf_add(x, a), h)), x), c) == gf_add(
            gf_add(gf_mul(fa, a), c),
            gf_mul(gf_add(x, a), gf_add(gf_mul(h, x), fa)),
        ),
{
    let d: u8 = gf_add(x, a);
    lemma_mul_distributes_left(fa, gf_mul(d, h), x);
    lemma_mul_distributes(d, gf_mul(h, x), fa);
    lemma_mul_distributes_left(x, a, fa);
    lemma_mul_commutative(x, fa);
    lemma_mul_commutative(a, fa);
    lemma_mul_associative(d, h, x);
    let ax: u8 = gf_mul(fa, x);
    let aa: u8 = gf_mul(fa, a);
    let m: u8 = gf_mul(gf_mul(d, h), x);
    assert((ax ^ m) ^ c == (aa ^ c) ^ (m ^ (ax ^ aa))) by (bit_vector);
}

/// Division with remainder by `X + a`: the remainder is the value at `a`.
pub proof fn lemma_division(f: Seq<u8>, a: u8, x: u8)
    ensures
        poly_eval(f, x) == gf_add(
            poly_eval(f, a),
            gf_mul(gf_add(x, a), poly_eval(quotient(f, a), x)),
        ),
    decreases f.len(),
{
    let h = quotient(f, a);
    let d: u8 = gf_add(x, a);
    lemma_mul_zero_one(d);
    lemma_add_laws(0, 0, 0);
    if f.len() == 0 {
    } else if f.len() == 1 {
        let rest = f.drop_last();
        assert(poly_eval(rest, x) == 0);
        assert(poly_eval(rest, a) == 0);
        lemma_mul_zero_one(x);
        lemma_mul_zero_one(a);
        lemma_add_laws(f.last(), 0, 0);
        lemma_add_laws(poly_eval(f, a), 0, 0);
    } else {
        let rest = f.drop_last();
        let hr = quotient(rest, a);
        assert(h.drop_last() == hr) by {
            assert forall|i: int| 0 <= i < hr.len() implies h.drop_last()[i] == hr[i] by {
                assert(f.take(i + 1) == rest.take(i + 1));
            }
        }
        assert(h.last() == poly_eval(rest, a)) by {
            assert(f.take(f.len() - 1) == rest);
        }
        lemma_division(rest, a, x);
        lemma_division_step(poly_eval(rest, a), poly_eval(hr, x), x, a, f.last());
    }
}

/// The term of one row in the inductive step: for a row whose index is not
/// that of `qrow`,
/// `basis(rest, qrow)(x) * f(x) == f(q) * basis(rest, qrow)(x) + q * (basis(rest)(x) * h(x))`
/// where `h` is the quotient of `f` by `X + q`.
pub proof fn lemma_term_step(rest: Seq<Seq<u8>>, qrow: Seq<u8>, f: Seq<u8>, row: Seq<u8>)
    requires
        row[0] != qrow[0],
    ensures
        weighted(rest.push(qrow), values_of(f))(row) == gf_add(
            gf_mul(poly_eval(f, qrow[0]), basis_of(rest.push(qrow))(row)),
            gf_mul(qrow[0], weighted(rest, values_of(quotient(f, qrow[0])))(row)),
        ),
{
    let q: u8 = qrow[0];
    let x: u8 = row[0];
    let h = quotient(f, q);
    let b: u8 = basis_at_zero(rest, x);
    let fac: u8 = gf_div(q, gf_add(q, x));
    let whole: u8 = basis_at_zero(rest.push(qrow), x);
    let hx: u8 = poly_eval(h, x);
    let fq: u8 = poly_eval(f, q);
    lemma_basis_push(rest, qrow, x);
    lemma_division(f, q, x);
    lemma_add_laws(q, x, 0);
    lemma_add_laws(x, q, 0);
    let d: u8 = gf_add(q, x);
    lemma_div_cancel(q, d);
    lemma_mul_distributes(whole, fq, gf_mul(d, hx));
    lemma_mul_commutative(whole, fq);
    // whole * (d * hx) == (d * fac) * (b * hx)
    lemma_mul_commutative(whole, gf_mul(d, hx));
    lemma_mul_associative(d, hx, whole);
    lemma_mul_commutative(hx, gf_mul(b, fac));
    lemma_mul_commutative(b, fac);
    lemma_mul_associative(fac, b, hx);
    lemma_mul_associative(d, fac, gf_mul(b, hx));
}

/// The inductive step summed over rows whose indices are not that of
/// `qrow`.
pub proof fn lemma_sum_step(pts: Seq<Seq<u8>>, rest: Seq<Seq<u8>>, qrow: Seq<u8>, f: Seq<u8>)
    requires
        forall|i: int| 0 <= i < pts.len() ==> (#[trigger] pts[i])[0] != qrow[0],
    ensures
        term_sum(pts, weighted(rest.push(qrow), values_of(f))) == gf_add(
            gf_mul(poly_eval(f, qrow[0]), term_sum(pts, basis_of(rest.push(qrow)))),
            gf_mul(qrow[0], term_sum(pts, weighted(rest, values_of(quotient(f, qrow[0]))))),
        ),
{
    let t = weighted(rest.push(qrow), values_of(f));
    let t1 = basis_of(rest.push(qrow));
    let t2 = weighted(rest, values_of(quotient(f, qrow[0])));
    assert forall|i: int| 0 <= i < pts.len() implies t(#[trigger] pts[i]) == gf_add(
        gf_mul(poly_eval(f, qrow[0]), t1(pts[i])),
        gf_mul(qrow[0], t2(pts[i])),
    ) by {
        lemma_term_step(rest, qrow, f, pts[i]);
    }
    lemma_term_sum_combination(pts, t, poly_eval(f, qrow[0]), t1, qrow[0], t2);
}

/// From `s == fq * s1 + q * h0`, `s1 + bq == 1` and `f0 == fq + q * h0`:
/// `s + bq * fq == f0`.
pub proof fn lemma_final_step(s: u8, fq: u8, s1: u8, q: u8, h0: u8, bq: u8, f0: u8)
    requires
        s == gf_add(gf_mul(fq, s1), gf_mul(q, h0)),
        gf_add(s1, bq) == 1,
        f0 == gf_add(fq, gf_mul(q, h0)),
    ensures
        gf_add(s, gf_mul(bq, fq)) == f0,
{
    lemma_mul_distributes(fq, s1, bq);
    lemma_mul_zero_one(fq);
    lemma_mul_commutative(bq, fq);
    let u: u8 = gf_mul(fq, s1);
    let v: u8 = gf_mul(q, h0);
    let w: u8 = gf_mul(fq, bq);
    assert((u ^ v) ^ w == (u ^ w) ^ v) by (bit_vector);
}

/// Lagrange interpolation at zero: for rows with pairwise distinct indices
/// and a polynomial with no more coefficients than there are rows, the basis
/// values weighted with the polynomial's values sum to its value at zero.
pub proof fn lemma_interpolation_at_zero(all: Seq<Seq<u8>>, f: Seq<u8>)
    requires
        distinct_indices(all),
        f.len() <= all.len(),
    ensures
        term_sum(all, weighted(all, values_of(f))) == poly_eval(f, 0),
    decreases all.len(),
{
    if all.len() == 0 {
        assert(all == Seq::<Seq<u8>>::empty());
        lemma_term_sum_empty(weighted(all, values_of(f)));
    } else {
        let qrow = all.last();
        let q: u8 = qrow[0];
        let rest = all.drop_last();
        let h = quotient(f, q);
        assert(all == rest.push(qrow));
        lemma_distinct_drop_last(all);
        lemma_interpolation_at_zero(rest, h);
        lemma_basis_sum_is_one(all);
        assert forall|i: int| 0 <= i < rest.len() implies (#[trigger] rest[i])[0] != qrow[0] by {
            assert(rest[i] == all[i]);
            assert(qrow == all[all.len() - 1]);
        }
        lemma_sum_step(rest, rest, qrow, f);
        lemma_term_sum_push(rest, qrow, weighted(all, values_of(f)));
        lemma_term_sum_push(rest, qrow, basis_of(all));
        lemma_division(f, q, 0);
        lemma_add_laws(q, 0, 0);
        lemma_final_step(
            term_sum(rest, weighted(all, values_of(f))),
            poly_eval(f, q),
            term_sum(rest, basis_of(all)),
            q,
            poly_eval(h, 0),
            basis_at_zero(all, q),
            poly_eval(f, 0),
        );
    }
}

/// The interpolation sum over rows whose value at `pos` is the weight of
/// their index is the weighted basis sum.
pub proof fn lemma_fold_is_term_sum(
    pts: Seq<Seq<u8>>,
    all: Seq<Seq<u8>>,
    pos: int,
    w: spec_fn(u8) -> u8,
)
    requires
        forall|i: int| 0 <= i < pts.len() ==> (#[trigger] pts[i])[pos + 1] == w(pts[i][0]),
    ensures
        pts.fold_left(0u8, sum_step(all, pos)) == term_sum(pts, weighted(all, w)),
    decreases pts.len(),
{
    reveal(term_sum);
    if pts.len() > 0 {
        let rest = pts.drop_last();
        assert forall|i: int| 0 <= i < rest.len() implies (#[trigger] rest[i])[pos + 1] == w(
            rest[i][0],
        ) by {
            assert(rest[i] == pts[i]);
        }
        lemma_fold_is_term_sum(rest, all, pos, w);
        assert(pts.last() == pts[pts.len() - 1]);
    }
}

/// The value at zero of a polynomial is its constant term.
pub proof fn lemma_value_at_zero(f: Seq<u8>)
    requires
        f.len() >= 1,
    ensures
        poly_eval(f, 0) == f.last(),
{
    lemma_mul_zero_one(poly_eval(f.drop_last(), 0));
    lemma_add_laws(f.last(), 0, 0);
}

/// Interpolating at `pos` rows that hold there the values of a polynomial
/// with no more coefficients than there are rows gives its constant term.
pub proof fn lemma_interpolate_byte_of_values(rows: Seq<Seq<u8>>, pos: int, f: Seq<u8>)
    requires
        distinct_indices(rows),
        1 <= f.len() <= rows.len(),
        forall|i: int| 0 <= i < rows.len() ==> (#[trigger] rows[i])[pos + 1] == poly_eval(f, rows[i][0]),
    ensures
        interpolate_byte(rows, pos) == f.last(),
{
    lemma_fold_is_term_sum(rows, rows, pos, values_of(f));
    lemma_interpolation_at_zero(rows, f);
    lemma_value_at_zero(f);
}

} // verus!
