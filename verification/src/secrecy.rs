//! Fewer shares than the threshold fit every secret: whatever secret one
//! supposes, some dealing of it yields the very same shares.

use crate::field::{
    gf_add, gf_div, gf_mul, lemma_add_laws, lemma_div_cancel, lemma_mul_associative,
    lemma_mul_commutative, lemma_mul_distributes, lemma_mul_distributes_left, lemma_mul_zero_one,
};
use crate::lagrange::lemma_value_at_zero;
use crate::scheme::{distinct_indices, is_dealing, is_dealt, poly_eval};
use crate::sss::valid_split;
use crate::theorems::lemma_chosen_shape;
use vstd::prelude::*;

verus! {

/// The coefficients of the polynomial `d` times `X + a`.
pub open spec fn times_linear(d: Seq<u8>, a: u8) -> Seq<u8>
    decreases d.len(),
{
    if d.len() == 0 {
        seq![0u8]
    } else {
        let r = times_linear(d.drop_last(), a);
        r.update(r.len() - 1, gf_add(r.last(), d.last())).push(gf_mul(a, d.last()))
    }
}

/// The polynomial `c` with `v` added to its constant term.
pub open spec fn plus_constant(c: Seq<u8>, v: u8) -> Seq<u8> {
    c.update(c.len() - 1, gf_add(c.last(), v))
}

/// Adding to the constant term adds to every value.
pub proof fn lemma_plus_constant(c: Seq<u8>, v: u8, x: u8)
    requires
        c.len() >= 1,
    ensures
        plus_constant(c, v).len() == c.len(),
        poly_eval(plus_constant(c, v), x) == gf_add(poly_eval(c, x), v),
{
    let c2 = plus_constant(c, v);
    assert(c2.drop_last() =~= c.drop_last());
    lemma_add_laws(gf_mul(poly_eval(c.drop_last(), x), x), c.last(), v);
}

/// `(e * (x + a) + l) * x + a * l == (e * x + l) * (x + a)`.
pub proof fn lemma_times_linear_step(e: u8, l: u8, x: u8, a: u8)
    ensures
        gf_add(gf_mul(gf_add(gf_mul(e, gf_add(x, a)), l), x), gf_mul(a, l)) == gf_mul(
            gf_add(gf_mul(e, x), l),
            gf_add(x, a),
        ),
{
    let d: u8 = gf_add(x, a);
    lemma_mul_distributes_left(gf_mul(e, d), l, x);
    lemma_mul_distributes_left(gf_mul(e, x), l, d);
    lemma_mul_distributes(l, x, a);
    lemma_mul_commutative(a, l);
    lemma_mul_associative(e, d, x);
    lemma_mul_associative(e, x, d);
    lemma_mul_commutative(d, x);
    let u: u8 = gf_mul(gf_mul(e, d), x);
    let v: u8 = gf_mul(l, x);
    let w: u8 = gf_mul(l, a);
    assert((u ^ v) ^ w == u ^ (v ^ w)) by (bit_vector);
}

/// The values of `d` times `X + a` are those of `d` times `x + a`.
pub proof fn lemma_times_linear(d: Seq<u8>, a: u8, x: u8)
    ensures
        times_linear(d, a).len() == d.len() + 1,
        poly_eval(times_linear(d, a), x) == gf_mul(poly_eval(d, x), gf_add(x, a)),
    decreases d.len(),
{
    if d.len() == 0 {
        assert(seq![0u8].drop_last() =~= Seq::<u8>::empty());
        assert(poly_eval(seq![0u8].drop_last(), x) == 0);
        lemma_mul_zero_one(x);
        lemma_mul_zero_one(gf_add(x, a));
        lemma_add_laws(0, 0, 0);
    } else {
        let rest = d.drop_last();
        let r = times_linear(rest, a);
        lemma_times_linear(rest, a, x);
        let r2 = plus_constant(r, d.last());
        let full = r2.push(gf_mul(a, d.last()));
        assert(times_linear(d, a) == full);
        assert(full.drop_last() =~= r2);
        lemma_plus_constant(r, d.last(), x);
        lemma_times_linear_step(poly_eval(rest, x), d.last(), x, a);
    }
}

/// Through any points with pairwise distinct abscissas there passes a
/// polynomial with `k` coefficients, as long as `k` is at least the number
/// of points.
pub proof fn lemma_polynomial_through(xs: Seq<u8>, ys: Seq<u8>, k: nat) -> (c: Seq<u8>)
    requires
        xs.no_duplicates(),
        xs.len() == ys.len(),
        xs.len() <= k,
    ensures
        c.len() == k,
        forall|i: int| 0 <= i < xs.len() ==> poly_eval(c, #[trigger] xs[i]) == ys[i],
    decreases xs.len(),
{
    if xs.len() == 0 {
        Seq::new(k, |i: int| 0u8)
    } else {
        let x0: u8 = xs[0];
        let y0: u8 = ys[0];
        let xr = xs.drop_first();
        let yr = Seq::new(
            (xs.len() - 1) as nat,
            |i: int| gf_div(gf_add(ys[i + 1], y0), gf_add(xs[i + 1], x0)),
        );
        assert(xr.no_duplicates()) by {
            assert forall|i: int, j: int| 0 <= i < xr.len() && 0 <= j < xr.len() && i != j implies xr[i]
                != xr[j] by {
                assert(xr[i] == xs[i + 1] && xr[j] == xs[j + 1]);
            }
        }
        let d = lemma_polynomial_through(xr, yr, (k - 1) as nat);
        let m = times_linear(d, x0);
        let c = plus_constant(m, y0);
        assert forall|i: int| 0 <= i < xs.len() implies poly_eval(c, #[trigger] xs[i]) == ys[i] by {
            let x: u8 = xs[i];
            lemma_times_linear(d, x0, x);
            lemma_plus_constant(m, y0, x);
            lemma_add_laws(x, x0, 0);
            if i == 0 {
                lemma_mul_zero_one(poly_eval(d, x));
                lemma_add_laws(y0, 0, 0);
            } else {
                assert(xr[i - 1] == xs[i]);
                assert(poly_eval(d, xr[i - 1]) == yr[i - 1]);
                assert(xs[i] != xs[0]);
                let yi: u8 = ys[i];
                let t: u8 = gf_add(yi, y0);
                lemma_div_cancel(t, gf_add(x, x0));
                lemma_mul_commutative(gf_div(t, gf_add(x, x0)), gf_add(x, x0));
                assert((t ^ y0) == yi) by (bit_vector)
                    requires
                        t == yi ^ y0,
                ;
            }
        }
        lemma_times_linear(d, x0, x0);
        lemma_plus_constant(m, y0, x0);
        c
    }
}

/// The polynomial `c` has `k` coefficients, the constant term `v`, and at
/// the index of each row of `chosen` the value that the row holds at `pos`.
pub open spec fn fits(c: Seq<u8>, k: u8, chosen: Seq<Seq<u8>>, pos: int, v: u8) -> bool {
    &&& c.len() == k
    &&& c.last() == v
    &&& forall|i: int|
        0 <= i < chosen.len() ==> poly_eval(c, (#[trigger] chosen[i])[0]) == chosen[i][pos + 1]
}

/// Fewer than `k` rows with distinct indices, none of them zero, leave the
/// constant term of a polynomial with `k` coefficients open: for every `v`
/// there is one that fits.
pub proof fn lemma_fitting_polynomial(chosen: Seq<Seq<u8>>, k: u8, pos: int, v: u8)
    requires
        distinct_indices(chosen),
        forall|i: int| 0 <= i < chosen.len() ==> (#[trigger] chosen[i])[0] != 0,
        chosen.len() < k,
    ensures
        exists|c: Seq<u8>| fits(c, k, chosen, pos, v),
{
    let xs = seq![0u8] + Seq::new(chosen.len(), |i: int| chosen[i][0]);
    let ys = seq![v] + Seq::new(chosen.len(), |i: int| chosen[i][pos + 1]);
    assert(xs.no_duplicates()) by {
        assert forall|i: int, j: int| 0 <= i < xs.len() && 0 <= j < xs.len() && i != j implies xs[i]
            != xs[j] by {
            if i > 0 {
                assert(xs[i] == chosen[i - 1][0]);
            }
            if j > 0 {
                assert(xs[j] == chosen[j - 1][0]);
            }
        }
    }
    let c = lemma_polynomial_through(xs, ys, k as nat);
    assert(poly_eval(c, xs[0]) == ys[0]);
    lemma_value_at_zero(c);
    assert forall|i: int| 0 <= i < chosen.len() implies poly_eval(c, (#[trigger] chosen[i])[0])
        == chosen[i][pos + 1] by {
        assert(xs[i + 1] == chosen[i][0]);
        assert(poly_eval(c, xs[i + 1]) == ys[i + 1]);
    }
    assert(fits(c, k, chosen, pos, v));
}

/// Share `i` of the dealing from the polynomials `coeffs`.
pub open spec fn dealt_row(coeffs: Seq<Seq<u8>>, i: int) -> Seq<u8> {
    seq![(i + 1) as u8] + Seq::new(coeffs.len(), |pos: int| poly_eval(coeffs[pos], (i + 1) as u8))
}

/// Fewer shares than the threshold say nothing of the secret: for every
/// other secret of the same length there is a dealing with the same
/// threshold that yields those very shares.
pub proof fn lemma_fewer_shares_fit_any_secret(
    secret: Seq<u8>,
    k: u8,
    n: u8,
    rows: Seq<Seq<u8>>,
    chosen: Seq<Seq<u8>>,
    other: Seq<u8>,
)
    requires
        valid_split(secret.len(), k, n),
        is_dealt(secret, k, n, rows),
        chosen.len() < k,
        chosen.no_duplicates(),
        forall|i: int| 0 <= i < chosen.len() ==> rows.contains(#[trigger] chosen[i]),
        other.len() == secret.len(),
    ensures
        exists|others: Seq<Seq<u8>>|
            #![trigger is_dealt(other, k, n, others)]
            is_dealt(other, k, n, others) && forall|i: int|
                0 <= i < chosen.len() ==> others.contains(#[trigger] chosen[i]),
{
    let coeffs = choose|c: Seq<Seq<u8>>| is_dealing(secret, k, c, rows);
    lemma_chosen_shape(secret, k, coeffs, rows, chosen);
    assert forall|i: int| 0 <= i < chosen.len() implies (#[trigger] chosen[i])[0] != 0 by {
        let j = choose|j: int| 0 <= j < rows.len() && rows[j] == chosen[i];
        assert(rows[j][0] == j + 1);
    }
    let fitted = Seq::new(
        other.len(),
        |pos: int| choose|c: Seq<u8>| fits(c, k, chosen, pos, other[pos]),
    );
    assert forall|pos: int| 0 <= pos < other.len() implies fits(
        #[trigger] fitted[pos],
        k,
        chosen,
        pos,
        other[pos],
    ) by {
        lemma_fitting_polynomial(chosen, k, pos, other[pos]);
    }
    let others = Seq::new(n as nat, |i: int| dealt_row(fitted, i));
    assert(is_dealing(other, k, fitted, others)) by {
        assert forall|j: int| 0 <= j < other.len() implies (#[trigger] fitted[j]).len() == k
            && fitted[j].last() == other[j] by {
            assert(fits(fitted[j], k, chosen, j, other[j]));
        }
        assert forall|i: int| 0 <= i < others.len() implies (#[trigger] others[i]).len()
            == other.len() + 1 && others[i][0] == i + 1 by {
            assert(others[i] == dealt_row(fitted, i));
        }
        assert forall|i: int, j: int|
            0 <= i < others.len() && 0 <= j < other.len() implies #[trigger] others[i][j + 1]
            == poly_eval(fitted[j], others[i][0]) by {
            assert(others[i] == dealt_row(fitted, i));
        }
    }
    assert forall|a: int| 0 <= a < chosen.len() implies others.contains(#[trigger] chosen[a]) by {
        let j = choose|j: int| 0 <= j < rows.len() && rows[j] == chosen[a];
        assert(rows[j][0] == j + 1);
        assert(others[j] == dealt_row(fitted, j));
        assert(others[j] =~= chosen[a]) by {
            assert(chosen[a].len() == secret.len() + 1);
            assert forall|p: int| 0 <= p < others[j].len() implies others[j][p] == chosen[a][p] by {
                if p > 0 {
                    let pos = p - 1;
                    assert(fits(fitted[pos], k, chosen, pos, other[pos]));
                    assert(poly_eval(fitted[pos], chosen[a][0]) == chosen[a][pos + 1]);
                }
            }
        }
    }
    assert(is_dealt(other, k, n, others));
}

} // verus!
