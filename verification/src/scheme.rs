//! The sharing scheme as mathematics: polynomials over GF(2^8), the shape of
//! a dealing, and interpolation at zero.
//!
//! A share travels as a row of bytes: its index first, then one value for each
//! byte of the secret.

use crate::field::{gf_add, gf_div, gf_mul};
use vstd::prelude::*;

verus! {

/// Value at `x` of the polynomial with coefficients `c`, highest degree
/// first, by Horner's rule.
pub open spec fn poly_eval(c: Seq<u8>, x: u8) -> u8
    decreases c.len(),
{
    if c.len() == 0 {
        0
    } else {
        gf_add(gf_mul(poly_eval(c.drop_last(), x), x), c.last())
    }
}

/// `rows` are the first shares of `secret` dealt with threshold `k` from the
/// polynomials `coeffs`: one polynomial of `k` coefficients for each secret
/// byte, with that byte as its constant term; share `i` has index `i + 1` and
/// holds the value of every polynomial at its index.
pub open spec fn is_dealing(secret: Seq<u8>, k: u8, coeffs: Seq<Seq<u8>>, rows: Seq<Seq<u8>>) -> bool {
    &&& coeffs.len() == secret.len()
    &&& forall|j: int|
        0 <= j < secret.len() ==> (#[trigger] coeffs[j]).len() == k && coeffs[j].last()
            == secret[j]
    &&& rows.len() <= 255
    &&& forall|i: int|
        0 <= i < rows.len() ==> (#[trigger] rows[i]).len() == secret.len() + 1 && rows[i][0] == i
            + 1
    &&& forall|i: int, j: int|
        0 <= i < rows.len() && 0 <= j < secret.len() ==> #[trigger] rows[i][j + 1] == poly_eval(
            coeffs[j],
            rows[i][0],
        )
}

/// `rows` are the `n` shares of some dealing of `secret` with threshold `k`.
pub open spec fn is_dealt(secret: Seq<u8>, k: u8, n: u8, rows: Seq<Seq<u8>>) -> bool {
    rows.len() == n && exists|coeffs: Seq<Seq<u8>>| is_dealing(secret, k, coeffs, rows)
}

/// All rows are as long as the first.
pub open spec fn same_length(rows: Seq<Seq<u8>>) -> bool {
    forall|i: int| 0 <= i < rows.len() ==> (#[trigger] rows[i]).len() == rows[0].len()
}

/// No two rows carry the same index.
pub open spec fn distinct_indices(rows: Seq<Seq<u8>>) -> bool {
    forall|i: int, j: int|
        0 <= i < rows.len() && 0 <= j < rows.len() && i != j ==> (#[trigger] rows[i])[0] != (
        #[trigger] rows[j])[0]
}

/// Interpolation is defined on `rows`: there is a row, all rows are of one
/// length, and their indices differ.
pub open spec fn recoverable(rows: Seq<Seq<u8>>) -> bool {
    rows.len() > 0 && same_length(rows) && distinct_indices(rows)
}

/// One step of the product that forms a Lagrange basis value at zero: a row
/// with another index `x` contributes the factor `x / (x - xi)`.
pub open spec fn basis_step(xi: u8) -> spec_fn(u8, Seq<u8>) -> u8 {
    |acc: u8, row: Seq<u8>|
        if row[0] != xi {
            gf_mul(acc, gf_div(row[0], gf_add(row[0], xi)))
        } else {
            acc
        }
}

/// The Lagrange basis polynomial of index `xi` among `rows`, at zero.
#[verifier::opaque]
pub open spec fn basis_at_zero(rows: Seq<Seq<u8>>, xi: u8) -> u8 {
    rows.fold_left(1u8, basis_step(xi))
}

/// One step of the interpolation sum at byte position `pos`: a row adds its
/// value there times its basis value among `all`.
pub open spec fn sum_step(all: Seq<Seq<u8>>, pos: int) -> spec_fn(u8, Seq<u8>) -> u8 {
    |acc: u8, row: Seq<u8>| gf_add(acc, gf_mul(basis_at_zero(all, row[0]), row[pos + 1]))
}

/// The value at zero of the polynomial through the points that `rows` give at
/// byte position `pos`.
pub open spec fn interpolate_byte(rows: Seq<Seq<u8>>, pos: int) -> u8 {
    rows.fold_left(0u8, sum_step(rows, pos))
}

/// Interpolation at zero, byte position by byte position.
pub open spec fn interpolate(rows: Seq<Seq<u8>>) -> Seq<u8> {
    Seq::new(
        if rows[0].len() >= 1 {
            (rows[0].len() - 1) as nat
        } else {
            0
        },
        |pos: int| interpolate_byte(rows, pos),
    )
}

} // verus!
