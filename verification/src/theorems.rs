//! What the sharing guarantees, proved from the contracts of splitting and
//! reconstruction.

use crate::field::{
    gf_add, gf_div, gf_mul, lemma_add_laws, lemma_mul_associative, lemma_mul_commutative,
    lemma_mul_zero_one,
};
use crate::crypto::{aes256_gcm_open, aes256_gcm_seal, KEY_LEN, NONCE_LEN};
use crate::envelope::{decrypt_outcome, is_container, EnvelopeError};
use crate::lagrange::lemma_interpolate_byte_of_values;
use crate::scheme::{
    basis_at_zero, basis_step, distinct_indices, interpolate, interpolate_byte, is_dealing,
    is_dealt, poly_eval, same_length, sum_step,
};
use vstd::seq_lib::{commutative_foldl, group_to_multiset_ensures, lemma_fold_left_permutation};
use crate::sss::{
    decoded_row, decoded_rows, is_dealt_tokens, reconstruct_outcome, reconstruct_secret_outcome,
    valid_split, SSSError,
};
use vstd::prelude::*;

verus! {

/// Distinct rows taken from a dealing are of one length and carry distinct
/// indices.
pub proof fn lemma_chosen_shape(
    secret: Seq<u8>,
    k: u8,
    coeffs: Seq<Seq<u8>>,
    rows: Seq<Seq<u8>>,
    chosen: Seq<Seq<u8>>,
)
    requires
        is_dealing(secret, k, coeffs, rows),
        chosen.no_duplicates(),
        forall|i: int| 0 <= i < chosen.len() ==> rows.contains(#[trigger] chosen[i]),
    ensures
        forall|i: int| 0 <= i < chosen.len() ==> (#[trigger] chosen[i]).len() == secret.len() + 1,
        distinct_indices(chosen),
        forall|i: int, pos: int|
            0 <= i < chosen.len() && 0 <= pos < secret.len() ==> #[trigger] chosen[i][pos + 1]
                == poly_eval(coeffs[pos], chosen[i][0]),
{
    assert forall|i: int| 0 <= i < chosen.len() implies (#[trigger] chosen[i]).len()
        == secret.len() + 1 by {
        let j = choose|j: int| 0 <= j < rows.len() && rows[j] == chosen[i];
        assert(rows[j].len() == secret.len() + 1);
    }
    assert forall|a: int, b: int|
        0 <= a < chosen.len() && 0 <= b < chosen.len() && a != b implies (#[trigger] chosen[a])[0]
        != (#[trigger] chosen[b])[0] by {
        let ja = choose|j: int| 0 <= j < rows.len() && rows[j] == chosen[a];
        let jb = choose|j: int| 0 <= j < rows.len() && rows[j] == chosen[b];
        assert(rows[ja][0] == ja + 1 && rows[jb][0] == jb + 1);
    }
    assert forall|i: int, pos: int|
        0 <= i < chosen.len() && 0 <= pos < secret.len() implies #[trigger] chosen[i][pos + 1]
        == poly_eval(coeffs[pos], chosen[i][0]) by {
        let j = choose|j: int| 0 <= j < rows.len() && rows[j] == chosen[i];
        assert(rows[j][pos + 1] == poly_eval(coeffs[pos], rows[j][0]));
    }
}

/// Any `k` or more distinct shares of a dealing with threshold `k`
/// reconstruct the secret.
pub proof fn lemma_shares_recover_secret(
    secret: Seq<u8>,
    k: u8,
    n: u8,
    rows: Seq<Seq<u8>>,
    chosen: Seq<Seq<u8>>,
)
    requires
        valid_split(secret.len(), k, n),
        is_dealt(secret, k, n, rows),
        chosen.len() >= k,
        chosen.no_duplicates(),
        forall|i: int| 0 <= i < chosen.len() ==> rows.contains(#[trigger] chosen[i]),
    ensures
        reconstruct_outcome(chosen) == Ok::<Seq<u8>, SSSError>(secret),
{
    let coeffs = choose|c: Seq<Seq<u8>>| is_dealing(secret, k, c, rows);
    lemma_chosen_shape(secret, k, coeffs, rows, chosen);
    assert(same_length(chosen));
    assert(interpolate(chosen) =~= secret) by {
        assert forall|pos: int| 0 <= pos < secret.len() implies interpolate(chosen)[pos]
            == secret[pos] by {
            assert forall|i: int| 0 <= i < chosen.len() implies (#[trigger] chosen[i])[pos + 1]
                == poly_eval(coeffs[pos], chosen[i][0]) by {
                assert(chosen[i][pos + 1] == poly_eval(coeffs[pos], chosen[i][0]));
            }
            lemma_interpolate_byte_of_values(chosen, pos, coeffs[pos]);
        }
    }
}

/// Any distinct shares of a dealing, however few, reconstruct to a result
/// as long as the secret: reconstruction does not tell whether the threshold
/// was met.
pub proof fn lemma_shares_give_a_result(
    secret: Seq<u8>,
    k: u8,
    n: u8,
    rows: Seq<Seq<u8>>,
    chosen: Seq<Seq<u8>>,
)
    requires
        valid_split(secret.len(), k, n),
        is_dealt(secret, k, n, rows),
        chosen.len() >= 1,
        chosen.no_duplicates(),
        forall|i: int| 0 <= i < chosen.len() ==> rows.contains(#[trigger] chosen[i]),
    ensures
        reconstruct_outcome(chosen) == Ok::<Seq<u8>, SSSError>(interpolate(chosen)),
        interpolate(chosen).len() == secret.len(),
{
    let coeffs = choose|c: Seq<Seq<u8>>| is_dealing(secret, k, c, rows);
    lemma_chosen_shape(secret, k, coeffs, rows, chosen);
    assert(same_length(chosen));
}

/// The shares of a dealing differ from one another.
pub proof fn lemma_dealt_rows_differ(secret: Seq<u8>, k: u8, n: u8, rows: Seq<Seq<u8>>)
    requires
        is_dealt(secret, k, n, rows),
    ensures
        rows.no_duplicates(),
{
    let coeffs = choose|c: Seq<Seq<u8>>| is_dealing(secret, k, c, rows);
    assert forall|i: int, j: int| 0 <= i < rows.len() && 0 <= j < rows.len() && i != j implies rows[i]
        != rows[j] by {
        assert(rows[i][0] == i + 1 && rows[j][0] == j + 1);
    }
}

/// All the shares of a dealing together reconstruct the secret.
pub proof fn lemma_all_shares_recover_secret(secret: Seq<u8>, k: u8, n: u8, rows: Seq<Seq<u8>>)
    requires
        valid_split(secret.len(), k, n),
        is_dealt(secret, k, n, rows),
    ensures
        reconstruct_outcome(rows) == Ok::<Seq<u8>, SSSError>(secret),
{
    lemma_dealt_rows_differ(secret, k, n, rows);
    assert forall|i: int| 0 <= i < rows.len() implies rows.contains(#[trigger] rows[i]) by {}
    lemma_shares_recover_secret(secret, k, n, rows, rows);
}

/// With threshold one, every share holds the secret itself as its values,
/// and every share alone reconstructs the secret.
pub proof fn lemma_threshold_one(secret: Seq<u8>, n: u8, rows: Seq<Seq<u8>>, i: int)
    requires
        valid_split(secret.len(), 1, n),
        is_dealt(secret, 1, n, rows),
        0 <= i < n,
    ensures
        rows[i].skip(1) == secret,
        reconstruct_outcome(seq![rows[i]]) == Ok::<Seq<u8>, SSSError>(secret),
{
    let coeffs = choose|c: Seq<Seq<u8>>| is_dealing(secret, 1, c, rows);
    assert(rows[i].len() == secret.len() + 1);
    assert(rows[i].skip(1) =~= secret) by {
        assert forall|pos: int| 0 <= pos < secret.len() implies rows[i].skip(1)[pos]
            == secret[pos] by {
            let f = coeffs[pos];
            let x: u8 = rows[i][0];
            assert(rows[i][pos + 1] == poly_eval(f, x));
            assert(f.drop_last().len() == 0);
            assert(poly_eval(f.drop_last(), x) == 0);
            lemma_mul_zero_one(x);
            lemma_add_laws(f.last(), 0, 0);
        }
    }
    let chosen = seq![rows[i]];
    assert(chosen.no_duplicates());
    assert forall|j: int| 0 <= j < chosen.len() implies rows.contains(#[trigger] chosen[j]) by {
        assert(chosen[j] == rows[i]);
    }
    lemma_shares_recover_secret(secret, 1, n, rows, chosen);
}

/// Rows in another order are the same rows.
pub proof fn lemma_reordered_members(a: Seq<Seq<u8>>, b: Seq<Seq<u8>>)
    requires
        a.to_multiset() == b.to_multiset(),
    ensures
        a.len() == b.len(),
        forall|i: int| 0 <= i < b.len() ==> a.contains(#[trigger] b[i]),
        forall|i: int| 0 <= i < a.len() ==> b.contains(#[trigger] a[i]),
{
    broadcast use group_to_multiset_ensures;

    assert(a.to_multiset().len() == a.len());
    assert(b.to_multiset().len() == b.len());
    assert forall|i: int| 0 <= i < b.len() implies a.contains(#[trigger] b[i]) by {
        assert(b.contains(b[i]));
        assert(b.to_multiset().count(b[i]) > 0);
    }
    assert forall|i: int| 0 <= i < a.len() implies b.contains(#[trigger] a[i]) by {
        assert(a.contains(a[i]));
        assert(a.to_multiset().count(a[i]) > 0);
    }
}

/// Rows of one length are so in any order.
pub proof fn lemma_reordered_same_length(a: Seq<Seq<u8>>, b: Seq<Seq<u8>>)
    requires
        a.to_multiset() == b.to_multiset(),
        same_length(a),
    ensures
        same_length(b),
{
    lemma_reordered_members(a, b);
    assert forall|i: int| 0 <= i < b.len() implies (#[trigger] b[i]).len() == b[0].len() by {
        let ja = choose|j: int| 0 <= j < a.len() && a[j] == b[i];
        let j0 = choose|j: int| 0 <= j < a.len() && a[j] == b[0];
        assert(a[ja].len() == a[0].len() && a[j0].len() == a[0].len());
    }
}

/// Rows with distinct indices have them in any order.
pub proof fn lemma_reordered_distinct(a: Seq<Seq<u8>>, b: Seq<Seq<u8>>)
    requires
        a.to_multiset() == b.to_multiset(),
        distinct_indices(a),
    ensures
        distinct_indices(b),
{
    lemma_reordered_members(a, b);
    assert(a.no_duplicates()) by {
        assert forall|i: int, j: int| 0 <= i < a.len() && 0 <= j < a.len() && i != j implies a[i]
            != a[j] by {
            assert(a[i][0] != a[j][0]);
        }
    }
    a.lemma_multiset_has_no_duplicates();
    b.lemma_multiset_has_no_duplicates_conv();
    assert forall|i: int, j: int|
        0 <= i < b.len() && 0 <= j < b.len() && i != j implies (#[trigger] b[i])[0] != (
    #[trigger] b[j])[0] by {
        let ia = choose|x: int| 0 <= x < a.len() && a[x] == b[i];
        let ja = choose|x: int| 0 <= x < a.len() && a[x] == b[j];
        assert(b[i] != b[j]);
        assert(a[ia][0] != a[ja][0]);
    }
}

/// A basis value does not depend on the order of the rows.
pub proof fn lemma_reordered_basis(a: Seq<Seq<u8>>, b: Seq<Seq<u8>>, xi: u8)
    requires
        a.to_multiset() == b.to_multiset(),
    ensures
        basis_at_zero(a, xi) == basis_at_zero(b, xi),
{
    reveal(basis_at_zero);
    let f = basis_step(xi);
    assert forall|x: Seq<u8>, y: Seq<u8>, v: u8| #[trigger] f(f(v, x), y) == f(f(v, y), x) by {
        let fx: u8 = gf_div(x[0], gf_add(x[0], xi));
        let fy: u8 = gf_div(y[0], gf_add(y[0], xi));
        lemma_mul_associative(v, fx, fy);
        lemma_mul_associative(v, fy, fx);
        lemma_mul_commutative(fx, fy);
    }
    assert(commutative_foldl(f));
    lemma_fold_left_permutation(a, b, f, 1u8);
}

/// The interpolation at one byte position does not depend on the order of
/// the rows.
pub proof fn lemma_reordered_byte(a: Seq<Seq<u8>>, b: Seq<Seq<u8>>, pos: int)
    requires
        a.to_multiset() == b.to_multiset(),
    ensures
        interpolate_byte(a, pos) == interpolate_byte(b, pos),
{
    let g = sum_step(a, pos);
    let h = sum_step(b, pos);
    assert forall|v: u8, x: Seq<u8>| #[trigger] g(v, x) == h(v, x) by {
        lemma_reordered_basis(a, b, x[0]);
    }
    assert(g =~= h);
    assert forall|x: Seq<u8>, y: Seq<u8>, v: u8| #[trigger] g(g(v, x), y) == g(g(v, y), x) by {
        let tx: u8 = gf_mul(basis_at_zero(a, x[0]), x[pos + 1]);
        let ty: u8 = gf_mul(basis_at_zero(a, y[0]), y[pos + 1]);
        assert((v ^ tx) ^ ty == (v ^ ty) ^ tx) by (bit_vector);
    }
    assert(commutative_foldl(g));
    lemma_fold_left_permutation(a, b, g, 0u8);
}

/// Reconstruction does not depend on the order in which the shares are
/// given: from the same shares in another order it gives the same secret or
/// the same error.
pub proof fn lemma_order_independent(a: Seq<Seq<u8>>, b: Seq<Seq<u8>>)
    requires
        a.to_multiset() == b.to_multiset(),
    ensures
        reconstruct_outcome(a) == reconstruct_outcome(b),
{
    lemma_reordered_members(a, b);
    if a.len() > 0 {
        if same_length(a) {
            lemma_reordered_same_length(a, b);
        }
        if same_length(b) {
            lemma_reordered_same_length(b, a);
        }
        if distinct_indices(a) {
            lemma_reordered_distinct(a, b);
        }
        if distinct_indices(b) {
            lemma_reordered_distinct(b, a);
        }
        if same_length(a) && distinct_indices(a) {
            assert(a.contains(b[0]));
            let j0 = choose|j: int| 0 <= j < a.len() && a[j] == b[0];
            assert(a[j0].len() == a[0].len());
            assert(b[0].len() == a[0].len());
            assert(interpolate(a) =~= interpolate(b)) by {
                assert forall|pos: int| 0 <= pos < interpolate(a).len() implies interpolate(
                    a,
                )[pos] == interpolate(b)[pos] by {
                    lemma_reordered_byte(a, b, pos);
                }
            }
        }
    }
}

/// Any `k` or more distinct tokens of a split with threshold `k`
/// reconstruct the secret.
pub proof fn lemma_tokens_recover_secret(
    secret: Seq<u8>,
    k: u8,
    n: u8,
    tokens: Seq<Seq<char>>,
    chosen: Seq<Seq<char>>,
)
    requires
        valid_split(secret.len(), k, n),
        is_dealt_tokens(secret, k, n, tokens),
        chosen.len() >= k,
        chosen.no_duplicates(),
        forall|i: int| 0 <= i < chosen.len() ==> tokens.contains(#[trigger] chosen[i]),
    ensures
        reconstruct_secret_outcome(chosen) == Ok::<Seq<u8>, SSSError>(secret),
{
    let rows = choose|rows: Seq<Seq<u8>>|
        is_dealt(secret, k, n, rows) && tokens == crate::sss::encoded_rows(rows)
            && #[trigger] decoded_rows(tokens) == Some(rows);
    assert forall|j: int| 0 <= j < tokens.len() implies decoded_row(#[trigger] tokens[j]) == Some(
        rows[j],
    ) by {}
    assert forall|i: int| 0 <= i < chosen.len() implies decoded_row(#[trigger] chosen[i])
        is Some && rows.contains(decoded_row(chosen[i])->0) by {
        let j = choose|j: int| 0 <= j < tokens.len() && tokens[j] == chosen[i];
        assert(decoded_row(tokens[j]) == Some(rows[j]));
    }
    let chosen_rows = decoded_rows(chosen)->0;
    lemma_dealt_rows_differ(secret, k, n, rows);
    assert(chosen_rows.no_duplicates()) by {
        assert forall|a: int, b: int|
            0 <= a < chosen_rows.len() && 0 <= b < chosen_rows.len() && a != b implies chosen_rows[a]
            != chosen_rows[b] by {
            let ja = choose|j: int| 0 <= j < tokens.len() && tokens[j] == chosen[a];
            let jb = choose|j: int| 0 <= j < tokens.len() && tokens[j] == chosen[b];
            assert(decoded_row(tokens[ja]) == Some(rows[ja]));
            assert(decoded_row(tokens[jb]) == Some(rows[jb]));
            assert(chosen[a] != chosen[b]);
        }
    }
    assert forall|i: int| 0 <= i < chosen_rows.len() implies rows.contains(
        #[trigger] chosen_rows[i],
    ) by {
        assert(chosen_rows[i] == decoded_row(chosen[i])->0);
    }
    lemma_shares_recover_secret(secret, k, n, rows, chosen_rows);
}

/// Elements in another order, each mapped by `f`, are the mapped elements in
/// another order.
pub proof fn lemma_reordered_map<A, B>(a: Seq<A>, b: Seq<A>, f: spec_fn(A) -> B)
    requires
        a.to_multiset() == b.to_multiset(),
    ensures
        a.map_values(f).to_multiset() == b.map_values(f).to_multiset(),
    decreases a.len(),
{
    broadcast use group_to_multiset_ensures;

    assert(a.to_multiset().len() == a.len());
    assert(b.to_multiset().len() == b.len());
    if a.len() == 0 {
        assert(a.map_values(f) =~= b.map_values(f));
    } else {
        let x = a.last();
        assert(a.contains(x));
        assert(a.to_multiset().count(x) > 0);
        assert(b.contains(x));
        let i = choose|i: int| 0 <= i < b.len() && b[i] == x;
        let a1 = a.drop_last();
        let b1 = b.remove(i);
        assert(a1 =~= a.remove(a.len() - 1));
        assert(a.remove(a.len() - 1).to_multiset() == a.to_multiset().remove(x));
        assert(b.remove(i).to_multiset() == b.to_multiset().remove(x));
        lemma_reordered_map(a1, b1, f);
        let am = a1.map_values(f);
        let bm = b1.map_values(f);
        assert(a.map_values(f) =~= am.push(f(x)));
        assert(b.map_values(f) =~= bm.insert(i, f(x)));
        assert(am.push(f(x)).to_multiset() =~= am.to_multiset().insert(f(x)));
        assert(bm.insert(i, f(x)).to_multiset() == bm.to_multiset().insert(f(x)));
    }
}

/// Reconstruction from tokens does not depend on the order in which the
/// tokens are given.
pub proof fn lemma_token_order_independent(a: Seq<Seq<char>>, b: Seq<Seq<char>>)
    requires
        a.to_multiset() == b.to_multiset(),
    ensures
        reconstruct_secret_outcome(a) == reconstruct_secret_outcome(b),
{
    broadcast use group_to_multiset_ensures;

    assert(a.to_multiset().len() == a.len());
    assert(b.to_multiset().len() == b.len());
    assert forall|i: int| 0 <= i < b.len() implies a.contains(#[trigger] b[i]) by {
        assert(b.contains(b[i]));
        assert(b.to_multiset().count(b[i]) > 0);
    }
    assert forall|i: int| 0 <= i < a.len() implies b.contains(#[trigger] a[i]) by {
        assert(a.contains(a[i]));
        assert(a.to_multiset().count(a[i]) > 0);
    }
    if a.len() > 0 {
        if decoded_rows(a) is Some {
            assert forall|i: int| 0 <= i < b.len() implies decoded_row(#[trigger] b[i]) is Some by {
                let j = choose|j: int| 0 <= j < a.len() && a[j] == b[i];
                assert(decoded_row(a[j]) is Some);
            }
        }
        if decoded_rows(b) is Some {
            assert forall|i: int| 0 <= i < a.len() implies decoded_row(#[trigger] a[i]) is Some by {
                let j = choose|j: int| 0 <= j < b.len() && b[j] == a[i];
                assert(decoded_row(b[j]) is Some);
            }
        }
        if decoded_rows(a) is Some {
            let f = |t: Seq<char>| decoded_row(t)->0;
            assert(decoded_rows(a)->0 =~= a.map_values(f));
            assert(decoded_rows(b)->0 =~= b.map_values(f));
            lemma_reordered_map(a, b, f);
            lemma_order_independent(a.map_values(f), b.map_values(f));
        }
    }
}

/// A container opens to its payload with any `k` or more distinct tokens of
/// the split of its key with threshold `k`.
pub proof fn lemma_envelope_opens(
    plaintext: Seq<u8>,
    k: u8,
    n: u8,
    key: Seq<u8>,
    container: Seq<u8>,
    tokens: Seq<Seq<char>>,
    chosen: Seq<Seq<char>>,
)
    requires
        1 <= k <= n,
        key.len() == KEY_LEN,
        is_container(key, plaintext, container),
        is_dealt_tokens(key, k, n, tokens),
        chosen.len() >= k,
        chosen.no_duplicates(),
        forall|i: int| 0 <= i < chosen.len() ==> tokens.contains(#[trigger] chosen[i]),
    ensures
        decrypt_outcome(container, chosen) == Ok::<Seq<u8>, EnvelopeError>(plaintext),
{
    lemma_tokens_recover_secret(key, k, n, tokens, chosen);
    let nonce = choose|nonce: Seq<u8>|
        nonce.len() == NONCE_LEN && #[trigger] aes256_gcm_open(
            key,
            nonce,
            aes256_gcm_seal(key, nonce, plaintext),
        ) == Some(plaintext) && container == nonce + aes256_gcm_seal(key, nonce, plaintext);
    assert(container.take(NONCE_LEN as int) =~= nonce);
    assert(container.skip(NONCE_LEN as int) =~= aes256_gcm_seal(key, nonce, plaintext));
}

} // verus!
