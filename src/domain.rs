//! Tree nodes, the node hash, and the pairwise reduction that turns a row of
//! nodes into a root.
use filecoin_hashers::{HashFunction, Hasher};
use filecoin_hashers::sha256::Sha256Hasher;
use rayon::prelude::{ParallelIterator, ParallelSlice};
use vstd::prelude::*;

verus! {

/// A tree node: one 32-byte hash value.
pub type Domain = [u8; 32];

/// Number of padded bytes that make one leaf (two node widths).
pub const LEAF_BYTES: usize = 64;

/// What the piece hasher returns for a byte string: SHA-256 with the two top
/// bits of the last byte cleared.
pub uninterp spec fn sha256_trunc(bytes: Seq<u8>) -> Seq<u8>;

/// Relies on `Sha256Function::hash` of filecoin-hashers (the default piece
/// hasher): its value depends on the input bytes alone.
#[verifier::external_body]
fn hash_bytes(data: &[u8]) -> (r: Domain)
    ensures
        r@ == sha256_trunc(data@),
{
    <Sha256Hasher as Hasher>::Function::hash(data).into()
}

/// The views of a row of nodes.
pub open spec fn node_views(row: Seq<Domain>) -> Seq<Seq<u8>> {
    row.map_values(|d: Domain| d@)
}

/// One reduction step: each consecutive pair of nodes is replaced by the hash
/// of their concatenation.
pub open spec fn pair_row(row: Seq<Seq<u8>>) -> Seq<Seq<u8>> {
    Seq::new(row.len() / 2, |i: int| sha256_trunc(row[2 * i] + row[2 * i + 1]))
}

/// The root of a row: the row is reduced pairwise until one node remains.
pub open spec fn merkle_root(row: Seq<Seq<u8>>) -> Seq<u8>
    decreases row.len(),
{
    if row.len() <= 1 {
        row[0]
    } else {
        merkle_root(pair_row(row))
    }
}

/// `n` is a power of two.
pub open spec fn is_pow2(n: nat) -> bool
    decreases n,
{
    if n == 1 {
        true
    } else if n == 0 || n % 2 == 1 {
        false
    } else {
        is_pow2(n / 2)
    }
}

/// The leaves of a byte stream: the hash of each complete 64-byte window.
pub open spec fn leaf_hashes(s: Seq<u8>) -> Seq<Seq<u8>> {
    Seq::new(s.len() / 64, |i: int| sha256_trunc(s.subrange(64 * i, 64 * i + 64)))
}

/// The commitment of a byte stream whose length is 64 times a power of two.
pub open spec fn commitment_of(s: Seq<u8>) -> Seq<u8> {
    merkle_root(leaf_hashes(s))
}

/// The leaves of a stream are those of its longest prefix made of complete
/// windows.
pub proof fn lemma_leaves_of_prefix(s: Seq<u8>, t: nat)
    requires
        64 * t <= s.len() < 64 * t + 64,
    ensures
        leaf_hashes(s) == leaf_hashes(s.subrange(0, 64 * t as int)),
        s.len() / 64 == t,
{
    let p = s.subrange(0, 64 * t as int);
    assert(s.len() / 64 == t) by (nonlinear_arith)
        requires
            64 * t <= s.len() < 64 * t + 64,
    ;
    assert(p.len() / 64 == t) by (nonlinear_arith)
        requires
            p.len() == 64 * t,
    ;
    assert forall|i: int| 0 <= i < t implies #[trigger] leaf_hashes(s)[i] == leaf_hashes(p)[i] by {
        assert(s.subrange(64 * i, 64 * i + 64) =~= p.subrange(64 * i, 64 * i + 64));
    }
    assert(leaf_hashes(s) =~= leaf_hashes(p));
}

/// Completing one more window adds its hash as the next leaf.
pub proof fn lemma_leaves_push(s: Seq<u8>, t: nat)
    requires
        s.len() == 64 * t + 64,
    ensures
        leaf_hashes(s) == leaf_hashes(s.subrange(0, 64 * t as int)).push(
            sha256_trunc(s.subrange(64 * t as int, 64 * t + 64 as int)),
        ),
{
    let p = s.subrange(0, 64 * t as int);
    assert(s.len() / 64 == t + 1) by (nonlinear_arith)
        requires
            s.len() == 64 * t + 64,
    ;
    assert(p.len() / 64 == t) by (nonlinear_arith)
        requires
            p.len() == 64 * t,
    ;
    assert forall|i: int| 0 <= i < t implies #[trigger] leaf_hashes(s)[i] == leaf_hashes(p)[i] by {
        assert(s.subrange(64 * i, 64 * i + 64) =~= p.subrange(64 * i, 64 * i + 64));
    }
    assert(leaf_hashes(s) =~= leaf_hashes(p).push(
        sha256_trunc(s.subrange(64 * t as int, 64 * t + 64 as int)),
    ));
}

/// Hashes one leaf window.
pub fn hash_leaf(window: &Vec<u8>) -> (r: Domain)
    ensures
        r@ == sha256_trunc(window@),
{
    hash_bytes(window.as_slice())
}

/// Hashes the concatenation of two nodes, as one 64-byte input.
pub fn hash_pair(a: &Domain, b: &Domain) -> (r: Domain)
    ensures
        r@ == sha256_trunc(a@ + b@),
{
    let mut buf: Vec<u8> = Vec::with_capacity(LEAF_BYTES);
    let mut i: usize = 0;
    while i < 32
        invariant
            i <= 32,
            buf@ == a@.subrange(0, i as int),
        decreases 32 - i,
    {
        buf.push(a[i]);
        i += 1;
    }
    let mut j: usize = 0;
    while j < 32
        invariant
            j <= 32,
            buf@ == a@ + b@.subrange(0, j as int),
        decreases 32 - j,
    {
        buf.push(b[j]);
        j += 1;
    }
    assert(a@.subrange(0, 32) =~= a@);
    assert(b@.subrange(0, 32) =~= b@);
    hash_bytes(buf.as_slice())
}

/// Relies on rayon's `par_chunks(2)`, `map` and `collect`: every pair is
/// mapped and the results are collected in the order of the pairs.
#[verifier::external_body]
fn par_pair_row(row: &Vec<Domain>) -> (r: Vec<Domain>)
    requires
        row.len() % 2 == 0,
    ensures
        node_views(r@) == pair_row(node_views(row@)),
{
    row.par_chunks(2).map(|pair| hash_pair(&pair[0], &pair[1])).collect()
}

/// One reduction step, computed sequentially.
pub fn seq_pair_row(row: &Vec<Domain>) -> (r: Vec<Domain>)
    ensures
        node_views(r@) == pair_row(node_views(row@)),
{
    let n = row.len() / 2;
    let mut out: Vec<Domain> = Vec::with_capacity(n);
    let mut i: usize = 0;
    while i < n
        invariant
            n == row.len() / 2,
            i <= n,
            out.len() == i,
            forall|k: int| 0 <= k < i ==> #[trigger] out@[k]@ == sha256_trunc(
                row@[2 * k]@ + row@[2 * k + 1]@),
        decreases n - i,
    {
        let h = hash_pair(&row[2 * i], &row[2 * i + 1]);
        out.push(h);
        i += 1;
    }
    assert(node_views(out@) =~= pair_row(node_views(row@)));
    out
}

/// Halving a power of two greater than one gives a power of two.
pub proof fn lemma_pow2_half(n: nat)
    requires
        is_pow2(n),
        n > 1,
    ensures
        is_pow2(n / 2),
        n % 2 == 0,
        n / 2 < n,
{
}

/// A power of two divides every power of two that is not smaller, and the
/// quotient is a power of two.
pub proof fn lemma_pow2_divides(a: nat, b: nat)
    requires
        is_pow2(a),
        is_pow2(b),
        a <= b,
    ensures
        a >= 1,
        b % a == 0,
        is_pow2(b / a),
    decreases a,
{
    if a != 1 {
        lemma_pow2_divides((a / 2) as nat, (b / 2) as nat);
        let q = (b / 2) / (a / 2);
        vstd::arithmetic::div_mod::lemma_fundamental_div_mod((b / 2) as int, (a / 2) as int);
        assert(b == q * a) by (nonlinear_arith)
            requires
                a == 2 * (a / 2),
                b == 2 * (b / 2),
                b / 2 == (a / 2) * q,
        ;
        vstd::arithmetic::div_mod::lemma_div_by_multiple(q as int, a as int);
        vstd::arithmetic::div_mod::lemma_mod_multiples_basic(q as int, a as int);
    }
}

/// The roots of the consecutive blocks of `k` nodes of a row.
pub open spec fn block_roots(row: Seq<Seq<u8>>, k: nat) -> Seq<Seq<u8>> {
    Seq::new(row.len() / k, |i: int| merkle_root(row.subrange(i * k, i * k + k)))
}

/// Reducing a block of a row gives the block of the reduced row.
proof fn lemma_pair_row_block(row: Seq<Seq<u8>>, k: nat, i: int)
    requires
        k % 2 == 0,
        0 <= i,
        i * k + k <= row.len(),
    ensures
        pair_row(row.subrange(i * k, i * k + k)) == pair_row(row).subrange(
            i * (k / 2),
            i * (k / 2) + k / 2,
        ),
{
    let h = (k / 2) as int;
    assert(i * k == 2 * (i * h)) by (nonlinear_arith)
        requires
            k == 2 * h,
    ;
    let b = row.subrange(i * k, i * k + k);
    assert(i * h + h <= row.len() / 2);
    assert(pair_row(b) =~= pair_row(row).subrange(i * h, i * h + h));
}

/// The root of a row whose length is a power of two equals the root over the
/// roots of its blocks, for every block size that is a power of two.
pub proof fn lemma_block_roots(row: Seq<Seq<u8>>, k: nat)
    requires
        is_pow2(k),
        is_pow2(row.len()),
        k <= row.len(),
    ensures
        merkle_root(block_roots(row, k)) == merkle_root(row),
    decreases k,
{
    if k == 1 {
        vstd::arithmetic::div_mod::lemma_div_basics(row.len() as int);
        assert(row.len() / k == row.len());
        assert forall|i: int| 0 <= i < row.len() implies #[trigger] block_roots(row, k)[i]
            == row[i] by {
            assert(i * k == i);
            let one = row.subrange(i, i + 1);
            assert(one.len() == 1 && one[0] == row[i]);
            assert(merkle_root(one) == one[0]);
        }
        assert(block_roots(row, k) =~= row);
    } else {
        let h = (k / 2) as nat;
        let p = pair_row(row);
        lemma_pow2_divides(k, row.len());
        lemma_pow2_half(row.len());
        lemma_pow2_divides(h, p.len());
        assert(row.len() / k == p.len() / h) by (nonlinear_arith)
            requires
                k == 2 * h,
                h >= 1,
                row.len() % 2 == 0,
                p.len() == row.len() / 2,
        {
            vstd::arithmetic::div_mod::lemma_div_denominator(row.len() as int, 2, h as int);
        }
        assert forall|i: int| 0 <= i < row.len() / k implies #[trigger] block_roots(row, k)[i]
            == block_roots(p, h)[i] by {
            assert(i * k + k <= row.len()) by (nonlinear_arith)
                requires
                    0 <= i < row.len() / k,
                    k >= 1,
            {
                vstd::arithmetic::div_mod::lemma_fundamental_div_mod(row.len() as int, k as int);
                vstd::arithmetic::mul::lemma_mul_inequality(i + 1, (row.len() / k) as int, k as int);
            }
            lemma_pair_row_block(row, k, i);
        }
        assert(block_roots(row, k) =~= block_roots(p, h));
        lemma_block_roots(p, h);
    }
}

/// A row and its views have the same length.
pub proof fn lemma_views_len(row: Seq<Domain>)
    ensures
        node_views(row).len() == row.len(),
{
}

/// Reduces a row whose length is a power of two to its root, each step
/// computed in parallel.
pub fn par_reduce(row: &Vec<Domain>) -> (r: Domain)
    requires
        is_pow2(row.len() as nat),
    ensures
        r@ == merkle_root(node_views(row@)),
{
    if row.len() == 1 {
        return row[0];
    }
    proof {
        lemma_pow2_half(row.len() as nat);
    }
    let mut current = par_pair_row(row);
    proof {
        lemma_views_len(current@);
        lemma_views_len(row@);
    }
    while current.len() > 1
        invariant
            is_pow2(current.len() as nat),
            merkle_root(node_views(current@)) == merkle_root(node_views(row@)),
        decreases current.len(),
    {
        proof {
            lemma_pow2_half(current.len() as nat);
        }
        let ghost prev = current@;
        current = par_pair_row(&current);
        proof {
            lemma_views_len(current@);
            lemma_views_len(prev);
        }
    }
    current[0]
}

/// Reduces a row whose length is a power of two to its root, sequentially.
pub fn seq_reduce(row: Vec<Domain>) -> (r: Domain)
    requires
        is_pow2(row.len() as nat),
    ensures
        r@ == merkle_root(node_views(row@)),
{
    let ghost first = row@;
    let mut current = row;
    while current.len() > 1
        invariant
            is_pow2(current.len() as nat),
            merkle_root(node_views(current@)) == merkle_root(node_views(first)),
        decreases current.len(),
    {
        proof {
            lemma_pow2_half(current.len() as nat);
        }
        let ghost prev = current@;
        current = seq_pair_row(&current);
        proof {
            lemma_views_len(current@);
            lemma_views_len(prev);
        }
    }
    current[0]
}

} // verus!
