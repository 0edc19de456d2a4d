//! The chunk aggregator: splits a padded byte stream into chunks of a fixed
//! size, keeps the root of each chunk, and reduces those roots to the root of
//! the whole stream.
use crate::commitment_reader::CommitmentReader;
use crate::domain::{
    block_roots, commitment_of, is_pow2, leaf_hashes, lemma_block_roots, lemma_pow2_divides,
    lemma_views_len, merkle_root, node_views, seq_reduce, Domain,
};
use vstd::prelude::*;

verus! {

/// A chunk size that the aggregator accepts: 64 bytes times a power of two,
/// so that every chunk is a whole subtree.
pub open spec fn valid_chunk_size(chunk_size: nat) -> bool {
    chunk_size % 64 == 0 && is_pow2(chunk_size / 64)
}

/// A stream length whose leaves form one tree: 64 bytes times a power of two.
pub open spec fn valid_stream_len(len: nat) -> bool {
    len % 64 == 0 && is_pow2(len / 64)
}

/// The bytes of chunk `i` of a stream.
pub open spec fn chunk_of(s: Seq<u8>, chunk_size: nat, i: int) -> Seq<u8> {
    s.subrange(i * chunk_size, i * chunk_size + chunk_size)
}

/// The commitments of the complete chunks of a stream, in order.
pub open spec fn chunk_commitments(s: Seq<u8>, chunk_size: nat) -> Seq<Seq<u8>> {
    Seq::new(s.len() / chunk_size, |i: int| commitment_of(chunk_of(s, chunk_size, i)))
}

/// The leaves of a chunk are the matching run of the stream's leaves.
proof fn lemma_chunk_leaves(s: Seq<u8>, k: nat, i: int)
    requires
        k >= 1,
        0 <= i,
        i * (64 * k) + 64 * k <= s.len(),
    ensures
        leaf_hashes(chunk_of(s, 64 * k, i)) == leaf_hashes(s).subrange(i * k, i * k + k),
{
    let c = chunk_of(s, 64 * k, i);
    assert(i * (64 * k) == 64 * (i * k)) by (nonlinear_arith);
    assert(c.len() / 64 == k);
    assert(i * k + k <= s.len() / 64);
    assert forall|j: int| 0 <= j < k implies #[trigger] leaf_hashes(c)[j] == leaf_hashes(s)[i * k
        + j] by {
        assert(c.subrange(64 * j, 64 * j + 64) =~= s.subrange(
            64 * (i * k + j),
            64 * (i * k + j) + 64,
        ));
    }
    assert(leaf_hashes(c) =~= leaf_hashes(s).subrange(i * k, i * k + k));
}

/// Chunking does not change the commitment: for a stream of 64 bytes times
/// a power of two and any chunk size of 64 bytes times a power of two that
/// is not larger, the root over the chunk commitments is the commitment of
/// the whole stream.
pub proof fn lemma_chunked_commitment(s: Seq<u8>, chunk_size: nat)
    requires
        valid_chunk_size(chunk_size),
        valid_stream_len(s.len()),
        chunk_size <= s.len(),
    ensures
        merkle_root(chunk_commitments(s, chunk_size)) == commitment_of(s),
{
    let k = chunk_size / 64;
    let leaves = leaf_hashes(s);
    assert(chunk_size == 64 * k);
    assert(s.len() == 64 * leaves.len());
    assert(k <= leaves.len());
    assert(s.len() / chunk_size == leaves.len() / k) by (nonlinear_arith)
        requires
            s.len() == 64 * leaves.len(),
            chunk_size == 64 * k,
            k >= 1,
    {
        vstd::arithmetic::div_mod::lemma_div_denominator(s.len() as int, 64, k as int);
        vstd::arithmetic::div_mod::lemma_div_by_multiple(leaves.len() as int, 64);
    }
    assert forall|i: int| 0 <= i < s.len() / chunk_size implies #[trigger] chunk_commitments(
        s,
        chunk_size,
    )[i] == block_roots(leaves, k)[i] by {
        assert(i * chunk_size + chunk_size <= s.len()) by (nonlinear_arith)
            requires
                0 <= i < s.len() / chunk_size,
                chunk_size >= 1,
        {
            vstd::arithmetic::div_mod::lemma_fundamental_div_mod(
                s.len() as int,
                chunk_size as int,
            );
            vstd::arithmetic::mul::lemma_mul_inequality(
                i + 1,
                (s.len() / chunk_size) as int,
                chunk_size as int,
            );
        }
        lemma_chunk_leaves(s, k, i);
    }
    assert(chunk_commitments(s, chunk_size) =~= block_roots(leaves, k));
    lemma_block_roots(leaves, k);
}

/// Two chunk sizes give the same commitment for the same bytes: the
/// commitment is a function of the stream alone.
pub proof fn lemma_chunk_size_independent(s: Seq<u8>, size_a: nat, size_b: nat)
    requires
        valid_chunk_size(size_a),
        valid_chunk_size(size_b),
        valid_stream_len(s.len()),
        size_a <= s.len(),
        size_b <= s.len(),
    ensures
        merkle_root(chunk_commitments(s, size_a)) == merkle_root(chunk_commitments(s, size_b)),
{
    lemma_chunked_commitment(s, size_a);
    lemma_chunked_commitment(s, size_b);
}

pub struct ChunksReader {
    inner: CommitmentReader,
    read_pos: usize,
    chunk_size: usize,
    chunk_roots: Vec<Domain>,
    absorbed: Ghost<Seq<u8>>,
}

impl ChunksReader {
    /// Every byte read through the aggregator, in order.
    pub closed spec fn stream(&self) -> Seq<u8> {
        self.absorbed@
    }

    pub closed spec fn spec_chunk_size(&self) -> nat {
        self.chunk_size as nat
    }

    /// The roots of the chunks closed so far, in order.
    pub closed spec fn roots(&self) -> Seq<Seq<u8>> {
        node_views(self.chunk_roots@)
    }

    /// How many bytes the open chunk holds.
    pub closed spec fn bytes_in_chunk(&self) -> nat {
        self.read_pos as nat
    }

    /// The stream is the closed chunks followed by the open one, and each
    /// kept root is the commitment of its chunk.
    pub proof fn lemma_state(&self)
        requires
            self.wf(),
        ensures
            valid_chunk_size(self.spec_chunk_size()),
            self.bytes_in_chunk() <= self.spec_chunk_size(),
            self.stream().len() == self.roots().len() * self.spec_chunk_size()
                + self.bytes_in_chunk(),
            forall|i: int|
                0 <= i < self.roots().len() ==> #[trigger] self.roots()[i] == commitment_of(
                    chunk_of(self.stream(), self.spec_chunk_size(), i),
                ),
    {
        lemma_views_len(self.chunk_roots@);
    }

    /// Each completed chunk has its root kept, in order; the inner
    /// accumulator holds the bytes of the open chunk.
    pub closed spec fn wf(&self) -> bool {
        let cs = self.chunk_size as nat;
        let n = self.chunk_roots.len();
        &&& valid_chunk_size(cs)
        &&& self.inner.wf()
        &&& self.read_pos == self.inner.stream().len()
        &&& self.read_pos <= cs
        &&& self.absorbed@.len() == n * cs + self.read_pos
        &&& self.inner.stream() == self.absorbed@.subrange(
            n * cs,
            self.absorbed@.len() as int,
        )
        &&& forall|i: int|
            0 <= i < n ==> #[trigger] self.chunk_roots@[i]@ == commitment_of(
                chunk_of(self.absorbed@, cs, i),
            )
    }

    /// An aggregator with no byte read yet; each chunk is
    /// `chunk_size_in_bytes` padded bytes.
    pub fn new(chunk_size_in_bytes: usize) -> (r: ChunksReader)
        requires
            valid_chunk_size(chunk_size_in_bytes as nat),
        ensures
            r.wf(),
            r.stream() == Seq::<u8>::empty(),
            r.spec_chunk_size() == chunk_size_in_bytes,
            r.roots() == Seq::<Seq<u8>>::empty(),
            r.bytes_in_chunk() == 0,
    {
        let inner = CommitmentReader::new();
        let r = ChunksReader {
            inner,
            read_pos: 0,
            chunk_size: chunk_size_in_bytes,
            chunk_roots: Vec::new(),
            absorbed: Ghost(Seq::empty()),
        };
        assert(r.chunk_roots@.len() == 0);
        assert(r.chunk_roots@.len() * (r.chunk_size as nat) == 0);
        assert(r.inner.stream() =~= r.absorbed@.subrange(0, 0));
        assert(r.roots() =~= Seq::<Seq<u8>>::empty());
        r
    }

    /// How many bytes the next read may take when the caller offers room for
    /// `dest_len`: never more than what completes the current 64-byte window.
    pub fn window(&self, dest_len: usize) -> (r: usize)
        requires
            self.wf(),
        ensures
            r == if dest_len < 64 - self.stream().len() % 64 {
                dest_len as int
            } else {
                64 - self.stream().len() % 64
            },
    {
        proof {
            self.lemma_fill();
        }
        self.inner.window(dest_len)
    }

    proof fn lemma_fill(&self)
        requires
            self.wf(),
        ensures
            self.stream().len() % 64 == self.read_pos % 64,
            self.inner.fill() == self.read_pos % 64,
    {
        let cs = self.chunk_size as int;
        let n = self.chunk_roots.len() as int;
        let k = cs / 64;
        assert(cs == 64 * k);
        assert((n * cs + self.read_pos) % 64 == self.read_pos % 64) by (nonlinear_arith)
            requires
                cs == 64 * k,
                n >= 0,
                k >= 0,
        {
            assert(n * cs + self.read_pos == 64 * (n * k) + self.read_pos);
            vstd::arithmetic::div_mod::lemma_mod_multiples_vanish(
                n * k,
                self.read_pos as int,
                64,
            );
        }
    }

    /// Takes in bytes that were read from the source. When the current chunk
    /// is complete, its root is kept and a new chunk begins before the bytes
    /// are taken in.
    pub fn read(&mut self, data: &[u8]) -> (r: usize)
        requires
            old(self).wf(),
            data@.len() <= 64 - old(self).stream().len() % 64,
        ensures
            final(self).wf(),
            final(self).stream() == old(self).stream() + data@,
            final(self).spec_chunk_size() == old(self).spec_chunk_size(),
            r == data@.len(),
            old(self).bytes_in_chunk() >= old(self).spec_chunk_size() ==> final(self).roots()
                == old(self).roots().push(
                commitment_of(
                    old(self).stream().subrange(
                        (old(self).roots().len() * old(self).spec_chunk_size()) as int,
                        old(self).stream().len() as int,
                    ),
                ),
            ) && final(self).bytes_in_chunk() == r,
            old(self).bytes_in_chunk() < old(self).spec_chunk_size() ==> final(self).roots()
                == old(self).roots() && final(self).bytes_in_chunk() == old(self).bytes_in_chunk()
                + r,
    {
        proof {
            lemma_views_len(self.chunk_roots@);
        }
        proof {
            self.lemma_fill();
        }
        let ghost s0 = self.absorbed@;
        let ghost cs = self.chunk_size as int;
        if self.read_pos >= self.chunk_size {
            let ghost n = self.chunk_roots.len() as int;
            assert(self.inner.stream().len() / 64 == cs / 64);
            let root = self.inner.compute();
            let ghost before = self.chunk_roots@;
            self.chunk_roots.push(root);
            assert(node_views(self.chunk_roots@) =~= node_views(before).push(root@));
            self.inner.reset();
            self.read_pos = 0;
            assert(self.absorbed@.len() == (n + 1) * cs) by (nonlinear_arith)
                requires
                    self.absorbed@.len() == n * cs + cs,
            ;
            assert(chunk_of(s0, cs as nat, n) =~= s0.subrange(n * cs, s0.len() as int)) by {
                assert(n * cs + cs == s0.len());
            }
            assert(Seq::<u8>::empty() =~= s0.subrange((n + 1) * cs, s0.len() as int));
        }
        let ghost n = self.chunk_roots.len() as int;
        let ghost s_in = self.inner.stream();
        proof {
            let k = cs / 64;
            let rp = self.read_pos as int;
            assert(rp + data@.len() <= cs) by (nonlinear_arith)
                requires
                    rp < cs,
                    cs == 64 * k,
                    data@.len() <= 64 - rp % 64,
                    rp >= 0,
            {
                vstd::arithmetic::div_mod::lemma_fundamental_div_mod(rp, 64);
            }
        }
        let r = self.inner.read(data);
        self.read_pos = self.read_pos + r;
        let ghost s1 = s0 + data@;
        self.absorbed = Ghost(s1);
        proof {
            assert(self.inner.stream() =~= s1.subrange(n * cs, s1.len() as int));
            assert forall|i: int| 0 <= i < n implies #[trigger] self.chunk_roots@[i]@
                == commitment_of(chunk_of(s1, cs as nat, i)) by {
                assert(i * cs + cs <= n * cs) by (nonlinear_arith)
                    requires
                        i < n,
                        cs >= 0,
                ;
                assert(chunk_of(s1, cs as nat, i) =~= chunk_of(s0, cs as nat, i));
            }
        }
        r
    }

    /// Consumes the aggregator and returns the root of everything read
    /// through it: a chunk that is still open is closed first, then the chunk
    /// roots are reduced pairwise, sequentially.
    pub fn finish(self) -> (r: Domain)
        requires
            self.wf(),
            valid_stream_len(self.stream().len()),
        ensures
            r@ == commitment_of(self.stream()),
    {
        let ghost s = self.absorbed@;
        let ghost cs = self.chunk_size as nat;
        let ghost n = self.chunk_roots.len() as int;
        let ghost rp = self.read_pos as int;
        let ghost big_l = s.len() / 64;
        let ghost big_k = cs / 64;
        assert(s.len() == 64 * big_l);
        assert(cs == 64 * big_k);
        assert(cs <= s.len() ==> (s.len() / cs == n + (if rp == 0 { 0int } else { 1 }) && (rp
            == 0 || rp == cs) && is_pow2(s.len() / cs) && merkle_root(chunk_commitments(s, cs))
            == commitment_of(s))) by {
            if cs <= s.len() {
                lemma_pow2_divides(big_k, big_l);
                let q = big_l / big_k;
                assert(s.len() == q * cs && s.len() / cs == q) by (nonlinear_arith)
                    requires
                        s.len() == 64 * big_l,
                        cs == 64 * big_k,
                        big_l % big_k == 0,
                        q == big_l / big_k,
                        big_k >= 1,
                {
                    vstd::arithmetic::div_mod::lemma_fundamental_div_mod(
                        big_l as int,
                        big_k as int,
                    );
                    vstd::arithmetic::div_mod::lemma_div_by_multiple(q as int, cs as int);
                }
                assert(rp == 0 || rp == cs) by (nonlinear_arith)
                    requires
                        q * cs == n * cs + rp,
                        0 <= rp <= cs,
                        cs >= 1,
                        n >= 0,
                {
                    if q <= n {
                        vstd::arithmetic::mul::lemma_mul_inequality(q as int, n, cs as int);
                    } else if q >= n + 2 {
                        vstd::arithmetic::mul::lemma_mul_inequality(n + 2, q as int, cs as int);
                    } else {
                        assert(q == n + 1);
                    }
                }
                lemma_chunked_commitment(s, cs);
                if rp == cs {
                    assert(cs * q == cs * (n + 1)) by (nonlinear_arith)
                        requires
                            q * cs == n * cs + rp,
                            rp == cs,
                    ;
                    vstd::arithmetic::mul::lemma_mul_equality_converse(cs as int, q as int, n + 1);
                } else {
                    assert(cs * q == cs * n) by (nonlinear_arith)
                        requires
                            q * cs == n * cs + rp,
                            rp == 0,
                    ;
                    vstd::arithmetic::mul::lemma_mul_equality_converse(cs as int, q as int, n);
                }
            }
        }
        assert(s.len() < cs ==> n == 0 && rp == s.len() && rp > 0) by {
            if s.len() < cs {
                assert(big_l != 0);
                assert(s.len() > 0);
                assert(n * cs <= s.len());
                assert(n == 0) by (nonlinear_arith)
                    requires
                        n * cs <= s.len() < cs,
                        n >= 0,
                ;
                assert(n * cs == 0) by (nonlinear_arith)
                    requires
                        n == 0,
                ;
            }
        }
        let mut roots = self.chunk_roots;
        if self.read_pos > 0 {
            assert(self.inner.stream().len() / 64 == big_k || self.inner.stream().len() / 64
                == big_l);
            let root = self.inner.compute();
            roots.push(root);
            proof {
                if cs <= s.len() {
                    assert(self.inner.stream() =~= chunk_of(s, cs, n));
                } else {
                    assert(self.inner.stream() =~= s);
                }
            }
        }
        proof {
            lemma_views_len(roots@);
            if cs <= s.len() {
                assert(node_views(roots@) =~= chunk_commitments(s, cs));
            } else {
                assert(node_views(roots@).len() == 1);
                assert(merkle_root(node_views(roots@)) == roots@[0]@);
            }
        }
        seq_reduce(roots)
    }
}

} // verus!
