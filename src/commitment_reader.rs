//! The node accumulator: folds a stream of padded bytes into leaf hashes, one
//! per 64-byte window, and reduces the leaves to a root on demand.
use crate::domain::{
    hash_leaf, is_pow2, leaf_hashes, lemma_leaves_of_prefix, lemma_leaves_push, merkle_root, node_views, par_reduce, Domain, LEAF_BYTES,
};
use vstd::prelude::*;

verus! {

/// Calculates the commitment of the data piped through it. The data must be
/// bit padded and a power of two bytes long.
pub struct CommitmentReader {
    buffer: Vec<u8>,
    current_tree: Vec<Domain>,
    absorbed: Ghost<Seq<u8>>,
}

impl CommitmentReader {
    /// Every byte absorbed since creation or the last reset, in order.
    pub closed spec fn stream(&self) -> Seq<u8> {
        self.absorbed@
    }

    /// The window being filled holds the bytes after the last complete
    /// window; each complete window has been hashed into a leaf.
    pub closed spec fn wf(&self) -> bool {
        &&& self.buffer.len() < 64
        &&& self.absorbed@.len() == 64 * self.current_tree.len() + self.buffer.len()
        &&& node_views(self.current_tree@) == leaf_hashes(self.absorbed@)
        &&& self.buffer@ == self.absorbed@.subrange(
            64 * self.current_tree.len(),
            self.absorbed@.len() as int,
        )
    }

    /// How many bytes of the current window are filled.
    pub open spec fn fill(&self) -> nat {
        (self.stream().len() % 64) as nat
    }

    /// An accumulator with no byte taken in yet.
    pub fn new() -> (r: CommitmentReader)
        ensures
            r.wf(),
            r.stream() == Seq::<u8>::empty(),
    {
        let r = CommitmentReader {
            buffer: Vec::with_capacity(LEAF_BYTES),
            current_tree: Vec::new(),
            absorbed: Ghost(Seq::empty()),
        };
        assert(leaf_hashes(Seq::<u8>::empty()) =~= Seq::<Seq<u8>>::empty());
        assert(node_views(r.current_tree@) =~= Seq::<Seq<u8>>::empty());
        assert(r.buffer@ =~= Seq::<u8>::empty().subrange(0, 0));
        r
    }

    /// How many bytes the next read may take when the caller offers room for
    /// `dest_len`: never more than what completes the current window.
    pub fn window(&self, dest_len: usize) -> (r: usize)
        requires
            self.wf(),
        ensures
            r == if dest_len < 64 - self.fill() { dest_len as int } else { 64 - self.fill() },
    {
        let left = LEAF_BYTES - self.buffer.len();
        if dest_len < left {
            dest_len
        } else {
            left
        }
    }

    /// Takes in bytes that were read from the source, in order. When the
    /// window becomes full it is hashed into a new leaf and emptied.
    pub fn read(&mut self, data: &[u8]) -> (r: usize)
        requires
            old(self).wf(),
            data@.len() <= 64 - old(self).fill(),
        ensures
            final(self).wf(),
            final(self).stream() == old(self).stream() + data@,
            r == data@.len(),
    {
        let ghost s0 = self.absorbed@;
        let mut i: usize = 0;
        while i < data.len()
            invariant
                self.current_tree == old(self).current_tree,
                self.absorbed@ == s0,
                s0 == old(self).absorbed@,
                old(self).wf(),
                data@.len() <= 64 - old(self).fill(),
                i <= data@.len(),
                self.buffer@ == old(self).buffer@ + data@.subrange(0, i as int),
            decreases data@.len() - i,
        {
            self.buffer.push(data[i]);
            i += 1;
        }
        let ghost s1 = s0 + data@;
        assert(data@.subrange(0, data@.len() as int) =~= data@);
        assert(self.buffer@ =~= s1.subrange(64 * self.current_tree.len(), s1.len() as int));
        proof {
            lemma_leaves_of_prefix(s0, self.current_tree.len() as nat);
            assert(s1.subrange(0, 64 * self.current_tree.len()) =~= s0.subrange(
                0,
                64 * self.current_tree.len(),
            ));
        }
        self.absorbed = Ghost(s1);
        self.try_hash();
        data.len()
    }

    /// Hashes the window into a new leaf, but only once it is full.
    fn try_hash(&mut self)
        requires
            old(self).buffer.len() <= 64,
            old(self).absorbed@.len() == 64 * old(self).current_tree.len()
                + old(self).buffer.len(),
            node_views(old(self).current_tree@) == leaf_hashes(
                old(self).absorbed@.subrange(0, 64 * old(self).current_tree.len()),
            ),
            old(self).buffer@ == old(self).absorbed@.subrange(
                64 * old(self).current_tree.len(),
                old(self).absorbed@.len() as int,
            ),
        ensures
            final(self).wf(),
            final(self).absorbed@ == old(self).absorbed@,
    {
        let ghost s = self.absorbed@;
        let ghost t = self.current_tree.len();
        if self.buffer.len() < LEAF_BYTES {
            proof {
                lemma_leaves_of_prefix(s, t as nat);
            }
            return;
        }
        let hash = hash_leaf(&self.buffer);
        self.current_tree.push(hash);
        self.buffer.clear();
        assert(self.buffer@ =~= s.subrange(64 * (t + 1), s.len() as int));
        proof {
            lemma_leaves_push(s, t as nat);
        }
        assert(node_views(self.current_tree@) =~= leaf_hashes(s));
    }

    /// The root over the leaves hashed so far, reduced in parallel. Bytes of
    /// an incomplete window take no part.
    pub fn compute(&self) -> (r: Domain)
        requires
            self.wf(),
            is_pow2(self.stream().len() / 64),
        ensures
            r@ == merkle_root(leaf_hashes(self.stream())),
    {
        par_reduce(&self.current_tree)
    }

    /// Forgets every leaf and any partly filled window.
    pub fn reset(&mut self)
        ensures
            final(self).wf(),
            final(self).stream() == Seq::<u8>::empty(),
    {
        self.buffer.clear();
        self.current_tree.clear();
        self.absorbed = Ghost(Seq::empty());
        assert(leaf_hashes(Seq::<u8>::empty()) =~= Seq::<Seq<u8>>::empty());
        assert(node_views(self.current_tree@) =~= Seq::<Seq<u8>>::empty());
        assert(self.buffer@ =~= Seq::<u8>::empty().subrange(0, 0));
    }
}

} // verus!
