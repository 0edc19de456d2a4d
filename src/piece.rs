//! The decisions of piece ingestion: which piece sizes are accepted, how many
//! zero bytes surround a piece, whether the copied stream has the size that
//! was declared, and the record that describes an ingested piece.
use crate::domain::{is_pow2, Domain};
use filecoin_proofs::pieces::{get_piece_alignment, sum_piece_bytes_with_alignment};
use filecoin_proofs::UnpaddedBytesAmount;
use vstd::prelude::*;

verus! {

/// The smallest piece, in unpadded bytes: four nodes once padded.
pub const MINIMUM_PIECE_SIZE: u64 = 127;

/// The chunk size that ingestion uses for its aggregator (64 MiB).
pub const CHUNK_SIZE: usize = 64 * 1024 * 1024;

/// The largest piece for which the alignment is computed.
pub const MAX_ALIGNED_PIECE: u64 = 0x8000_0000_0000_0000;

#[derive(Debug, Clone, Copy, PartialEq, Eq, Structural)]
pub enum AddPieceError {
    /// The piece is smaller than the minimum.
    PieceTooSmall,
    /// The padded piece size is not a power of two.
    NotPowerOfTwo,
    /// The piece, its padding or its alignment does not fit in 64 bits.
    SizeOverflow,
    /// The source gave no byte before its end.
    EmptySource,
    /// The source gave another number of bytes than the declared size.
    SizeMismatch,
    /// The commitment is all zero bytes.
    ZeroCommitment,
}

/// What is known of an ingested piece: its commitment and unpadded size.
#[derive(Debug, Clone, Copy, PartialEq, Eq)]
pub struct PieceInfo {
    pub commitment: Domain,
    pub size: u64,
}

/// Padded size of `u` unpadded bytes: every 254 data bits take a 256-bit
/// element, and a last partial byte counts whole.
pub open spec fn padded_size(u: nat) -> nat {
    let bits = (8 * u / 254) * 256 + (8 * u) % 254;
    (bits + 7) / 8
}

/// A piece size that ingestion accepts.
pub open spec fn piece_size_ok(u: nat) -> bool {
    u >= MINIMUM_PIECE_SIZE && is_pow2(padded_size(u))
}

/// The span that a piece occupies once aligned: the first of `n`, `2n`,
/// `4n`, ... that holds it.
pub open spec fn span_from(n: nat, piece: nat) -> nat
    decreases (if n < piece { piece - n } else { 0 }),
{
    if n == 0 || n >= piece {
        n
    } else {
        span_from(2 * n, piece)
    }
}

pub open spec fn aligned_span(piece: nat) -> nat {
    span_from(MINIMUM_PIECE_SIZE as nat, piece)
}

/// The zero bytes that go before a piece so that it starts on a multiple of
/// its span.
pub open spec fn left_alignment(written: nat, piece: nat) -> nat {
    let span = aligned_span(piece);
    if written % span > 0 {
        (span - written % span) as nat
    } else {
        0
    }
}

/// The zero bytes that go after a piece to fill its span.
pub open spec fn right_alignment(piece: nat) -> nat {
    (aligned_span(piece) - piece) as nat
}

/// The bytes that earlier pieces take, each with its alignment.
pub open spec fn written_with_alignment(pieces: Seq<u64>) -> nat
    decreases pieces.len(),
{
    if pieces.len() == 0 {
        0
    } else {
        let acc = written_with_alignment(pieces.drop_last());
        let p = pieces.last() as nat;
        acc + left_alignment(acc, p) + p + right_alignment(p)
    }
}

/// Earlier pieces whose aligned sum fits in 64 bits after every piece, each
/// piece small enough for its alignment to be computed.
pub open spec fn previous_pieces_fit(pieces: Seq<u64>) -> bool
    decreases pieces.len(),
{
    pieces.len() == 0 || {
        &&& previous_pieces_fit(pieces.drop_last())
        &&& pieces.last() <= MAX_ALIGNED_PIECE
        &&& written_with_alignment(pieces) <= u64::MAX
    }
}

/// Every prefix of earlier pieces that fit fits too.
proof fn lemma_prefix_fits(pieces: Seq<u64>, i: int)
    requires
        previous_pieces_fit(pieces),
        0 <= i <= pieces.len(),
    ensures
        previous_pieces_fit(pieces.subrange(0, i)),
    decreases pieces.len(),
{
    if i < pieces.len() {
        assert(pieces.drop_last().subrange(0, i) =~= pieces.subrange(0, i));
        lemma_prefix_fits(pieces.drop_last(), i);
    } else {
        assert(pieces.subrange(0, i) =~= pieces);
    }
}

/// Relies on filecoin-proofs' `get_piece_alignment`: the span starts at 127
/// and doubles until it holds the piece; the left bytes reach the next
/// multiple of the span, the right bytes fill the span.
#[verifier::external_body]
fn piece_alignment(written_bytes: u64, piece_bytes: u64) -> (r: (u64, u64))
    requires
        piece_bytes <= MAX_ALIGNED_PIECE,
    ensures
        r.0 == left_alignment(written_bytes as nat, piece_bytes as nat),
        r.1 == right_alignment(piece_bytes as nat),
{
    let a = get_piece_alignment(UnpaddedBytesAmount(written_bytes), UnpaddedBytesAmount(piece_bytes));
    (a.left_bytes.0, a.right_bytes.0)
}

/// Relies on filecoin-proofs' `sum_piece_bytes_with_alignment`: a fold of
/// each piece with its alignment after the bytes before it.
#[verifier::external_body]
fn previous_pieces_bytes(pieces: &[u64]) -> (r: u64)
    requires
        previous_pieces_fit(pieces@),
    ensures
        r == written_with_alignment(pieces@),
{
    let amounts: Vec<UnpaddedBytesAmount> = pieces.iter().map(|p| UnpaddedBytesAmount(*p)).collect();
    sum_piece_bytes_with_alignment(&amounts).0
}

/// Padded size of `u` unpadded bytes.
pub fn to_padded_bytes(u: u64) -> (r: u128)
    ensures
        r == padded_size(u as nat),
{
    let b: u128 = 8 * (u as u128);
    assert(b / 254 <= b) by (nonlinear_arith)
        requires
            b >= 0,
    ;
    let bits: u128 = (b / 254) * 256 + b % 254;
    (bits + 7) / 8
}

/// Whether the aligned sum of the earlier pieces fits in 64 bits after every
/// piece.
pub fn check_previous_pieces(pieces: &[u64]) -> (r: bool)
    ensures
        r == previous_pieces_fit(pieces@),
{
    let mut acc: u64 = 0;
    let mut i: usize = 0;
    while i < pieces.len()
        invariant
            i <= pieces@.len(),
            previous_pieces_fit(pieces@.subrange(0, i as int)),
            acc == written_with_alignment(pieces@.subrange(0, i as int)),
        decreases pieces@.len() - i,
    {
        let ghost next = pieces@.subrange(0, i + 1);
        assert(next.drop_last() =~= pieces@.subrange(0, i as int));
        let p = pieces[i];
        if p > MAX_ALIGNED_PIECE {
            proof {
                lemma_fits_prefix_or_not(pieces@, i + 1);
            }
            return false;
        }
        let (left, right) = piece_alignment(acc, p);
        let total: u128 = acc as u128 + left as u128 + p as u128 + right as u128;
        if total > u64::MAX as u128 {
            proof {
                lemma_fits_prefix_or_not(pieces@, i + 1);
            }
            return false;
        }
        acc = total as u64;
        i += 1;
    }
    assert(pieces@.subrange(0, pieces@.len() as int) =~= pieces@);
    true
}

proof fn lemma_fits_prefix_or_not(pieces: Seq<u64>, i: int)
    requires
        0 <= i <= pieces.len(),
        !previous_pieces_fit(pieces.subrange(0, i)),
    ensures
        !previous_pieces_fit(pieces),
{
    if previous_pieces_fit(pieces) {
        lemma_prefix_fits(pieces, i);
    }
}

/// Whether `n` is a power of two.
pub fn is_power_of_two(n: u128) -> (r: bool)
    ensures
        r == is_pow2(n as nat),
{
    if n == 0 {
        return false;
    }
    let mut m: u128 = n;
    while m > 1 && m % 2 == 0
        invariant
            m > 0,
            is_pow2(m as nat) == is_pow2(n as nat),
        decreases m,
    {
        m = m / 2;
    }
    m == 1
}

/// Checks a declared piece size: at least the minimum, and a padded size
/// that is a power of two.
pub fn ensure_piece_size(piece_size: u64) -> (r: Result<(), AddPieceError>)
    ensures
        piece_size < MINIMUM_PIECE_SIZE ==> r == Err::<(), AddPieceError>(
            AddPieceError::PieceTooSmall,
        ),
        piece_size >= MINIMUM_PIECE_SIZE && !is_pow2(padded_size(piece_size as nat)) ==> r
            == Err::<(), AddPieceError>(AddPieceError::NotPowerOfTwo),
        r is Ok <==> piece_size_ok(piece_size as nat),
{
    if piece_size < MINIMUM_PIECE_SIZE {
        return Err(AddPieceError::PieceTooSmall);
    }
    let padded = to_padded_bytes(piece_size);
    if !is_power_of_two(padded) {
        return Err(AddPieceError::NotPowerOfTwo);
    }
    Ok(())
}

/// How a piece is laid out in the target, decided before any byte is
/// written: sizes in unpadded bytes, zero runs in padded bytes.
#[derive(Debug, Clone, Copy, PartialEq, Eq, Structural)]
pub struct PiecePlan {
    pub piece_size: u64,
    pub padded_size: u64,
    pub left_bytes: u64,
    pub right_bytes: u64,
    pub left_zeros: u64,
    pub right_zeros: u64,
    pub written: u64,
}

/// Every size of the plan, and of the earlier pieces, fits in 64 bits.
pub open spec fn plan_fits(pieces: Seq<u64>, piece: nat) -> bool {
    let left = left_alignment(written_with_alignment(pieces), piece);
    let right = right_alignment(piece);
    &&& previous_pieces_fit(pieces)
    &&& piece <= MAX_ALIGNED_PIECE
    &&& padded_size(piece) <= u64::MAX
    &&& left + right + piece <= u64::MAX
    &&& padded_size(left) <= u64::MAX
    &&& padded_size(right) <= u64::MAX
}

/// The plan of an accepted piece that fits.
pub open spec fn spec_plan(pieces: Seq<u64>, piece: nat) -> PiecePlan {
    let left = left_alignment(written_with_alignment(pieces), piece);
    let right = right_alignment(piece);
    PiecePlan {
        piece_size: piece as u64,
        padded_size: padded_size(piece) as u64,
        left_bytes: left as u64,
        right_bytes: right as u64,
        left_zeros: padded_size(left) as u64,
        right_zeros: padded_size(right) as u64,
        written: (left + right + piece) as u64,
    }
}

/// Validates a piece size and lays the piece out after the earlier pieces
/// `piece_lengths` of the same target.
pub fn plan_piece(piece_lengths: &[u64], piece_size: u64) -> (r: Result<PiecePlan, AddPieceError>)
    ensures
        piece_size < MINIMUM_PIECE_SIZE ==> r == Err::<PiecePlan, AddPieceError>(
            AddPieceError::PieceTooSmall,
        ),
        piece_size >= MINIMUM_PIECE_SIZE && !is_pow2(padded_size(piece_size as nat)) ==> r
            == Err::<PiecePlan, AddPieceError>(AddPieceError::NotPowerOfTwo),
        piece_size_ok(piece_size as nat) && !plan_fits(piece_lengths@, piece_size as nat) ==> r
            == Err::<PiecePlan, AddPieceError>(AddPieceError::SizeOverflow),
        piece_size_ok(piece_size as nat) && plan_fits(piece_lengths@, piece_size as nat) ==> r
            == Ok::<PiecePlan, AddPieceError>(spec_plan(piece_lengths@, piece_size as nat)),
        r matches Ok(plan) ==> plan.written == plan.left_bytes + plan.right_bytes
            + plan.piece_size,
{
    match ensure_piece_size(piece_size) {
        Err(e) => {
            return Err(e);
        },
        Ok(()) => {},
    }
    let padded = to_padded_bytes(piece_size);
    if !check_previous_pieces(piece_lengths) || piece_size > MAX_ALIGNED_PIECE || padded
        > u64::MAX as u128 {
        return Err(AddPieceError::SizeOverflow);
    }
    let written_bytes = previous_pieces_bytes(piece_lengths);
    let (left, right) = piece_alignment(written_bytes, piece_size);
    let left_zeros = to_padded_bytes(left);
    let right_zeros = to_padded_bytes(right);
    if left as u128 + right as u128 + piece_size as u128 > u64::MAX as u128 || left_zeros
        > u64::MAX as u128 || right_zeros > u64::MAX as u128 {
        return Err(AddPieceError::SizeOverflow);
    }
    Ok(
        PiecePlan {
            piece_size,
            padded_size: padded as u64,
            left_bytes: left,
            right_bytes: right,
            left_zeros: left_zeros as u64,
            right_zeros: right_zeros as u64,
            written: left + right + piece_size,
        },
    )
}

/// Checks the number of padded bytes copied from the source against the
/// plan: none at all, or an amount other than the padded piece size,
/// is refused.
pub fn check_copied(plan: &PiecePlan, copied: u64) -> (r: Result<(), AddPieceError>)
    ensures
        copied == 0 ==> r == Err::<(), AddPieceError>(AddPieceError::EmptySource),
        copied != 0 && copied != plan.padded_size ==> r == Err::<(), AddPieceError>(
            AddPieceError::SizeMismatch,
        ),
        copied != 0 && copied == plan.padded_size ==> r is Ok,
{
    if copied == 0 {
        return Err(AddPieceError::EmptySource);
    }
    if copied != plan.padded_size {
        return Err(AddPieceError::SizeMismatch);
    }
    Ok(())
}

/// A commitment made of zero bytes only.
pub open spec fn is_zero_commitment(c: Seq<u8>) -> bool {
    forall|i: int| 0 <= i < c.len() ==> #[trigger] c[i] == 0
}

/// The record of an ingested piece, with the bytes that it took in the
/// target, alignment included.
pub fn piece_result(plan: &PiecePlan, commitment: Domain) -> (r: Result<(PieceInfo, u64), AddPieceError>)
    ensures
        is_zero_commitment(commitment@) ==> r == Err::<(PieceInfo, u64), AddPieceError>(
            AddPieceError::ZeroCommitment,
        ),
        !is_zero_commitment(commitment@) ==> r == Ok::<(PieceInfo, u64), AddPieceError>(
            (PieceInfo { commitment, size: plan.piece_size }, plan.written),
        ),
{
    let mut i: usize = 0;
    while i < 32
        invariant
            i <= 32,
            forall|j: int| 0 <= j < i ==> commitment@[j] == 0,
        decreases 32 - i,
    {
        if commitment[i] != 0 {
            return Ok((PieceInfo { commitment, size: plan.piece_size }, plan.written));
        }
        i += 1;
    }
    Err(AddPieceError::ZeroCommitment)
}

} // verus!
