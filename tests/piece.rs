use add_piece::piece::{
    check_copied, check_previous_pieces, ensure_piece_size, is_power_of_two, piece_result,
    plan_piece, to_padded_bytes, AddPieceError, PieceInfo,
};

#[test]
fn piece_below_minimum_is_rejected() {
    assert_eq!(ensure_piece_size(0), Err(AddPieceError::PieceTooSmall));
    assert_eq!(ensure_piece_size(126), Err(AddPieceError::PieceTooSmall));
    assert_eq!(plan_piece(&[], 126), Err(AddPieceError::PieceTooSmall));
}

#[test]
fn padded_size_not_power_of_two_is_rejected() {
    assert_eq!(ensure_piece_size(128), Err(AddPieceError::NotPowerOfTwo));
    assert_eq!(ensure_piece_size(1000), Err(AddPieceError::NotPowerOfTwo));
    assert_eq!(ensure_piece_size(127 * 3), Err(AddPieceError::NotPowerOfTwo));
    assert_eq!(plan_piece(&[], 127 * 3), Err(AddPieceError::NotPowerOfTwo));
}

#[test]
fn valid_piece_sizes_are_accepted() {
    assert_eq!(ensure_piece_size(127), Ok(()));
    assert_eq!(ensure_piece_size(254), Ok(()));
    assert_eq!(ensure_piece_size(1016), Ok(()));
    assert_eq!(ensure_piece_size(127 << 20), Ok(()));
}

#[test]
fn padding_sizes() {
    assert_eq!(to_padded_bytes(127), 128);
    assert_eq!(to_padded_bytes(1016), 1024);
    assert_eq!(to_padded_bytes(1), 1);
    assert_eq!(to_padded_bytes(128), 129);
    assert_eq!(to_padded_bytes(u64::MAX), 18_591_994_027_045_847_297);
}

#[test]
fn power_of_two_check() {
    assert!(is_power_of_two(1));
    assert!(is_power_of_two(1024));
    assert!(is_power_of_two(1u128 << 64));
    assert!(!is_power_of_two(0));
    assert!(!is_power_of_two(129));
}

#[test]
fn plan_of_first_piece_has_no_alignment() {
    let plan = plan_piece(&[], 1016).unwrap();
    assert_eq!(plan.piece_size, 1016);
    assert_eq!(plan.padded_size, 1024);
    assert_eq!(plan.left_bytes, 0);
    assert_eq!(plan.right_bytes, 0);
    assert_eq!(plan.left_zeros, 0);
    assert_eq!(plan.right_zeros, 0);
    assert_eq!(plan.written, 1016);
}

#[test]
fn plan_aligns_after_earlier_pieces() {
    let plan = plan_piece(&[127], 254).unwrap();
    assert_eq!(plan.left_bytes, 127);
    assert_eq!(plan.right_bytes, 0);
    assert_eq!(plan.left_zeros, 128);
    assert_eq!(plan.right_zeros, 0);
    assert_eq!(plan.written, 127 + 254);
    assert_eq!(plan.written, plan.left_bytes + plan.right_bytes + plan.piece_size);

    let plan = plan_piece(&[127, 254], 508).unwrap();
    assert_eq!(plan.left_bytes, 508 - (127 + 127 + 254));
    assert_eq!(plan.written, plan.left_bytes + plan.right_bytes + plan.piece_size);
}

#[test]
fn plan_of_largest_piece_overflows() {
    assert_eq!(plan_piece(&[], 127 << 57), Err(AddPieceError::SizeOverflow));
    assert!(plan_piece(&[], 127 << 56).is_ok());
}

#[test]
fn empty_source_is_rejected() {
    let plan = plan_piece(&[], 1016).unwrap();
    assert_eq!(check_copied(&plan, 0), Err(AddPieceError::EmptySource));
}

#[test]
fn short_source_is_rejected() {
    let plan = plan_piece(&[], 1016).unwrap();
    assert_eq!(check_copied(&plan, 512), Err(AddPieceError::SizeMismatch));
    assert_eq!(check_copied(&plan, 2048), Err(AddPieceError::SizeMismatch));
    assert_eq!(check_copied(&plan, 1025), Err(AddPieceError::SizeMismatch));
    assert_eq!(check_copied(&plan, 1024), Ok(()));
}

#[test]
fn zero_commitment_is_rejected() {
    let plan = plan_piece(&[], 1016).unwrap();
    assert_eq!(piece_result(&plan, [0u8; 32]), Err(AddPieceError::ZeroCommitment));
}

#[test]
fn result_carries_size_and_written_bytes() {
    let plan = plan_piece(&[127], 254).unwrap();
    let mut commitment = [0u8; 32];
    commitment[31] = 1;
    assert_eq!(
        piece_result(&plan, commitment),
        Ok((PieceInfo { commitment, size: 254 }, 381))
    );
}

#[test]
fn padding_sizes_match_fr32() {
    for u in [0u64, 1, 31, 32, 126, 127, 128, 254, 1000, 1016, 127 << 20, 123_456_789] {
        assert_eq!(to_padded_bytes(u), fr32::to_padded_bytes(u as usize) as u128);
    }
}

#[test]
fn many_small_earlier_pieces_are_accepted() {
    let earlier = vec![127u64; 2000];
    assert!(check_previous_pieces(&earlier));
    let plan = plan_piece(&earlier, 254).unwrap();
    assert_eq!(plan.left_bytes, 0);
    assert_eq!(plan.written, 254);
}

#[test]
fn earlier_pieces_that_overflow_are_rejected() {
    let big = 127u64 << 56;
    assert!(check_previous_pieces(&[big, big]));
    assert!(plan_piece(&[big, big], 127).is_ok());
    assert!(!check_previous_pieces(&[big, big, big]));
    assert_eq!(plan_piece(&[big, big, big], 127), Err(AddPieceError::SizeOverflow));
    assert!(!check_previous_pieces(&[u64::MAX]));
    assert_eq!(plan_piece(&[u64::MAX], 127), Err(AddPieceError::SizeOverflow));
}
