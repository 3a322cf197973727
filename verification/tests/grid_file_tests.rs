use robo::grid_file::{decode_grid, encode_grid, GridFileError};

#[test]
fn encode_header_and_cells() {
    let bytes = encode_grid(400, 3, 0x3D4C_CCCD, &[true, false, true]);
    assert_eq!(
        bytes,
        vec![
            0x90, 0x01, 0, 0, 3, 0, 0, 0, 0xCD, 0xCC, 0x4C, 0x3D, 3, 0, 0, 0, 0, 0, 0, 0, 1, 0, 1
        ]
    );
}

#[test]
fn encode_uses_f32_bits_of_cell_size() {
    let bytes = encode_grid(1, 1, 0.05f32.to_bits(), &[false]);
    assert_eq!(&bytes[8..12], &0.05f32.to_le_bytes());
}

#[test]
fn decode_reads_back_encoded_grid() {
    let cells = vec![true, false, false, true, true, false];
    let bytes = encode_grid(2, 3, 12345, &cells);
    assert_eq!(decode_grid(&bytes), Ok((2, 3, 12345, cells)));
}

#[test]
fn decode_empty_grid() {
    let bytes = encode_grid(0, 0, 0, &[]);
    assert_eq!(bytes.len(), 20);
    assert_eq!(decode_grid(&bytes), Ok((0, 0, 0, vec![])));
}

#[test]
fn decode_nonzero_bytes_are_occupied() {
    let mut bytes = encode_grid(1, 3, 0, &[false, false, false]);
    bytes[20] = 7;
    bytes[22] = 255;
    assert_eq!(decode_grid(&bytes), Ok((1, 3, 0, vec![true, false, true])));
}

#[test]
fn decode_ignores_trailing_bytes() {
    let mut bytes = encode_grid(1, 2, 9, &[true, false]);
    bytes.extend_from_slice(&[1, 1, 1]);
    assert_eq!(decode_grid(&bytes), Ok((1, 2, 9, vec![true, false])));
}

#[test]
fn decode_short_header_is_truncated() {
    let bytes = encode_grid(1, 2, 9, &[true, false]);
    assert_eq!(decode_grid(&bytes[..19]), Err(GridFileError::Truncated));
    assert_eq!(decode_grid(&[]), Err(GridFileError::Truncated));
}

#[test]
fn decode_missing_cells_is_truncated() {
    let bytes = encode_grid(1, 2, 9, &[true, false]);
    assert_eq!(decode_grid(&bytes[..21]), Err(GridFileError::Truncated));
}

#[test]
fn decode_huge_count_is_truncated() {
    let mut bytes = encode_grid(1, 1, 0, &[true]);
    for b in &mut bytes[12..20] {
        *b = 0xFF;
    }
    assert_eq!(decode_grid(&bytes), Err(GridFileError::Truncated));
}
