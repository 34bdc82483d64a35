use n_queens::utils::generate_bitset_columns;
use n_queens::utils::parse_board_row;
use n_queens::utils::ParseError;

#[test]
fn test_generate_bitset_columns() {
    let n = 4;
    let queens = vec![(0, 2), (1, 0), (2, 3)];
    let bitsets = generate_bitset_columns(n, &queens).unwrap();
    assert_eq!(bitsets, vec![0b1111, 0b0111, 0b1111, 0b1111]);
}

#[test]
fn conflict_same_row() {
    let queens = vec![(2, 0), (2, 3)];
    assert!(generate_bitset_columns(5, &queens).is_err());
}

#[test]
fn conflict_same_column() {
    let queens = vec![(0, 1), (3, 1)];
    assert!(generate_bitset_columns(5, &queens).is_err());
}

#[test]
fn conflict_same_diagonal() {
    let queens = vec![(0, 0), (3, 3)];
    assert!(generate_bitset_columns(5, &queens).is_err());
    let queens = vec![(4, 0), (1, 3)];
    assert!(generate_bitset_columns(5, &queens).is_err());
}

#[test]
fn conflict_same_square() {
    let queens = vec![(2, 2), (2, 2)];
    assert!(generate_bitset_columns(5, &queens).is_err());
}

#[test]
fn no_conflict_for_independent_queens() {
    // (0, 1) and (2, 4): different row and column, |0 - 2| != |1 - 4|.
    let queens = vec![(0, 1), (2, 4)];
    assert!(generate_bitset_columns(5, &queens).is_ok());
}

#[test]
fn masks_at_maximum_board_size() {
    // A single queen in the last row and column of a 128-wide board: its
    // row, column, and main diagonal reach every edge without overflow.
    let n = 128;
    let queens = vec![(127u8, 127u8)];
    let masks = generate_bitset_columns(n, &queens).unwrap();
    assert_eq!(masks.len(), 128);
    for c in 0..127usize {
        // row 127 (the queen's row) and row c (the "\" diagonal) are attacked
        let expected: u128 = (1u128 << 127) | (1u128 << c);
        assert_eq!(masks[c], expected, "column {c}");
    }
    // the queen's own column is fully attacked
    assert_eq!(masks[127], u128::MAX);
}

#[test]
fn parse_row_reads_queens() {
    let line: Vec<u8> = b"0Q0Q".to_vec();
    let ps = parse_board_row(4, 2, &line).unwrap();
    assert_eq!(ps, vec![(2, 1), (2, 3)]);
}

#[test]
fn parse_row_empty_of_queens() {
    let line: Vec<u8> = b"00000".to_vec();
    let ps = parse_board_row(5, 0, &line).unwrap();
    assert!(ps.is_empty());
}

#[test]
fn parse_row_wrong_length() {
    let line: Vec<u8> = b"0Q0".to_vec();
    assert_eq!(parse_board_row(4, 0, &line), Err(ParseError::WrongLength));
}

#[test]
fn parse_row_bad_character() {
    let line: Vec<u8> = b"0Qx0".to_vec();
    assert_eq!(parse_board_row(4, 0, &line), Err(ParseError::BadCharacter));
}
