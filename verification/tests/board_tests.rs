use rudoku::board::empty_board;
use rudoku::board::index;
use rudoku::board::index2crd;
use rudoku::board::is_equal;

#[test]
fn test_set_get() {
    let mut board = empty_board();
    board.set(3, 4, 5);
    assert_eq!(board.get(3, 4), 5);
}

#[test]
fn test_set_get_known() {
    let mut board = empty_board();
    assert_eq!(board.is_known(4, 5), false);
    board.set_known(4, 5);
    assert_eq!(board.is_known(4, 5), true);
}

#[test]
fn test_in_row_col() {
    let mut board = empty_board();
    board.set(0, 1, 1);
    board.set(7, 3, 2);
    assert_eq!(board.is_in_row(0, 1), true);
    assert_eq!(board.is_in_row(7, 2), true);
    assert_eq!(board.is_in_row(3, 2), false);
    assert_eq!(board.is_in_row(1, 1), false);

    assert_eq!(board.is_in_col(0, 1), false);
    assert_eq!(board.is_in_col(7, 2), false);
    assert_eq!(board.is_in_col(3, 2), true);
    assert_eq!(board.is_in_col(1, 1), true);

    assert_eq!(board.is_in_tile(0, 0, 1), true);
    assert_eq!(board.is_in_tile(2, 1, 2), true);
    assert_eq!(board.is_in_tile(0, 0, 2), false);
    assert_eq!(board.is_in_tile(2, 1, 1), false);

    assert_eq!(board.valid_insert(0, 0, 1), false);
    assert_eq!(board.valid_insert(0, 0, 2), true);
    assert_eq!(board.valid_insert(8, 3, 2), false);
    assert_eq!(board.valid_insert(7, 4, 2), false);
    assert_eq!(board.valid_insert(8, 4, 2), false);
    assert_eq!(board.valid_insert(8, 5, 2), false);
}

#[test]
fn test_idx2row() {
    for idx in 0..81 {
        let (r, c) = index2crd(idx);
        let got = index(r, c);
        assert_eq!(idx, got);
    }
}

#[test]
fn test_index_roundtrip_both_ways() {
    for row in 0..9 {
        for col in 0..9 {
            let idx = index(row, col);
            assert!(idx < 81);
            assert_eq!(index2crd(idx), (row, col));
        }
    }
}

#[test]
fn test_empty_board_all_zero_unknown() {
    let board = empty_board();
    for row in 0..9 {
        for col in 0..9 {
            assert_eq!(board.get(row, col), 0);
            assert_eq!(board.is_known(row, col), false);
        }
    }
}

#[test]
fn test_set_overwrites_including_zero() {
    let mut board = empty_board();
    board.set_known(2, 2);
    board.set(2, 2, 7);
    assert_eq!(board.get(2, 2), 7);
    board.set(2, 2, 0);
    assert_eq!(board.get(2, 2), 0);
    // the known flag was never touched by the writes
    assert_eq!(board.is_known(2, 2), true);
}

#[test]
fn test_valid_insert_ignores_own_cell() {
    let mut board = empty_board();
    board.set(0, 0, 5);
    // no peer of (0, 0) holds 5, so placing 5 there is legal even though
    // the cell itself currently holds it
    assert_eq!(board.valid_insert(0, 0, 5), true);
    // a peer holding the value still blocks it
    board.set(0, 8, 5);
    assert_eq!(board.valid_insert(0, 0, 5), false);
    board.set(0, 8, 0);
    board.set(4, 0, 5);
    assert_eq!(board.valid_insert(0, 0, 5), false);
    board.set(4, 0, 0);
    board.set(1, 1, 5);
    assert_eq!(board.valid_insert(0, 0, 5), false);
}

#[test]
fn test_valid_insert_idempotent() {
    let mut board = empty_board();
    board.set(0, 1, 1);
    board.set(7, 3, 2);
    for value in 1..10 {
        let first = board.valid_insert(4, 4, value);
        let second = board.valid_insert(4, 4, value);
        assert_eq!(first, second);
    }
}

#[test]
fn test_is_equal_compares_digits_only() {
    let mut b1 = empty_board();
    let mut b2 = empty_board();
    assert_eq!(is_equal(&b1, &b2), true);
    b1.set_known(0, 0);
    assert_eq!(is_equal(&b1, &b2), true);
    b2.set(8, 8, 9);
    assert_eq!(is_equal(&b1, &b2), false);
    b1.set(8, 8, 9);
    assert_eq!(is_equal(&b1, &b2), true);
}
