#![allow(unused_imports, unused_variables, unused_mut, dead_code, unused_must_use, unused_parens)]
use std::error::Error;
use taflzero::board::Board;
use taflzero::board::constants::{BOARD_SIZE, HOLE, INITIAL_FEN, SQS};
use taflzero::board::types::{OptionalSquare, Piece, Side, Square};
use taflzero::board::rules::{Rules, RulesEnum};
use taflzero::board::notation::get_square_from_algebraic;
use taflzero::board::picture::set_board_from_str;
use taflzero::board::utils::{get_col, get_row, get_square};
use taflzero::moves::mv::Move;
use taflzero::moves::undo::{CapturedPiece, UndoMove};
use taflzero::moves::movegen::MoveGen;

fn create_move_from_algebraic(s: &str) -> Result<Move, String> {
    Board::new().create_move_from_algebraic(s)
}

fn expect_occupied(board: &Board, sq: Square) {
    let row = get_row(sq, 11);
    let col = get_col(sq, 11);
    assert_ne!(board.row_occ[row] & (1 << col), 0);
    assert_ne!(board.col_occ[col] & (1 << row), 0);
}

fn expect_not_occupied(board: &Board, sq: Square) {
    let row = get_row(sq, 11);
    let col = get_col(sq, 11);
    assert_eq!(board.row_occ[row] & (1 << col), 0);
    assert_eq!(board.col_occ[col] & (1 << row), 0);
}

fn expect_defender_in_defenders_array(board: &Board, sq: Square) {
    assert!(board.defenders_count > 0);
    assert!(board.defenders[..board.defenders_count as usize].contains(&sq));
}

fn expect_attacker_in_attackers_array(board: &Board, sq: Square) {
    assert!(board.attackers_count > 0);
    assert!(board.attackers[..board.attackers_count as usize].contains(&sq));
}

fn expect_defender_not_in_defenders_array(board: &Board, sq: Square) {
    if board.defenders_count == 0 {
        return;
    }
    assert!(!board.defenders[..board.defenders_count as usize].contains(&sq));
}

fn expect_attacker_not_in_attackers_array(board: &Board, sq: Square) {
    if board.attackers_count == 0 {
        return;
    }
    assert!(!board.attackers[..board.attackers_count as usize].contains(&sq));
}

fn expect_defender_on(board: &Board, sq_str: &str) {
    let sq = get_square_from_algebraic(sq_str);
    assert_eq!(board.board[sq], Piece::DEFENDER);
    expect_defender_in_defenders_array(board, sq);
    expect_occupied(board, sq);
}

fn expect_attacker_on(board: &Board, sq_str: &str) {
    let sq = get_square_from_algebraic(sq_str);
    assert_eq!(board.board[sq], Piece::ATTACKER);
    expect_attacker_in_attackers_array(board, sq);
    expect_occupied(board, sq);
}

fn expect_king_on(board: &Board, sq_str: &str) {
    let sq = get_square_from_algebraic(sq_str);
    assert_eq!(board.board[sq], Piece::KING);
    assert_eq!(board.king_sq as Square, sq);
    expect_occupied(board, sq);
}

fn expect_attackers_count(board: &Board, count: u8) {
    assert_eq!(board.attackers_count, count)
}

fn expect_defenders_count(board: &Board, count: u8) {
    assert_eq!(board.defenders_count, count)
}

fn expect_no_pice_on(board: &Board, sq_str: &str) {
    let sq = get_square_from_algebraic(sq_str);
    assert_eq!(board.board[sq], Piece::EMPTY);
    expect_not_occupied(board, sq);
    expect_attacker_not_in_attackers_array(board, sq);
    expect_defender_not_in_defenders_array(board, sq);
    assert_ne!(board.king_sq as Square, sq);
}

fn expect_king_not_exists(board: &Board) {
    assert_eq!(board.king_sq, HOLE);
}

fn expect_side_to_be(board: &Board, side: Side) {
    assert_eq!(board.side_to_move, side);
}

use taflzero::evaluation::surround::king_is_surrounded;

#[test]
fn king_is_surrounded_test_king_is_surrounded() {
        let mut board = Board::new();
        // Set up a scenario where the king is surrounded
        board.set_piece(get_square_from_algebraic("b2"), Piece::KING).unwrap();
        assert_eq!(king_is_surrounded(&board), false);
    }

#[test]
fn king_is_surrounded_surrounded_by_attackers_not_from_all_sides() {
        let mut board = Board::new();
        board.set_piece(get_square_from_algebraic("b2"), Piece::KING).unwrap();
        board.set_piece(get_square_from_algebraic("a2"), Piece::ATTACKER).unwrap();
        board.set_piece(get_square_from_algebraic("b1"), Piece::ATTACKER).unwrap();
        board.set_piece(get_square_from_algebraic("c2"), Piece::ATTACKER).unwrap();

        let is_surrounded = king_is_surrounded(&board);
        assert!(!is_surrounded);
    }

#[test]
fn king_is_surrounded_surrounded_by_attackers_from_all_sides() {
        let mut board = Board::new();
        board.set_piece(get_square_from_algebraic("b2"), Piece::KING).unwrap();
        board.set_piece(get_square_from_algebraic("a2"), Piece::ATTACKER).unwrap();
        board.set_piece(get_square_from_algebraic("b1"), Piece::ATTACKER).unwrap();
        board.set_piece(get_square_from_algebraic("c2"), Piece::ATTACKER).unwrap();
        board.set_piece(get_square_from_algebraic("b3"), Piece::ATTACKER).unwrap();

        let is_surrounded = king_is_surrounded(&board);
        assert!(is_surrounded);
    }

#[test]
fn king_is_surrounded_surrounded_by_defenders_from_all_sides() {
        let mut board = Board::new();
        board.set_piece(get_square_from_algebraic("b2"), Piece::KING).unwrap();
        board.set_piece(get_square_from_algebraic("a2"), Piece::DEFENDER).unwrap();
        board.set_piece(get_square_from_algebraic("b1"), Piece::DEFENDER).unwrap();
        board.set_piece(get_square_from_algebraic("c2"), Piece::DEFENDER).unwrap();
        board.set_piece(get_square_from_algebraic("b3"), Piece::DEFENDER).unwrap();

        let is_surrounded = king_is_surrounded(&board);
        assert!(!is_surrounded);
    }

#[test]
fn king_is_surrounded_surrounded_by_three_attackers_on_board_side() {
        let mut board = Board::new();
        board.set_piece(get_square_from_algebraic("e1"), Piece::KING).unwrap();
        board.set_piece(get_square_from_algebraic("d1"), Piece::ATTACKER).unwrap();
        board.set_piece(get_square_from_algebraic("f1"), Piece::ATTACKER).unwrap();
        board.set_piece(get_square_from_algebraic("e2"), Piece::ATTACKER).unwrap();

        let is_surrounded = king_is_surrounded(&board);
        assert!(!is_surrounded);
    }

#[test]
fn king_is_surrounded_surrounded_by_three_attackers_and_throne() {
        let mut board = Board::new();
        board.set_piece(get_square_from_algebraic("e6"), Piece::KING).unwrap();
        board.set_piece(get_square_from_algebraic("e7"), Piece::ATTACKER).unwrap();
        board.set_piece(get_square_from_algebraic("e5"), Piece::ATTACKER).unwrap();
        board.set_piece(get_square_from_algebraic("d6"), Piece::ATTACKER).unwrap();

        let is_surrounded = king_is_surrounded(&board);
        assert!(is_surrounded);
    }

#[test]
fn king_is_surrounded_surrounded_by_corner_and_by_corner() {
        let mut board = Board::new();
        board.set_piece(get_square_from_algebraic("b1"), Piece::KING).unwrap();
        board.set_piece(get_square_from_algebraic("b2"), Piece::ATTACKER).unwrap();
        board.set_piece(get_square_from_algebraic("c1"), Piece::ATTACKER).unwrap();

        let is_surrounded = king_is_surrounded(&board);
        assert!(!is_surrounded);
    }

#[test]
fn king_is_surrounded_on_throne_and_surrounded_by_four_attackers() {
        let mut board = Board::new();
        board.set_piece(get_square_from_algebraic("f6"), Piece::KING).unwrap();
        board.set_piece(get_square_from_algebraic("f5"), Piece::ATTACKER).unwrap();
        board.set_piece(get_square_from_algebraic("f7"), Piece::ATTACKER).unwrap();
        board.set_piece(get_square_from_algebraic("e6"), Piece::ATTACKER).unwrap();
        board.set_piece(get_square_from_algebraic("g6"), Piece::ATTACKER).unwrap();

        let is_surrounded = king_is_surrounded(&board);
        assert!(is_surrounded);
    }
