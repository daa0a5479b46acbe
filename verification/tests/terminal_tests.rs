#![allow(unused_imports, unused_variables, unused_mut, dead_code, unused_must_use, unused_parens)]
use std::error::Error;
use taflzero::board::Board;
use taflzero::board::constants::{BOARD_SIZE, HOLE, INITIAL_FEN, SQS};
use taflzero::board::types::{OptionalSquare, Piece, Side, Square};
use taflzero::board::rules::{Rules, RulesEnum};
use taflzero::board::notation::get_square_from_algebraic;
use taflzero::board::picture::set_board_from_str;
use taflzero::board::utils::{get_col, get_row, get_square};
use taflzero::moves::mv::Move;
use taflzero::moves::undo::{CapturedPiece, UndoMove};
use taflzero::moves::movegen::MoveGen;

fn create_move_from_algebraic(s: &str) -> Result<Move, String> {
    Board::new().create_move_from_algebraic(s)
}

fn expect_occupied(board: &Board, sq: Square) {
    let row = get_row(sq, 11);
    let col = get_col(sq, 11);
    assert_ne!(board.row_occ[row] & (1 << col), 0);
    assert_ne!(board.col_occ[col] & (1 << row), 0);
}

fn expect_not_occupied(board: &Board, sq: Square) {
    let row = get_row(sq, 11);
    let col = get_col(sq, 11);
    assert_eq!(board.row_occ[row] & (1 << col), 0);
    assert_eq!(board.col_occ[col] & (1 << row), 0);
}

fn expect_defender_in_defenders_array(board: &Board, sq: Square) {
    assert!(board.defenders_count > 0);
    assert!(board.defenders[..board.defenders_count as usize].contains(&sq));
}

fn expect_attacker_in_attackers_array(board: &Board, sq: Square) {
    assert!(board.attackers_count > 0);
    assert!(board.attackers[..board.attackers_count as usize].contains(&sq));
}

fn expect_defender_not_in_defenders_array(board: &Board, sq: Square) {
    if board.defenders_count == 0 {
        return;
    }
    assert!(!board.defenders[..board.defenders_count as usize].contains(&sq));
}

fn expect_attacker_not_in_attackers_array(board: &Board, sq: Square) {
    if board.attackers_count == 0 {
        return;
    }
    assert!(!board.attackers[..board.attackers_count as usize].contains(&sq));
}

fn expect_defender_on(board: &Board, sq_str: &str) {
    let sq = get_square_from_algebraic(sq_str);
    assert_eq!(board.board[sq], Piece::DEFENDER);
    expect_defender_in_defenders_array(board, sq);
    expect_occupied(board, sq);
}

fn expect_attacker_on(board: &Board, sq_str: &str) {
    let sq = get_square_from_algebraic(sq_str);
    assert_eq!(board.board[sq], Piece::ATTACKER);
    expect_attacker_in_attackers_array(board, sq);
    expect_occupied(board, sq);
}

fn expect_king_on(board: &Board, sq_str: &str) {
    let sq = get_square_from_algebraic(sq_str);
    assert_eq!(board.board[sq], Piece::KING);
    assert_eq!(board.king_sq as Square, sq);
    expect_occupied(board, sq);
}

fn expect_attackers_count(board: &Board, count: u8) {
    assert_eq!(board.attackers_count, count)
}

fn expect_defenders_count(board: &Board, count: u8) {
    assert_eq!(board.defenders_count, count)
}

fn expect_no_pice_on(board: &Board, sq_str: &str) {
    let sq = get_square_from_algebraic(sq_str);
    assert_eq!(board.board[sq], Piece::EMPTY);
    expect_not_occupied(board, sq);
    expect_attacker_not_in_attackers_array(board, sq);
    expect_defender_not_in_defenders_array(board, sq);
    assert_ne!(board.king_sq as Square, sq);
}

fn expect_king_not_exists(board: &Board) {
    assert_eq!(board.king_sq, HOLE);
}

fn expect_side_to_be(board: &Board, side: Side) {
    assert_eq!(board.side_to_move, side);
}

use taflzero::evaluation::terminal::check_copenhagen_train_terminal;
use taflzero::evaluation::surround::defenders_is_surrounded;

#[test]
fn cant_build_any_fort_due_to_piece_count() {
        let mut board = Board::new();
        set_board_from_str(
            &mut board,
            "...A....A..
                    ..A......A.
                    AA........A
                    ...........
                    A..........
                    .........K.
                    .......D...
                    .....A....A
                    A........A.
                    .A.......A.
                    ..A...D.A..",
        );

        let res = check_copenhagen_train_terminal(&board);

        assert_eq!(res, Some(Side::ATTACKERS));
    }

#[test]
fn corner_is_open_game_continues() {
        let mut board = Board::new();
        set_board_from_str(
            &mut board,
            "...A....A..
                    ..A......A.
                    AA........A
                    ...........
                    A..........
                    .........K.
                    .......D...
                    .....A....A
                    A........A.
                    .........A.
                    ..A...D.A..",
        );

        let res = check_copenhagen_train_terminal(&board);

        assert_eq!(res, None);
    }

#[test]
fn can_build_any_fort() {
        let mut board = Board::new();
        set_board_from_str(
            &mut board,
            "...A....A..
                    ..A......A.
                    AA........A
                    ....D......
                    A..D.......
                    .........K.
                    .......D...
                    .....A....A
                    A........A.
                    .A.......A.
                    ..A...D.A..",
        );

        let res = check_copenhagen_train_terminal(&board);

        assert_eq!(res, None);
    }

#[test]
fn cant_build_low_fort_due_to_pieces_count() {
        let mut board = Board::new();
        set_board_from_str(
            &mut board,
            "...A...AA..
                    ..A......A.
                    AA........A
                    A...D.....A
                    ...D.......
                    A........K.
                    .A.....D...
                    ..A..A....A
                    ...A.....A.
                    ....A....A.
                    .....ADAA..",
        );

        let res = check_copenhagen_train_terminal(&board);

        assert_eq!(res, Some(Side::ATTACKERS));
    }

#[test]
fn can_build_compact_fort() {
        let mut board = Board::new();
        set_board_from_str(
            &mut board,
            "...A...AA..
                    ..A......A.
                    AA........A
                    A...D.....A
                    ...D.......
                    A.D......K.
                    .A.....D...
                    ..A..A....A
                    ...A.....A.
                    ....A....A.
                    .....ADAA..",
        );

        let res = check_copenhagen_train_terminal(&board);

        assert_eq!(res, None);
    }

#[test]
fn game_continues_when_defenders_near_corner() {
        let mut board = Board::new();
        set_board_from_str(
            &mut board,
            "...A...AA..
                    ..A......A.
                    AA........A
                    A.........A
                    ...........
                    A.D......K.
                    .A.........
                    ..A..A....A
                    ...A.....A.
                    .D..A....A.
                    .....ADAA..",
        );

        let res = check_copenhagen_train_terminal(&board);

        assert_eq!(res, None);
    }

#[test]
fn cant_build_any_fort() {
        let mut board = Board::new();
        set_board_from_str(
            &mut board,
            "....A.A....
                    ...A...A...
                    ..A.....A..
                    .A.......A.
                    A....D....A
                    ....D.D..K.
                    A..D...D...
                    .A........A
                    ..A......A.
                    ...A....A..
                    ....A..A...",
        );

        let res = check_copenhagen_train_terminal(&board);

        assert_eq!(res, Some(Side::ATTACKERS));
    }

#[test]
fn game_continues_when_king_near_corner() {
        let mut board = Board::new();
        set_board_from_str(
            &mut board,
            "...A...AA..
                    ..A......A.
                    AA........A
                    A.........A
                    ...........
                    A.D........
                    .A.........
                    ..A..A....A
                    ...A.....A.
                    .K..A....A.
                    .....ADAA..",
        );

        let res = check_copenhagen_train_terminal(&board);

        assert_eq!(res, None);
    }

#[test]
fn not_test_other_variants() {
        let mut board = Board::new();
        board.set_rules(RulesEnum::Historical11x11);
        set_board_from_str(
            &mut board,
            "...A....A..
                    ..A......A.
                    AA........A
                    ...........
                    A..........
                    .........K.
                    .......D...
                    .....A....A
                    A........A.
                    .A.......A.
                    ..A...D.A..",
        );

        let res = check_copenhagen_train_terminal(&board);

        assert_eq!(res, None);
    }

#[test]
fn by_default_not_surrounded() {
        let mut board = Board::new();
        board.set_piece(get_square_from_algebraic("d4"), Piece::KING).unwrap();

        let is_surrounded = defenders_is_surrounded(&board);
        assert!(!is_surrounded);
    }

#[test]
fn surrounded_corners_but_with_open_edges_not_surrounded() {
        let mut board = Board::new();

        board.set_piece(get_square_from_algebraic("a2"), Piece::ATTACKER).unwrap();
        board.set_piece(get_square_from_algebraic("b1"), Piece::ATTACKER).unwrap();
        board.set_piece(get_square_from_algebraic("j1"), Piece::ATTACKER).unwrap();
        board.set_piece(get_square_from_algebraic("k2"), Piece::ATTACKER).unwrap();
        board.set_piece(get_square_from_algebraic("a10"), Piece::ATTACKER).unwrap();
        board.set_piece(get_square_from_algebraic("b11"), Piece::ATTACKER).unwrap();
        board.set_piece(get_square_from_algebraic("j11"), Piece::ATTACKER).unwrap();
        board.set_piece(get_square_from_algebraic("k10"), Piece::ATTACKER).unwrap();

        board.set_piece(get_square_from_algebraic("d4"), Piece::KING).unwrap();

        let is_surrounded = defenders_is_surrounded(&board);
        assert!(!is_surrounded);
    }

#[test]
fn surrounded_corners_and_edges_no_escape_surrounded() {
        let mut board = Board::new();

        board.set_piece(get_square_from_algebraic("a10"), Piece::ATTACKER).unwrap();
        board.set_piece(get_square_from_algebraic("b11"), Piece::ATTACKER).unwrap();
        board.set_piece(get_square_from_algebraic("c11"), Piece::ATTACKER).unwrap();
        board.set_piece(get_square_from_algebraic("d10"), Piece::ATTACKER).unwrap();
        board.set_piece(get_square_from_algebraic("c9"), Piece::ATTACKER).unwrap();
        board.set_piece(get_square_from_algebraic("b9"), Piece::ATTACKER).unwrap();

        board.set_piece(get_square_from_algebraic("b10"), Piece::KING).unwrap();

        let is_surrounded = defenders_is_surrounded(&board);
        assert!(is_surrounded);
    }

#[test]
fn surrounded_corners_and_edges_one_defender_outside_not_surrounded() {
        let mut board = Board::new();

        board.set_piece(get_square_from_algebraic("a10"), Piece::ATTACKER).unwrap();
        board.set_piece(get_square_from_algebraic("b11"), Piece::ATTACKER).unwrap();
        board.set_piece(get_square_from_algebraic("c11"), Piece::ATTACKER).unwrap();
        board.set_piece(get_square_from_algebraic("d10"), Piece::ATTACKER).unwrap();
        board.set_piece(get_square_from_algebraic("c9"), Piece::ATTACKER).unwrap();
        board.set_piece(get_square_from_algebraic("b9"), Piece::ATTACKER).unwrap();

        board.set_piece(get_square_from_algebraic("b10"), Piece::KING).unwrap();
        board.set_piece(get_square_from_algebraic("j1"), Piece::DEFENDER).unwrap();

        let is_surrounded = defenders_is_surrounded(&board);
        assert!(!is_surrounded);
    }

#[test]
fn surrounded_corners_and_edges_but_defender_in_chain_not_surrounded() {
        let mut board = Board::new();

        board.set_piece(get_square_from_algebraic("a10"), Piece::ATTACKER).unwrap();
        board.set_piece(get_square_from_algebraic("b11"), Piece::ATTACKER).unwrap();
        board.set_piece(get_square_from_algebraic("c11"), Piece::ATTACKER).unwrap();
        board.set_piece(get_square_from_algebraic("d10"), Piece::ATTACKER).unwrap();
        board.set_piece(get_square_from_algebraic("c9"), Piece::ATTACKER).unwrap();
        board.set_piece(get_square_from_algebraic("b9"), Piece::DEFENDER).unwrap();

        board.set_piece(get_square_from_algebraic("b10"), Piece::KING).unwrap();

        let is_surrounded = defenders_is_surrounded(&board);
        assert!(!is_surrounded);
    }

#[test]
fn not_surrounded_if_at_leadt_one_piece_could_go_to_edge() {
        let mut board = Board::new();
    board.set_fen("2a8/11/aa3aa2a1/1da2a5/ad1aaa5/1aa1k1a2aa/3a1aa3a/1a2a6/11/11/11 d");

        let is_surrounded = defenders_is_surrounded(&board);
        assert!(!is_surrounded);
    }

#[test]
fn edge_case_when_capture_happen_with_surrounding() {
        let mut board = Board::new();
        board.set_fen("11/11/3aa5a/2akdaaa1a1/3a1d1da1d/4a2d1aa/4ad1daa1/2aaadda3/5aa4/11/6a4 a");
        // make move
        board.make_move_simple(create_move_from_algebraic("k9k8").unwrap()).unwrap();
        let is_surrounded = defenders_is_surrounded(&board);
        assert!(is_surrounded);
    }
