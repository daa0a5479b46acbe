#![allow(unused_imports, unused_variables, unused_mut, dead_code, unused_must_use, unused_parens)]
use std::error::Error;
use taflzero::board::Board;
use taflzero::board::constants::{BOARD_SIZE, HOLE, INITIAL_FEN, SQS};
use taflzero::board::types::{OptionalSquare, Piece, Side, Square};
use taflzero::board::rules::{Rules, RulesEnum};
use taflzero::board::notation::get_square_from_algebraic;
use taflzero::board::picture::set_board_from_str;
use taflzero::board::utils::{get_col, get_row, get_square};
use taflzero::moves::mv::Move;
use taflzero::moves::undo::{CapturedPiece, UndoMove};
use taflzero::moves::movegen::MoveGen;

fn create_move_from_algebraic(s: &str) -> Result<Move, String> {
    Board::new().create_move_from_algebraic(s)
}

fn expect_occupied(board: &Board, sq: Square) {
    let row = get_row(sq, 11);
    let col = get_col(sq, 11);
    assert_ne!(board.row_occ[row] & (1 << col), 0);
    assert_ne!(board.col_occ[col] & (1 << row), 0);
}

fn expect_not_occupied(board: &Board, sq: Square) {
    let row = get_row(sq, 11);
    let col = get_col(sq, 11);
    assert_eq!(board.row_occ[row] & (1 << col), 0);
    assert_eq!(board.col_occ[col] & (1 << row), 0);
}

fn expect_defender_in_defenders_array(board: &Board, sq: Square) {
    assert!(board.defenders_count > 0);
    assert!(board.defenders[..board.defenders_count as usize].contains(&sq));
}

fn expect_attacker_in_attackers_array(board: &Board, sq: Square) {
    assert!(board.attackers_count > 0);
    assert!(board.attackers[..board.attackers_count as usize].contains(&sq));
}

fn expect_defender_not_in_defenders_array(board: &Board, sq: Square) {
    if board.defenders_count == 0 {
        return;
    }
    assert!(!board.defenders[..board.defenders_count as usize].contains(&sq));
}

fn expect_attacker_not_in_attackers_array(board: &Board, sq: Square) {
    if board.attackers_count == 0 {
        return;
    }
    assert!(!board.attackers[..board.attackers_count as usize].contains(&sq));
}

fn expect_defender_on(board: &Board, sq_str: &str) {
    let sq = get_square_from_algebraic(sq_str);
    assert_eq!(board.board[sq], Piece::DEFENDER);
    expect_defender_in_defenders_array(board, sq);
    expect_occupied(board, sq);
}

fn expect_attacker_on(board: &Board, sq_str: &str) {
    let sq = get_square_from_algebraic(sq_str);
    assert_eq!(board.board[sq], Piece::ATTACKER);
    expect_attacker_in_attackers_array(board, sq);
    expect_occupied(board, sq);
}

fn expect_king_on(board: &Board, sq_str: &str) {
    let sq = get_square_from_algebraic(sq_str);
    assert_eq!(board.board[sq], Piece::KING);
    assert_eq!(board.king_sq as Square, sq);
    expect_occupied(board, sq);
}

fn expect_attackers_count(board: &Board, count: u8) {
    assert_eq!(board.attackers_count, count)
}

fn expect_defenders_count(board: &Board, count: u8) {
    assert_eq!(board.defenders_count, count)
}

fn expect_no_pice_on(board: &Board, sq_str: &str) {
    let sq = get_square_from_algebraic(sq_str);
    assert_eq!(board.board[sq], Piece::EMPTY);
    expect_not_occupied(board, sq);
    expect_attacker_not_in_attackers_array(board, sq);
    expect_defender_not_in_defenders_array(board, sq);
    assert_ne!(board.king_sq as Square, sq);
}

fn expect_king_not_exists(board: &Board) {
    assert_eq!(board.king_sq, HOLE);
}

fn expect_side_to_be(board: &Board, side: Side) {
    assert_eq!(board.side_to_move, side);
}

use taflzero::moves::capture::{is_capture_possible, king_is_surrounded};

fn expect_undo_has_captured_piece(undo: &UndoMove, square: &str, piece: Piece) {
        let sq = get_square_from_algebraic(square);
        let captured_piece = CapturedPiece {
            square: sq,
            piece,
        };
        assert!(
            undo.captured_pieces().contains(&captured_piece),
            "Expected undo to have captured piece {:?} on square {}",
            piece,
            square
        );
    }

#[test]
fn simple_move() {
        let mut board = Board::new();
        board.side_to_move = Side::ATTACKERS;
        board.set_piece(get_square_from_algebraic("a2"), Piece::ATTACKER);
        let mv = create_move_from_algebraic("a2a4").unwrap();

        board.make_move_simple(mv);

        expect_attacker_on(&board, "a4");
        expect_no_pice_on(&board, "a2");
        expect_attackers_count(&board, 1);
        expect_defenders_count(&board,0);
        expect_side_to_be(&board, Side::DEFENDERS)
    }

#[test]
fn capture_defender_in_sandwich_prepare() {
        let mut board = Board::new();
        board.side_to_move = Side::ATTACKERS;
        board.set_piece(get_square_from_algebraic("a2"), Piece::ATTACKER);
        board.set_piece(get_square_from_algebraic("a4"), Piece::DEFENDER);
        board.set_piece(get_square_from_algebraic("a5"), Piece::ATTACKER);

        let mv = create_move_from_algebraic("a2a3").unwrap();
        board.make_move_simple(mv);

        expect_attacker_on(&board, "a3");
        expect_attacker_on(&board, "a5");
        expect_no_pice_on(&board, "a4");
        expect_attackers_count(&board, 2);
        expect_defenders_count(&board, 0);
    }

#[test]
fn king_not_captured_in_sandwich() {
        let mut board = Board::new();
        board.side_to_move = Side::ATTACKERS;
        board.set_piece(get_square_from_algebraic("a2"), Piece::ATTACKER);
        board.set_piece(get_square_from_algebraic("a4"), Piece::KING);
        board.set_piece(get_square_from_algebraic("a5"), Piece::ATTACKER);

        let mv = create_move_from_algebraic("a2a3").unwrap();
        board.make_move_simple(mv);

        expect_attacker_on(&board, "a3");
        expect_attacker_on(&board, "a5");
        expect_king_on(&board, "a4");
        expect_attackers_count(&board, 2);
        expect_defenders_count(&board, 0);
    }

#[test]
fn not_overflow_pieces() {
        let mut board = Board::new();
        board.setup_initial_position().expect("setup failed");
        board.side_to_move = Side::DEFENDERS;
        let mv = create_move_from_algebraic("d1d1").unwrap();
        let res = board.make_move_simple(mv);
        assert!(res.is_ok());
    }

#[test]
fn undo_should_fill_correctly() {
        let mut board = Board::new();
        board.set_side(Side::DEFENDERS);
        board.set_piece(get_square_from_algebraic("a2"), Piece::ATTACKER).unwrap();
        board.set_piece(get_square_from_algebraic("a5"), Piece::DEFENDER).unwrap();
        board.set_piece(get_square_from_algebraic("a6"), Piece::ATTACKER).unwrap();
        let mv = create_move_from_algebraic("a2a4").unwrap();

        let mut undo = UndoMove::new();
        board.make_move(mv, &mut undo).expect("make move failed");

        assert_eq!(undo.mv, mv);
        assert_eq!(undo.captured_pieces_count, 1);

        assert_eq!(undo.captured_pieces()[0], CapturedPiece {
            square: get_square_from_algebraic("a5"),
            piece: Piece::DEFENDER
        });

        assert_eq!(undo.last_move_to, HOLE);
    }

#[test]
fn capture_2_surrounded_pieces() {
        let mut board = Board::new();
        board.set_side(Side::ATTACKERS);
        board.set_piece(get_square_from_algebraic("c1"), Piece::ATTACKER).unwrap();
        board.set_piece(get_square_from_algebraic("e2"), Piece::ATTACKER).unwrap();
        board.set_piece(get_square_from_algebraic("f2"), Piece::ATTACKER).unwrap();
        board.set_piece(get_square_from_algebraic("g1"), Piece::ATTACKER).unwrap();
        board.set_piece(get_square_from_algebraic("e1"), Piece::DEFENDER).unwrap();
        board.set_piece(get_square_from_algebraic("f1"), Piece::DEFENDER).unwrap();

        let mv = create_move_from_algebraic("c1d1").unwrap();
        let mut undo = UndoMove::new();
        board.make_move(mv, &mut undo).expect("make move failed");

        assert_eq!(undo.captured_pieces_count, 2);
        expect_undo_has_captured_piece(&undo, "e1", Piece::DEFENDER);
        expect_undo_has_captured_piece(&undo, "f1", Piece::DEFENDER);
    }

#[test]
fn two_not_fully_rounded_on_edge_no_capture() {
        // JS: "if there are 2 not fully rounded pieces on edge (without e2) -> not captured"
        let mut board = Board::new();
        board.set_side(Side::ATTACKERS);
        board.set_piece(get_square_from_algebraic("c1"), Piece::ATTACKER).unwrap();
        board.set_piece(get_square_from_algebraic("f2"), Piece::ATTACKER).unwrap();
        board.set_piece(get_square_from_algebraic("g1"), Piece::ATTACKER).unwrap();
        board.set_piece(get_square_from_algebraic("e1"), Piece::DEFENDER).unwrap();
        board.set_piece(get_square_from_algebraic("f1"), Piece::DEFENDER).unwrap();

        let mv = create_move_from_algebraic("c1d1").unwrap();
        let mut undo = UndoMove::new();
        board.make_move(mv, &mut undo).expect("make move failed");

        assert_eq!(undo.captured_pieces_count, 0);
        assert_eq!(board.board[get_square_from_algebraic("e1") as usize], Piece::DEFENDER);
        assert_eq!(board.board[get_square_from_algebraic("f1") as usize], Piece::DEFENDER);
    }

#[test]
fn one_piece_surrounded_no_capture() {
        // JS: "one piece surrounded -> no capture"
        let mut board = Board::new();
        board.set_side(Side::ATTACKERS);
        board.set_piece(get_square_from_algebraic("c1"), Piece::ATTACKER).unwrap();
        board.set_piece(get_square_from_algebraic("d3"), Piece::ATTACKER).unwrap();
        board.set_piece(get_square_from_algebraic("e1"), Piece::ATTACKER).unwrap();
        board.set_piece(get_square_from_algebraic("d1"), Piece::DEFENDER).unwrap();

        let mv = create_move_from_algebraic("d3d2").unwrap();
        let mut undo = UndoMove::new();
        board.make_move(mv, &mut undo).expect("make move failed");

        assert_eq!(undo.captured_pieces_count, 0);
        assert_eq!(board.board[get_square_from_algebraic("d1") as usize], Piece::DEFENDER);
    }

#[test]
fn two_rounded_on_edge_captured_but_king_not_captured() {
        // JS: "if there are 2 rounded pieces on edge, it could be captured (but king not captured)"
        let mut board = Board::new();
        board.set_side(Side::ATTACKERS);
        board.set_piece(get_square_from_algebraic("c1"), Piece::ATTACKER).unwrap();
        board.set_piece(get_square_from_algebraic("e2"), Piece::ATTACKER).unwrap();
        board.set_piece(get_square_from_algebraic("f2"), Piece::ATTACKER).unwrap();
        board.set_piece(get_square_from_algebraic("g1"), Piece::ATTACKER).unwrap();
        board.set_piece(get_square_from_algebraic("e1"), Piece::DEFENDER).unwrap();
        board.set_piece(get_square_from_algebraic("f1"), Piece::KING).unwrap();

        let mv = create_move_from_algebraic("c1d1").unwrap();
        let mut undo = UndoMove::new();
        board.make_move(mv, &mut undo).expect("make move failed");

        assert_eq!(undo.captured_pieces_count, 1);
        expect_undo_has_captured_piece(&undo, "e1", Piece::DEFENDER);
        assert_eq!(board.board[get_square_from_algebraic("e1") as usize], Piece::EMPTY);
        assert_eq!(board.board[get_square_from_algebraic("f1") as usize], Piece::KING);
    }

#[test]
fn defenders_can_capture_too() {
        // JS: "defenders also could capture"
        let mut board = Board::new();
        board.set_side(Side::DEFENDERS);
        board.set_piece(get_square_from_algebraic("c1"), Piece::DEFENDER).unwrap();
        board.set_piece(get_square_from_algebraic("e2"), Piece::KING).unwrap();
        board.set_piece(get_square_from_algebraic("f2"), Piece::DEFENDER).unwrap();
        board.set_piece(get_square_from_algebraic("g1"), Piece::DEFENDER).unwrap();
        board.set_piece(get_square_from_algebraic("e1"), Piece::ATTACKER).unwrap();
        board.set_piece(get_square_from_algebraic("f1"), Piece::ATTACKER).unwrap();

        let mv = create_move_from_algebraic("c1d1").unwrap();
        let mut undo = UndoMove::new();
        board.make_move(mv, &mut undo).expect("make move failed");

        assert_eq!(undo.captured_pieces_count, 2);
        expect_undo_has_captured_piece(&undo, "e1", Piece::ATTACKER);
        expect_undo_has_captured_piece(&undo, "f1", Piece::ATTACKER);
        assert_eq!(board.board[get_square_from_algebraic("e1") as usize], Piece::EMPTY);
        assert_eq!(board.board[get_square_from_algebraic("f1") as usize], Piece::EMPTY);
    }

#[test]
fn capture_on_corner_with_shieldwall() {
        // JS: "capture on corner with shieldwall"
        let mut board = Board::new();
        board.set_side(Side::DEFENDERS);
        board.set_piece(get_square_from_algebraic("b2"), Piece::DEFENDER).unwrap();
        board.set_piece(get_square_from_algebraic("c2"), Piece::DEFENDER).unwrap();
        board.set_piece(get_square_from_algebraic("e1"), Piece::DEFENDER).unwrap();
        board.set_piece(get_square_from_algebraic("b1"), Piece::ATTACKER).unwrap();
        board.set_piece(get_square_from_algebraic("c1"), Piece::ATTACKER).unwrap();

        let mv = create_move_from_algebraic("e1d1").unwrap();
        let mut undo = UndoMove::new();
        board.make_move(mv, &mut undo).expect("make move failed");

        assert_eq!(undo.captured_pieces_count, 2);
        expect_undo_has_captured_piece(&undo, "b1", Piece::ATTACKER);
        expect_undo_has_captured_piece(&undo, "c1", Piece::ATTACKER);
        assert_eq!(board.board[get_square_from_algebraic("b1") as usize], Piece::EMPTY);
        assert_eq!(board.board[get_square_from_algebraic("c1") as usize], Piece::EMPTY);
    }

#[test]
fn capture_on_corner_with_shieldwall_bottom_left_attackers() {
        let mut board = Board::new();
        board.set_side(Side::ATTACKERS);
        board.set_piece(get_square_from_algebraic("b2"), Piece::ATTACKER).unwrap();
        board.set_piece(get_square_from_algebraic("c2"), Piece::ATTACKER).unwrap();
        board.set_piece(get_square_from_algebraic("e1"), Piece::ATTACKER).unwrap();
        board.set_piece(get_square_from_algebraic("b1"), Piece::DEFENDER).unwrap();
        board.set_piece(get_square_from_algebraic("c1"), Piece::DEFENDER).unwrap();

        let mv = create_move_from_algebraic("e1d1").unwrap();
        let mut undo = UndoMove::new();
        board.make_move(mv, &mut undo).expect("make move failed");

        assert_eq!(undo.captured_pieces_count, 2);
        expect_undo_has_captured_piece(&undo, "b1", Piece::DEFENDER);
        expect_undo_has_captured_piece(&undo, "c1", Piece::DEFENDER);
        assert_eq!(board.board[get_square_from_algebraic("b1") as usize], Piece::EMPTY);
        assert_eq!(board.board[get_square_from_algebraic("c1") as usize], Piece::EMPTY);
    }

#[test]
fn capture_on_corner_with_shieldwall_bottom_right() {
        let mut board = Board::new();
        board.set_side(Side::DEFENDERS);
        board.set_piece(get_square_from_algebraic("i2"), Piece::DEFENDER).unwrap();
        board.set_piece(get_square_from_algebraic("j2"), Piece::DEFENDER).unwrap();
        board.set_piece(get_square_from_algebraic("g1"), Piece::DEFENDER).unwrap();
        board.set_piece(get_square_from_algebraic("i1"), Piece::ATTACKER).unwrap();
        board.set_piece(get_square_from_algebraic("j1"), Piece::ATTACKER).unwrap();

        let mv = create_move_from_algebraic("g1h1").unwrap();
        let mut undo = UndoMove::new();
        board.make_move(mv, &mut undo).expect("make move failed");

        assert_eq!(undo.captured_pieces_count, 2);
        expect_undo_has_captured_piece(&undo, "i1", Piece::ATTACKER);
        expect_undo_has_captured_piece(&undo, "j1", Piece::ATTACKER);
        assert_eq!(board.board[get_square_from_algebraic("i1") as usize], Piece::EMPTY);
        assert_eq!(board.board[get_square_from_algebraic("j1") as usize], Piece::EMPTY);
    }

#[test]
fn capture_on_corner_with_shieldwall_top_left() {
        let mut board = Board::new();
        board.set_side(Side::DEFENDERS);
        board.set_piece(get_square_from_algebraic("b10"), Piece::DEFENDER).unwrap();
        board.set_piece(get_square_from_algebraic("c10"), Piece::DEFENDER).unwrap();
        board.set_piece(get_square_from_algebraic("e11"), Piece::DEFENDER).unwrap();
        board.set_piece(get_square_from_algebraic("b11"), Piece::ATTACKER).unwrap();
        board.set_piece(get_square_from_algebraic("c11"), Piece::ATTACKER).unwrap();

        let mv = create_move_from_algebraic("e11d11").unwrap();
        let mut undo = UndoMove::new();
        board.make_move(mv, &mut undo).expect("make move failed");

        assert_eq!(undo.captured_pieces_count, 2);
        expect_undo_has_captured_piece(&undo, "b11", Piece::ATTACKER);
        expect_undo_has_captured_piece(&undo, "c11", Piece::ATTACKER);
        assert_eq!(board.board[get_square_from_algebraic("b11") as usize], Piece::EMPTY);
        assert_eq!(board.board[get_square_from_algebraic("c11") as usize], Piece::EMPTY);
    }

#[test]
fn capture_on_corner_with_shieldwall_top_right() {
        let mut board = Board::new();
        board.set_side(Side::DEFENDERS);
        board.set_piece(get_square_from_algebraic("i10"), Piece::DEFENDER).unwrap();
        board.set_piece(get_square_from_algebraic("j10"), Piece::DEFENDER).unwrap();
        board.set_piece(get_square_from_algebraic("g11"), Piece::DEFENDER).unwrap();
        board.set_piece(get_square_from_algebraic("i11"), Piece::ATTACKER).unwrap();
        board.set_piece(get_square_from_algebraic("j11"), Piece::ATTACKER).unwrap();

        let mv = create_move_from_algebraic("g11h11").unwrap();
        let mut undo = UndoMove::new();
        board.make_move(mv, &mut undo).expect("make move failed");

        assert_eq!(undo.captured_pieces_count, 2);
        expect_undo_has_captured_piece(&undo, "i11", Piece::ATTACKER);
        expect_undo_has_captured_piece(&undo, "j11", Piece::ATTACKER);
        assert_eq!(board.board[get_square_from_algebraic("i11") as usize], Piece::EMPTY);
        assert_eq!(board.board[get_square_from_algebraic("j11") as usize], Piece::EMPTY);
    }

#[test]
fn capture_on_corner_with_shieldwall_top_right_attackers() {
        let mut board = Board::new();
        board.set_side(Side::ATTACKERS);
        board.set_piece(get_square_from_algebraic("i10"), Piece::ATTACKER).unwrap();
        board.set_piece(get_square_from_algebraic("j10"), Piece::ATTACKER).unwrap();
        board.set_piece(get_square_from_algebraic("g11"), Piece::ATTACKER).unwrap();
        board.set_piece(get_square_from_algebraic("i11"), Piece::DEFENDER).unwrap();
        board.set_piece(get_square_from_algebraic("j11"), Piece::DEFENDER).unwrap();

        let mv = create_move_from_algebraic("g11h11").unwrap();
        let mut undo = UndoMove::new();
        board.make_move(mv, &mut undo).expect("make move failed");

        assert_eq!(undo.captured_pieces_count, 2);
        expect_undo_has_captured_piece(&undo, "i11", Piece::DEFENDER);
        expect_undo_has_captured_piece(&undo, "j11", Piece::DEFENDER);
        assert_eq!(board.board[get_square_from_algebraic("i11") as usize], Piece::EMPTY);
        assert_eq!(board.board[get_square_from_algebraic("j11") as usize], Piece::EMPTY);
    }

#[test]
fn shieldwall_capture_disabled_on_historical_variant() {
        let mut board = Board::new();
        board.set_rules(RulesEnum::Historical11x11);
        board.set_side(Side::ATTACKERS);
        board.set_piece(get_square_from_algebraic("i10"), Piece::ATTACKER).unwrap();
        board.set_piece(get_square_from_algebraic("j10"), Piece::ATTACKER).unwrap();
        board.set_piece(get_square_from_algebraic("g11"), Piece::ATTACKER).unwrap();
        board.set_piece(get_square_from_algebraic("i11"), Piece::DEFENDER).unwrap();
        board.set_piece(get_square_from_algebraic("j11"), Piece::DEFENDER).unwrap();

        let mv = create_move_from_algebraic("g11h11").unwrap();
        let mut undo = UndoMove::new();
        board.make_move(mv, &mut undo).expect("make move failed");

        assert_eq!(undo.captured_pieces_count, 0);
    }

#[test]
fn capture_full_right_edge_with_shieldwall_attackers() {
        let mut board = Board::new();
        board.set_side(Side::ATTACKERS);

        board.set_piece(get_square_from_algebraic("k1"), Piece::ATTACKER).unwrap();
        board.set_piece(get_square_from_algebraic("k11"), Piece::ATTACKER).unwrap();

        for rank in 2..=10 {
            let coord = format!("k{}", rank);
            board.set_piece(get_square_from_algebraic(&coord), Piece::DEFENDER).unwrap();
        }

        for rank in 2..=10 {
            if rank == 6 { continue; }
            let coord = format!("j{}", rank);
            board.set_piece(get_square_from_algebraic(&coord), Piece::ATTACKER).unwrap();
        }

        board.set_piece(get_square_from_algebraic("h6"), Piece::ATTACKER).unwrap();

        let mv = create_move_from_algebraic("h6j6").unwrap();
        let mut undo = UndoMove::new();
        board.make_move(mv, &mut undo).expect("make move failed");

        // we cant eat all because capture should be flanked
        assert_eq!(undo.captured_pieces_count, 0);
    }

#[test]
fn standard_captures_complex() {
        let mut board = Board::new();
        board.set_side(Side::ATTACKERS);
        board.set_piece(get_square_from_algebraic("b2"), Piece::ATTACKER).unwrap();
        board.set_piece(get_square_from_algebraic("c2"), Piece::ATTACKER).unwrap();
        board.set_piece(get_square_from_algebraic("g1"), Piece::ATTACKER).unwrap();
        board.set_piece(get_square_from_algebraic("e3"), Piece::ATTACKER).unwrap();

        board.set_piece(get_square_from_algebraic("d1"), Piece::DEFENDER).unwrap();
        board.set_piece(get_square_from_algebraic("b1"), Piece::DEFENDER).unwrap();
        board.set_piece(get_square_from_algebraic("e2"), Piece::DEFENDER).unwrap();

        board.set_piece(get_square_from_algebraic("c1"), Piece::KING).unwrap();
        board.set_piece(get_square_from_algebraic("d2"), Piece::ATTACKER).unwrap();

        let mv = create_move_from_algebraic("g1e1").unwrap();
        let mut undo = UndoMove::new();
        board.make_move(mv, &mut undo).expect("make move failed");


        assert_eq!(undo.captured_pieces_count, 3);
        expect_undo_has_captured_piece(&undo, "b1", Piece::DEFENDER);
        expect_undo_has_captured_piece(&undo, "d1", Piece::DEFENDER);
        expect_undo_has_captured_piece(&undo, "e2", Piece::DEFENDER);

        assert_eq!(board.board[get_square_from_algebraic("b1") as usize], Piece::EMPTY);
        assert_eq!(board.board[get_square_from_algebraic("d1") as usize], Piece::EMPTY);
        assert_eq!(board.board[get_square_from_algebraic("e2") as usize], Piece::EMPTY);
    }

#[test]
fn capture_non_flanking_is_not_capture() {
        let mut board = Board::new();
        board.set_side(Side::ATTACKERS);
        board.set_piece(get_square_from_algebraic("b1"), Piece::ATTACKER).unwrap();
        board.set_piece(get_square_from_algebraic("c2"), Piece::ATTACKER).unwrap();
        board.set_piece(get_square_from_algebraic("d3"), Piece::ATTACKER).unwrap();
        board.set_piece(get_square_from_algebraic("e1"), Piece::ATTACKER).unwrap();
        board.set_piece(get_square_from_algebraic("c1"), Piece::DEFENDER).unwrap();
        board.set_piece(get_square_from_algebraic("d1"), Piece::DEFENDER).unwrap();
        board.set_piece(get_square_from_algebraic("f6"), Piece::KING).unwrap();

        let mv = create_move_from_algebraic("d3d2").unwrap();

        let mut undo = UndoMove::new();
        board.make_move(mv, &mut undo).expect("make move failed");

        assert_eq!(undo.captured_pieces_count, 0);
    }

#[test]
fn king_capture_possible_not_near_throne()  {
        let mut board = Board::new();
        board.set_side(Side::ATTACKERS);
        board.set_piece(get_square_from_algebraic("d5"), Piece::KING).unwrap();
        board.set_piece(get_square_from_algebraic("d4"), Piece::ATTACKER).unwrap();
        board.set_piece(get_square_from_algebraic("c5"), Piece::ATTACKER).unwrap();
        board.set_piece(get_square_from_algebraic("e5"), Piece::ATTACKER).unwrap();
        board.set_piece(get_square_from_algebraic("d7"), Piece::ATTACKER).unwrap();

        // make move d7d6
        let mv = create_move_from_algebraic("d7d6").unwrap();
        let mut undo = UndoMove::new();
        board.make_move(mv, &mut undo);
        assert_eq!(undo.captured_pieces_count, 1);
        assert_eq!(undo.captured_pieces()[0], CapturedPiece {
            square: get_square_from_algebraic("d5"),
            piece: Piece::KING
        });
    }

#[test]
fn king_capture_not_possible_near_throne() {
        let mut board = Board::new();
        board.set_side(Side::ATTACKERS);
        board.set_piece(get_square_from_algebraic("e6"), Piece::KING).unwrap();
        board.set_piece(get_square_from_algebraic("e5"), Piece::ATTACKER).unwrap();
        board.set_piece(get_square_from_algebraic("e7"), Piece::ATTACKER).unwrap();
        board.set_piece(get_square_from_algebraic("a6"), Piece::ATTACKER).unwrap();
        // make move e7e6
        let mv = create_move_from_algebraic("a6d6").unwrap();
        let mut undo = UndoMove::new();
        board.make_move(mv, &mut undo);
        assert_eq!(undo.captured_pieces_count, 1);
        assert_eq!(undo.captured_pieces()[0], CapturedPiece {
            square: get_square_from_algebraic("e6"),
            piece: Piece::KING
        });
    }

#[test]
fn king_capture_impossible_if_not_surrounded() {
        let mut board = Board::new();
        board.set_side(Side::ATTACKERS);
        board.set_piece(get_square_from_algebraic("e6"), Piece::KING).unwrap();
        board.set_piece(get_square_from_algebraic("e5"), Piece::ATTACKER).unwrap();
        board.set_piece(get_square_from_algebraic("a6"), Piece::ATTACKER).unwrap();
        // make move a6d6
        let mv = create_move_from_algebraic("a6d6").unwrap();
        let mut undo = UndoMove::new();
        board.make_move(mv, &mut undo);
        assert_eq!(undo.captured_pieces_count, 0);
    }

#[test]
fn king_capture_impossible_if_not_surrounded_fully_by_attackers() {
        let mut board = Board::new();
        board.set_side(Side::ATTACKERS);
        board.set_piece(get_square_from_algebraic("e6"), Piece::KING).unwrap();
        board.set_piece(get_square_from_algebraic("e5"), Piece::ATTACKER).unwrap();
        board.set_piece(get_square_from_algebraic("a6"), Piece::ATTACKER).unwrap();
        board.set_piece(get_square_from_algebraic("e7"), Piece::DEFENDER).unwrap();
        // make move a6d6
        let mv = create_move_from_algebraic("a6d6").unwrap();
        let mut undo = UndoMove::new();
        board.make_move(mv, &mut undo);
        assert_eq!(undo.captured_pieces_count, 0);
    }

#[test]
fn king_already_surrounded_but_not_capture_move() {
        let mut board = Board::new();
        board.set_side(Side::ATTACKERS);
        board.set_piece(get_square_from_algebraic("e6"), Piece::KING).unwrap();
        board.set_piece(get_square_from_algebraic("e5"), Piece::ATTACKER).unwrap();
        board.set_piece(get_square_from_algebraic("e7"), Piece::ATTACKER).unwrap();
        board.set_piece(get_square_from_algebraic("d6"), Piece::ATTACKER).unwrap();
        board.set_piece(get_square_from_algebraic("f6"), Piece::ATTACKER).unwrap();
        board.set_piece(get_square_from_algebraic("d1"), Piece::ATTACKER).unwrap();
        // make move e5e4
        let mv = create_move_from_algebraic("d1e1").unwrap();
        let mut undo = UndoMove::new();
        board.make_move(mv, &mut undo);
        assert_eq!(undo.captured_pieces_count, 0);
    }

#[test]
fn king_is_removing_and_go_back_working_correctly() {
        let mut board = Board::new();
        board.set_side(Side::ATTACKERS);
        board.set_piece(get_square_from_algebraic("e6"), Piece::KING).unwrap();
        board.set_piece(get_square_from_algebraic("e5"), Piece::ATTACKER).unwrap();
        board.set_piece(get_square_from_algebraic("e7"), Piece::ATTACKER).unwrap();
        board.set_piece(get_square_from_algebraic("a6"), Piece::ATTACKER).unwrap();
        // make move e7e6
        let mv = create_move_from_algebraic("a6d6").unwrap();
        let mut undo = UndoMove::new();
        board.make_move(mv, &mut undo);
        assert_eq!(undo.captured_pieces_count, 1);
        assert_eq!(undo.captured_pieces()[0], CapturedPiece {
            square: get_square_from_algebraic("e6"),
            piece: Piece::KING
        });
        assert_eq!(board.king_sq, -1);

        // Now undo the move and check if king is restored
        board.unmake_move(&mut undo).expect("undo move failed");
        assert_eq!(board.king_sq, get_square_from_algebraic("e6") as OptionalSquare);
    }

#[test]
fn another_move_should_not_trigger_shield_wall() {
        let mut board = Board::new();
        // set fen
        board.set_fen("3aaaa4/11/11/6a4/3aaaa3a/a2ad5a/3adka4/3adda4/4a1a4/5d1aa2/3a2adda1 a");
        let mv = create_move_from_algebraic("d1e1").unwrap();
        let mut undo = UndoMove::new();
        board.make_move(mv, &mut undo).unwrap();

        assert_eq!(undo.captured_pieces_count, 0);
    }

#[test]
fn test_king_is_surrounded() {
        let mut board = Board::new();
        // Set up a scenario where the king is surrounded
        board
            .set_piece(get_square_from_algebraic("b2"), Piece::KING)
            .unwrap();
        assert_eq!(king_is_surrounded(&board), false);
    }

#[test]
fn surrounded_by_attackers_not_from_all_sides() {
        let mut board = Board::new();
        board
            .set_piece(get_square_from_algebraic("b2"), Piece::KING)
            .unwrap();
        board
            .set_piece(get_square_from_algebraic("a2"), Piece::ATTACKER)
            .unwrap();
        board
            .set_piece(get_square_from_algebraic("b1"), Piece::ATTACKER)
            .unwrap();
        board
            .set_piece(get_square_from_algebraic("c2"), Piece::ATTACKER)
            .unwrap();

        let is_surrounded = king_is_surrounded(&board);
        assert!(!is_surrounded);
    }

#[test]
fn surrounded_by_attackers_from_all_sides() {
        let mut board = Board::new();
        board
            .set_piece(get_square_from_algebraic("b2"), Piece::KING)
            .unwrap();
        board
            .set_piece(get_square_from_algebraic("a2"), Piece::ATTACKER)
            .unwrap();
        board
            .set_piece(get_square_from_algebraic("b1"), Piece::ATTACKER)
            .unwrap();
        board
            .set_piece(get_square_from_algebraic("c2"), Piece::ATTACKER)
            .unwrap();
        board
            .set_piece(get_square_from_algebraic("b3"), Piece::ATTACKER)
            .unwrap();

        let is_surrounded = king_is_surrounded(&board);
        assert!(is_surrounded);
    }

#[test]
fn surrounded_by_defenders_from_all_sides() {
        let mut board = Board::new();
        board
            .set_piece(get_square_from_algebraic("b2"), Piece::KING)
            .unwrap();
        board
            .set_piece(get_square_from_algebraic("a2"), Piece::DEFENDER)
            .unwrap();
        board
            .set_piece(get_square_from_algebraic("b1"), Piece::DEFENDER)
            .unwrap();
        board
            .set_piece(get_square_from_algebraic("c2"), Piece::DEFENDER)
            .unwrap();
        board
            .set_piece(get_square_from_algebraic("b3"), Piece::DEFENDER)
            .unwrap();

        let is_surrounded = king_is_surrounded(&board);
        assert!(!is_surrounded);
    }

#[test]
fn surrounded_by_three_attackers_on_board_side() {
        let mut board = Board::new();
        board
            .set_piece(get_square_from_algebraic("e1"), Piece::KING)
            .unwrap();
        board
            .set_piece(get_square_from_algebraic("d1"), Piece::ATTACKER)
            .unwrap();
        board
            .set_piece(get_square_from_algebraic("f1"), Piece::ATTACKER)
            .unwrap();
        board
            .set_piece(get_square_from_algebraic("e2"), Piece::ATTACKER)
            .unwrap();

        let is_surrounded = king_is_surrounded(&board);
        assert!(!is_surrounded);
    }

#[test]
fn surrounded_by_three_attackers_and_throne() {
        let mut board = Board::new();
        board
            .set_piece(get_square_from_algebraic("e6"), Piece::KING)
            .unwrap();
        board
            .set_piece(get_square_from_algebraic("e7"), Piece::ATTACKER)
            .unwrap();
        board
            .set_piece(get_square_from_algebraic("e5"), Piece::ATTACKER)
            .unwrap();
        board
            .set_piece(get_square_from_algebraic("d6"), Piece::ATTACKER)
            .unwrap();

        let is_surrounded = king_is_surrounded(&board);
        assert!(is_surrounded);
    }

#[test]
fn surrounded_by_corner_and_by_corner() {
        let mut board = Board::new();
        board
            .set_piece(get_square_from_algebraic("b1"), Piece::KING)
            .unwrap();
        board
            .set_piece(get_square_from_algebraic("b2"), Piece::ATTACKER)
            .unwrap();
        board
            .set_piece(get_square_from_algebraic("c1"), Piece::ATTACKER)
            .unwrap();

        let is_surrounded = king_is_surrounded(&board);
        assert!(!is_surrounded);
    }

#[test]
fn on_throne_and_surrounded_by_four_attackers() {
        let mut board = Board::new();
        board
            .set_piece(get_square_from_algebraic("f6"), Piece::KING)
            .unwrap();
        board
            .set_piece(get_square_from_algebraic("f5"), Piece::ATTACKER)
            .unwrap();
        board
            .set_piece(get_square_from_algebraic("f7"), Piece::ATTACKER)
            .unwrap();
        board
            .set_piece(get_square_from_algebraic("e6"), Piece::ATTACKER)
            .unwrap();
        board
            .set_piece(get_square_from_algebraic("g6"), Piece::ATTACKER)
            .unwrap();

        let is_surrounded = king_is_surrounded(&board);
        assert!(is_surrounded);
    }

#[test]
fn surrounded_by_attackers_from_all_sides_on_throne() {
        let mut board = Board::new();
        board.set_rules(RulesEnum::Historical11x11);

        set_board_from_str(
            &mut board,
            "...........
                 ...........
                 ...........
                 ...........
                 .....A.....
                 ....AKA....
                 .....A.....
                 ...........
                 ...........
                 ...........
                 ...........",
        );

        let is_surrounded = king_is_surrounded(&board);
        assert!(is_surrounded);
    }

#[test]
fn surrounded_by_attackers_from_3_sides_on_throne_is_not_win() {
        let mut board = Board::new();
        board.set_rules(RulesEnum::Historical11x11);

        set_board_from_str(
            &mut board,
            "...........
                 ...........
                 ...........
                 ...........
                 .....D.....
                 ....AKA....
                 .....A.....
                 ...........
                 ...........
                 ...........
                 ...........",
        );

        let is_surrounded = king_is_surrounded(&board);
        assert!(!is_surrounded);
    }

#[test]
fn surrounded_by_attackers_from_3_sides_and_throne_is_win() {
        let mut board = Board::new();
        board.set_rules(RulesEnum::Historical11x11);

        set_board_from_str(
            &mut board,
            "...........
                 ...........
                 ...........
                 .....A.....
                 ....AKA....
                 ...........
                 ...........
                 ...........
                 ...........
                 ...........
                 ...........",
        );

        let is_surrounded = king_is_surrounded(&board);
        assert!(is_surrounded);
    }

#[test]
fn surrounded_by_attackers_from_2_horizontal_sides_on_other_sq_is_win() {
        let mut board = Board::new();
        board.set_rules(RulesEnum::Historical11x11);

        set_board_from_str(
            &mut board,
            "...........
                 ..D........
                 .AKA.......
                 ..D........
                 ...........
                 ...........
                 ...........
                 ...........
                 ...........
                 ...........
                 ...........",
        );

        let is_surrounded = king_is_surrounded(&board);
        assert!(is_surrounded);
    }

#[test]
fn surrounded_by_attackers_from_2_vertical_sides_on_other_sq_is_win() {
        let mut board = Board::new();
        board.set_rules(RulesEnum::Historical11x11);

        set_board_from_str(
            &mut board,
            "...........
                 ..A........
                 .DKD.......
                 ..A........
                 ...........
                 ...........
                 ...........
                 ...........
                 ...........
                 ...........
                 ...........",
        );

        let is_surrounded = king_is_surrounded(&board);
        assert!(is_surrounded);
    }

#[test]
fn surrounded_by_attack0ers_from_2_different_sides_is_not_win() {
        let mut board = Board::new();
        board.set_rules(RulesEnum::Historical11x11);

        set_board_from_str(
            &mut board,
            "...........
                 ..A........
                 .AKD.......
                 ..D........
                 ...........
                 ...........
                 ...........
                 ...........
                 ...........
                 ...........
                 ...........",
        );

        let is_surrounded = king_is_surrounded(&board);
        assert!(!is_surrounded);
    }

#[test]
fn attacker_capture_defender_simple() -> Result<(), Box<dyn Error>> {
        let mut board = Board::new();
        board.set_piece(get_square_from_algebraic("c2"), Piece::ATTACKER)?;
        board.set_piece(get_square_from_algebraic("c4"), Piece::ATTACKER)?;
        board.set_piece(get_square_from_algebraic("c3"), Piece::DEFENDER)?;

        assert!(is_capture_possible(
            &board,
            get_square_from_algebraic("c3"),
            get_square_from_algebraic("c2"),
            get_square_from_algebraic("c4"),
        ));

        Ok(())
    }

#[test]
fn defender_capture_attacker_simple() -> Result<(), Box<dyn Error>> {
        let mut board = Board::new();
        board.set_piece(get_square_from_algebraic("c2"), Piece::DEFENDER)?;
        board.set_piece(get_square_from_algebraic("c4"), Piece::DEFENDER)?;
        board.set_piece(get_square_from_algebraic("c3"), Piece::ATTACKER)?;

        assert!(is_capture_possible(
            &board,
            get_square_from_algebraic("c3"),
            get_square_from_algebraic("c2"),
            get_square_from_algebraic("c4"),
        ));

        Ok(())
    }

#[test]
fn king_can_capture_attacker_simple() -> Result<(), Box<dyn Error>> {
        let mut board = Board::new();
        board.set_piece(get_square_from_algebraic("c2"), Piece::DEFENDER)?;
        board.set_piece(get_square_from_algebraic("c4"), Piece::KING)?;
        board.set_piece(get_square_from_algebraic("c3"), Piece::ATTACKER)?;

        assert!(is_capture_possible(
            &board,
            get_square_from_algebraic("c3"),
            get_square_from_algebraic("c2"),
            get_square_from_algebraic("c4"),
        ));

        Ok(())
    }

#[test]
fn attacker_cannot_capture_king_simple() -> Result<(), Box<dyn Error>> {
        let mut board = Board::new();
        board.set_piece(get_square_from_algebraic("c2"), Piece::ATTACKER)?;
        board.set_piece(get_square_from_algebraic("c4"), Piece::ATTACKER)?;
        board.set_piece(get_square_from_algebraic("c3"), Piece::KING)?;

        assert!(!is_capture_possible(
            &board,
            get_square_from_algebraic("c3"),
            get_square_from_algebraic("c2"),
            get_square_from_algebraic("c4"),
        ));

        Ok(())
    }

#[test]
fn king_can_capture_on_corners() -> Result<(), Box<dyn Error>> {
        let mut board = Board::new();
        board.set_piece(get_square_from_algebraic("a2"), Piece::ATTACKER)?;
        board.set_piece(get_square_from_algebraic("a3"), Piece::KING)?;

        assert!(is_capture_possible(
            &board,
            get_square_from_algebraic("a2"),
            get_square_from_algebraic("a1"),
            get_square_from_algebraic("a3"),
        ));

        Ok(())
    }

#[test]
fn king_can_capture_on_corners_swapped_params() -> Result<(), Box<dyn Error>> {
        let mut board = Board::new();
        board.set_piece(get_square_from_algebraic("a2"), Piece::ATTACKER)?;
        board.set_piece(get_square_from_algebraic("a3"), Piece::KING)?;

        assert!(is_capture_possible(
            &board,
            get_square_from_algebraic("a2"),
            get_square_from_algebraic("a3"),
            get_square_from_algebraic("a1"),
        ));

        Ok(())
    }

#[test]
fn defender_can_capture_on_corners() -> Result<(), Box<dyn Error>> {
        let mut board = Board::new();
        board.set_piece(get_square_from_algebraic("a2"), Piece::ATTACKER)?;
        board.set_piece(get_square_from_algebraic("a3"), Piece::DEFENDER)?;

        assert!(is_capture_possible(
            &board,
            get_square_from_algebraic("a2"),
            get_square_from_algebraic("a1"),
            get_square_from_algebraic("a3"),
        ));

        Ok(())
    }

#[test]
fn attacker_can_capture_defender_on_corners() -> Result<(), Box<dyn Error>> {
        let mut board = Board::new();
        board.set_piece(get_square_from_algebraic("a2"), Piece::DEFENDER)?;
        board.set_piece(get_square_from_algebraic("a3"), Piece::ATTACKER)?;

        assert!(is_capture_possible(
            &board,
            get_square_from_algebraic("a2"),
            get_square_from_algebraic("a1"),
            get_square_from_algebraic("a3"),
        ));

        Ok(())
    }

#[test]
fn attacker_can_capture_defender_on_other_corner() -> Result<(), Box<dyn Error>> {
        let mut board = Board::new();
        board.set_piece(get_square_from_algebraic("k10"), Piece::DEFENDER)?;
        board.set_piece(get_square_from_algebraic("k9"), Piece::ATTACKER)?;

        assert!(is_capture_possible(
            &board,
            get_square_from_algebraic("k10"),
            get_square_from_algebraic("k11"),
            get_square_from_algebraic("k9"),
        ));

        Ok(())
    }

#[test]
fn king_can_capture_near_throne() -> Result<(), Box<dyn Error>> {
        let mut board = Board::new();
        board.set_piece(get_square_from_algebraic("f5"), Piece::ATTACKER)?;
        board.set_piece(get_square_from_algebraic("f4"), Piece::KING)?;

        assert!(is_capture_possible(
            &board,
            get_square_from_algebraic("f5"),
            get_square_from_algebraic("f6"),
            get_square_from_algebraic("f4"),
        ));

        Ok(())
    }

#[test]
fn attacker_can_capture_defender_near_throne() -> Result<(), Box<dyn Error>> {
        let mut board = Board::new();
        board.set_piece(get_square_from_algebraic("f5"), Piece::DEFENDER)?;
        board.set_piece(get_square_from_algebraic("f4"), Piece::ATTACKER)?;

        assert!(is_capture_possible(
            &board,
            get_square_from_algebraic("f5"),
            get_square_from_algebraic("f6"),
            get_square_from_algebraic("f4"),
        ));

        Ok(())
    }

#[test]
fn defender_can_capture_attacker_near_throne() -> Result<(), Box<dyn Error>> {
        let mut board = Board::new();
        board.set_piece(get_square_from_algebraic("f5"), Piece::ATTACKER)?;
        board.set_piece(get_square_from_algebraic("f4"), Piece::DEFENDER)?;

        assert!(is_capture_possible(
            &board,
            get_square_from_algebraic("f5"),
            get_square_from_algebraic("f6"),
            get_square_from_algebraic("f4"),
        ));

        Ok(())
    }

#[test]
fn king_cannot_capture_defender_on_corner_because_same_side_rule() -> Result<(), Box<dyn Error>>
    {
        let mut board = Board::new();
        board.set_piece(get_square_from_algebraic("a2"), Piece::DEFENDER)?;
        board.set_piece(get_square_from_algebraic("a3"), Piece::KING)?;

        assert!(!is_capture_possible(
            &board,
            get_square_from_algebraic("a2"),
            get_square_from_algebraic("a1"),
            get_square_from_algebraic("a3"),
        ));

        Ok(())
    }

#[test]
fn no_capture_when_both_sides_not_same() -> Result<(), Box<dyn Error>> {
        let mut board = Board::new();
        board.set_piece(get_square_from_algebraic("c2"), Piece::ATTACKER)?;
        board.set_piece(get_square_from_algebraic("c4"), Piece::DEFENDER)?;
        board.set_piece(get_square_from_algebraic("c3"), Piece::DEFENDER)?;

        assert!(!is_capture_possible(
            &board,
            get_square_from_algebraic("c3"),
            get_square_from_algebraic("c2"),
            get_square_from_algebraic("c4"),
        ));

        Ok(())
    }

#[test]
fn no_capture_if_all_pieces_same() -> Result<(), Box<dyn Error>> {
        let mut board = Board::new();
        board.set_piece(get_square_from_algebraic("c2"), Piece::ATTACKER)?;
        board.set_piece(get_square_from_algebraic("c4"), Piece::ATTACKER)?;
        board.set_piece(get_square_from_algebraic("c3"), Piece::ATTACKER)?;

        assert!(!is_capture_possible(
            &board,
            get_square_from_algebraic("c3"),
            get_square_from_algebraic("c2"),
            get_square_from_algebraic("c4"),
        ));

        Ok(())
    }

#[test]
fn no_capture_when_between_is_empty() -> Result<(), Box<dyn Error>> {
        let mut board = Board::new();
        board.set_piece(get_square_from_algebraic("c2"), Piece::ATTACKER)?;
        board.set_piece(get_square_from_algebraic("c4"), Piece::ATTACKER)?;

        assert!(!is_capture_possible(
            &board,
            get_square_from_algebraic("c3"),
            get_square_from_algebraic("c2"),
            get_square_from_algebraic("c4"),
        ));

        Ok(())
    }

#[test]
fn no_capture_when_king_on_throne_and_trying_to_capture_defender() -> Result<(), Box<dyn Error>>
    {
        let mut board = Board::new();
        board.set_piece(get_square_from_algebraic("f6"), Piece::KING)?; // throne
        board.set_piece(get_square_from_algebraic("f5"), Piece::DEFENDER)?; // target
        board.set_piece(get_square_from_algebraic("f4"), Piece::ATTACKER)?; // second side

        assert!(!is_capture_possible(
            &board,
            get_square_from_algebraic("f5"),
            get_square_from_algebraic("f6"),
            get_square_from_algebraic("f4"),
        ));

        Ok(())
    }

#[test]
fn capture_when_king_on_throne_captures_attacker_with_help_of_defender()
    -> Result<(), Box<dyn Error>> {
        let mut board = Board::new();
        board.set_piece(get_square_from_algebraic("f6"), Piece::KING)?; // throne
        board.set_piece(get_square_from_algebraic("f5"), Piece::ATTACKER)?; // target
        board.set_piece(get_square_from_algebraic("f4"), Piece::DEFENDER)?; // second side

        assert!(is_capture_possible(
            &board,
            get_square_from_algebraic("f5"),
            get_square_from_algebraic("f6"),
            get_square_from_algebraic("f4"),
        ));

        Ok(())
    }

#[test]
fn no_capture_when_king_on_throne_but_no_second_defender() -> Result<(), Box<dyn Error>> {
        let mut board = Board::new();
        board.set_piece(get_square_from_algebraic("f6"), Piece::KING)?; // throne
        board.set_piece(get_square_from_algebraic("f5"), Piece::ATTACKER)?; // target

        assert!(!is_capture_possible(
            &board,
            get_square_from_algebraic("f5"),
            get_square_from_algebraic("f6"),
            get_square_from_algebraic("f4"), // empty square, no defender
        ));

        Ok(())
    }

#[test]
fn no_capture_on_first_corner() -> Result<(), Box<dyn Error>> {
        let mut board = Board::new();
        board.set_rules(RulesEnum::Historical11x11);
        board.set_piece(get_square_from_algebraic("a2"), Piece::ATTACKER)?;
        board.set_piece(get_square_from_algebraic("a3"), Piece::DEFENDER)?;

        assert!(!is_capture_possible(
            &board,
            get_square_from_algebraic("a2"),
            get_square_from_algebraic("a1"),
            get_square_from_algebraic("a3"),
        ));

        Ok(())
    }

#[test]
fn no_capture_on_second_corner() -> Result<(), Box<dyn Error>> {
        let mut board = Board::new();
        board.set_rules(RulesEnum::Historical11x11);
        board.set_piece(get_square_from_algebraic("k10"), Piece::ATTACKER)?;
        board.set_piece(get_square_from_algebraic("k9"), Piece::DEFENDER)?;

        assert!(!is_capture_possible(
            &board,
            get_square_from_algebraic("k10"),
            get_square_from_algebraic("k11"),
            get_square_from_algebraic("k9"),
        ));

        Ok(())
    }

#[test]
fn no_capture_on_third_corner() -> Result<(), Box<dyn Error>> {
        let mut board = Board::new();
        board.set_rules(RulesEnum::Historical11x11);
        board.set_piece(get_square_from_algebraic("a10"), Piece::DEFENDER)?;
        board.set_piece(get_square_from_algebraic("a9"), Piece::ATTACKER)?;

        assert!(!is_capture_possible(
            &board,
            get_square_from_algebraic("a10"),
            get_square_from_algebraic("a11"),
            get_square_from_algebraic("a9"),
        ));

        Ok(())
    }

#[test]
fn no_capture_on_fourth_corner() -> Result<(), Box<dyn Error>> {
        let mut board = Board::new();
        board.set_rules(RulesEnum::Historical11x11);
        board.set_piece(get_square_from_algebraic("k2"), Piece::DEFENDER)?;
        board.set_piece(get_square_from_algebraic("k3"), Piece::ATTACKER)?;

        assert!(!is_capture_possible(
            &board,
            get_square_from_algebraic("k2"),
            get_square_from_algebraic("k1"),
            get_square_from_algebraic("k3"),
        ));

        Ok(())
    }

#[test]
fn no_capture_king_on_corner() -> Result<(), Box<dyn Error>> {
        let mut board = Board::new();
        board.set_rules(RulesEnum::Historical11x11);
        board.set_piece(get_square_from_algebraic("k2"), Piece::KING)?;
        board.set_piece(get_square_from_algebraic("k3"), Piece::ATTACKER)?;

        assert!(!is_capture_possible(
            &board,
            get_square_from_algebraic("k2"),
            get_square_from_algebraic("k1"),
            get_square_from_algebraic("k3"),
        ));

        Ok(())
    }

#[test]
fn capture_where_throne() -> Result<(), Box<dyn Error>> {
        let mut board = Board::new();
        board.set_rules(RulesEnum::Historical11x11);
        board.set_piece(get_square_from_algebraic("f5"), Piece::ATTACKER)?;
        board.set_piece(get_square_from_algebraic("f4"), Piece::DEFENDER)?;

        assert!(is_capture_possible(
            &board,
            get_square_from_algebraic("f5"),
            get_square_from_algebraic("f6"), // throne, but can be used for capture in this variant
            get_square_from_algebraic("f4"),
        ));

        Ok(())
    }
