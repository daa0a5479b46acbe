#![allow(unused_imports, unused_variables, unused_mut, dead_code, unused_must_use, unused_parens)]
use std::error::Error;
use taflzero::board::Board;
use taflzero::board::constants::{BOARD_SIZE, HOLE, INITIAL_FEN, SQS};
use taflzero::board::types::{OptionalSquare, Piece, Side, Square};
use taflzero::board::rules::{Rules, RulesEnum};
use taflzero::board::notation::get_square_from_algebraic;
use taflzero::board::picture::set_board_from_str;
use taflzero::board::utils::{get_col, get_row, get_square};
use taflzero::moves::mv::Move;
use taflzero::moves::undo::{CapturedPiece, UndoMove};
use taflzero::moves::movegen::MoveGen;

fn create_move_from_algebraic(s: &str) -> Result<Move, String> {
    Board::new().create_move_from_algebraic(s)
}

fn expect_occupied(board: &Board, sq: Square) {
    let row = get_row(sq, 11);
    let col = get_col(sq, 11);
    assert_ne!(board.row_occ[row] & (1 << col), 0);
    assert_ne!(board.col_occ[col] & (1 << row), 0);
}

fn expect_not_occupied(board: &Board, sq: Square) {
    let row = get_row(sq, 11);
    let col = get_col(sq, 11);
    assert_eq!(board.row_occ[row] & (1 << col), 0);
    assert_eq!(board.col_occ[col] & (1 << row), 0);
}

fn expect_defender_in_defenders_array(board: &Board, sq: Square) {
    assert!(board.defenders_count > 0);
    assert!(board.defenders[..board.defenders_count as usize].contains(&sq));
}

fn expect_attacker_in_attackers_array(board: &Board, sq: Square) {
    assert!(board.attackers_count > 0);
    assert!(board.attackers[..board.attackers_count as usize].contains(&sq));
}

fn expect_defender_not_in_defenders_array(board: &Board, sq: Square) {
    if board.defenders_count == 0 {
        return;
    }
    assert!(!board.defenders[..board.defenders_count as usize].contains(&sq));
}

fn expect_attacker_not_in_attackers_array(board: &Board, sq: Square) {
    if board.attackers_count == 0 {
        return;
    }
    assert!(!board.attackers[..board.attackers_count as usize].contains(&sq));
}

fn expect_defender_on(board: &Board, sq_str: &str) {
    let sq = get_square_from_algebraic(sq_str);
    assert_eq!(board.board[sq], Piece::DEFENDER);
    expect_defender_in_defenders_array(board, sq);
    expect_occupied(board, sq);
}

fn expect_attacker_on(board: &Board, sq_str: &str) {
    let sq = get_square_from_algebraic(sq_str);
    assert_eq!(board.board[sq], Piece::ATTACKER);
    expect_attacker_in_attackers_array(board, sq);
    expect_occupied(board, sq);
}

fn expect_king_on(board: &Board, sq_str: &str) {
    let sq = get_square_from_algebraic(sq_str);
    assert_eq!(board.board[sq], Piece::KING);
    assert_eq!(board.king_sq as Square, sq);
    expect_occupied(board, sq);
}

fn expect_attackers_count(board: &Board, count: u8) {
    assert_eq!(board.attackers_count, count)
}

fn expect_defenders_count(board: &Board, count: u8) {
    assert_eq!(board.defenders_count, count)
}

fn expect_no_pice_on(board: &Board, sq_str: &str) {
    let sq = get_square_from_algebraic(sq_str);
    assert_eq!(board.board[sq], Piece::EMPTY);
    expect_not_occupied(board, sq);
    expect_attacker_not_in_attackers_array(board, sq);
    expect_defender_not_in_defenders_array(board, sq);
    assert_ne!(board.king_sq as Square, sq);
}

fn expect_king_not_exists(board: &Board) {
    assert_eq!(board.king_sq, HOLE);
}

fn expect_side_to_be(board: &Board, side: Side) {
    assert_eq!(board.side_to_move, side);
}

const ALL_VARIANTS: [RulesEnum; 3] = [RulesEnum::Copenhagen11x11, RulesEnum::Historical11x11, RulesEnum::Tablut9x9];

#[test]
fn set_piece_places_attacker_correctly() -> Result<(), Box<dyn Error>> {
        let mut b = Board::new();
        b.set_piece(get_square_from_algebraic("f3"), Piece::ATTACKER)?;

        expect_attacker_on(&b, "f3");
        expect_attackers_count(&b, 1);

        Ok(())
    }

#[test]
fn set_2_attackers_and_defenders_correctly() -> Result<(), Box<dyn Error>> {
        let mut b = Board::new();
        b.set_piece(get_square_from_algebraic("f3"), Piece::ATTACKER)?;
        b.set_piece(get_square_from_algebraic("c6"), Piece::ATTACKER)?;
        b.set_piece(get_square_from_algebraic("i9"), Piece::DEFENDER)?;

        expect_attacker_on(&b, "f3");
        expect_attacker_on(&b, "c6");
        expect_attackers_count(&b, 2);

        expect_defender_on(&b, "i9");
        expect_defenders_count(&b, 1);

        Ok(())
    }

#[test]
fn set_king() -> Result<(), Box<dyn Error>> {
        let mut b = Board::new();
        b.set_piece(get_square_from_algebraic("f6"), Piece::KING)?;
        expect_king_on(&b, "f6");

        Ok(())
    }

#[test]
fn clear_resets_everything() -> Result<(), Box<dyn Error>> {
        let mut b = Board::new();

        b.set_piece(12, Piece::ATTACKER)?;
        b.set_piece(40, Piece::DEFENDER)?;
        b.set_piece(50, Piece::KING)?;

        b.clear();

        expect_defenders_count(&b, 0);
        expect_attackers_count(&b, 0);
        expect_king_not_exists(&b);
        assert_eq!(b.board.iter().all(|p| *p == Piece::EMPTY), true);

        Ok(())
    }

#[test]
fn clear_piece_correctly() -> Result<(), Box<dyn Error>> {
        let mut b = Board::new();

        b.set_piece(get_square_from_algebraic("c1"), Piece::ATTACKER)?;
        b.set_piece(get_square_from_algebraic("c2"), Piece::DEFENDER)?;
        b.clear_piece(get_square_from_algebraic("c1"));

        expect_no_pice_on(&b, "c1");
        // expect_defender_on(&b, "c2");
        // expect_attackers_count(&b, 0);
        // expect_defenders_count(&b, 1);

        Ok(())
    }

#[test]
fn set_rules_resizes_both_occupancy_vectors() {
        for variant in [
            RulesEnum::Copenhagen11x11,
            RulesEnum::Historical11x11,
            RulesEnum::Tablut9x9,
        ] {
            let mut board = Board::new();
            board.set_rules(variant);

            let board_size = board.board_size();

            assert_eq!(
                board.row_occ.len(),
                board_size,
                "row_occ length on a {board_size}x{board_size} board"
            );
            assert_eq!(
                board.col_occ.len(),
                board_size,
                "col_occ length on a {board_size}x{board_size} board"
            );
        }
    }

#[test]
fn set_rules_grows_occupancy_when_switching_back_to_11x11() {
        let mut board = Board::new();
        board.set_rules(RulesEnum::Tablut9x9);
        board.set_rules(RulesEnum::Copenhagen11x11);

        assert_eq!(board.row_occ.len(), 11);
        assert_eq!(board.col_occ.len(), 11);
    }

#[test]
fn exported_board_state_matches_variant_square_count() {
        for variant in ALL_VARIANTS {
            let mut board = Board::new();
            board.set_rules(variant);

            let board_size = board.board_size();
            let sqs = board_size * board_size;

            assert_eq!(
                board.board().len(),
                sqs,
                "board state exported for a {board_size}x{board_size} variant"
            );
        }
    }

#[test]
fn fixed_size_arrays_cover_every_variant() {
        for variant in ALL_VARIANTS {
            let board_size = variant.rules().board_size;
            let sqs = board_size * board_size;

            assert!(
                sqs <= SQS,
                "{board_size}x{board_size} needs {sqs} squares but Board is fixed at {SQS}"
            );
        }
    }

#[test]
fn one_king_two_attackers_two_defenders_defenders_to_move() {
        let fen = "11/4a6/11/11/7d3/5k5/11/1d9/8a2/11/10a d";

        let mut b = Board::new();
        b.set_fen(fen).expect("set_fen failed");

        expect_attackers_count(&b, 3);
        expect_defenders_count(&b, 2);

        expect_attacker_on(&b, "i3");
        expect_attacker_on(&b, "e10");
        expect_attacker_on(&b, "k1");

        expect_king_on(&b, "f6");

        expect_defender_on(&b, "b4");
        expect_defender_on(&b, "h7");
        assert_eq!(b.side_to_move, Side::DEFENDERS);
    }

#[test]
fn attackers_to_move() {
        let fen = "11/4a6/11/11/7d3/5k5/11/1d9/8a2/11/11 a";

        let mut b = Board::new();
        b.set_fen(fen).expect("set_fen failed");

        expect_side_to_be(&b, Side::ATTACKERS);
    }

#[test]
fn set_twice() {
        let mut b = Board::new();
        b.set_fen("11/4a6/11/11/7d3/5k5/11/1d9/8a2/11/11 a")
            .expect("set_fen #1 failed");

        b.set_fen("11/11/11/11/11/11/11/11/11/11/11 a")
            .expect("set_fen #2 failed");

        expect_side_to_be(&b, Side::ATTACKERS);
        expect_attackers_count(&b, 0);
        expect_defenders_count(&b, 0);
        expect_king_not_exists(&b);
    }

#[test]
fn one_king_two_attackers_two_defenders_attackers_to_move() -> Result<(), Box<dyn Error>> {
        let mut b = Board::new();

        b.set_piece(b.get_square_from_algebraic("i3"), Piece::ATTACKER)?;
        b.set_piece(b.get_square_from_algebraic("f6"), Piece::KING)?;
        b.set_piece(b.get_square_from_algebraic("b4"), Piece::DEFENDER)?;
        b.set_piece(b.get_square_from_algebraic("h7"), Piece::DEFENDER)?;
        b.set_piece(b.get_square_from_algebraic("e10"), Piece::ATTACKER)?;
        b.set_piece(b.get_square_from_algebraic("k1"), Piece::ATTACKER)?;

        b.side_to_move = Side::ATTACKERS;

        let fen = b.get_fen();
        assert_eq!(fen, "11/4a6/11/11/7d3/5k5/11/1d9/8a2/11/10a - a 0 0");

        Ok(())
    }

#[test]
fn zobrists_should_be_same() {
        let mut b = Board::new();
        b.set_fen(INITIAL_FEN).expect("set_fen failed");

        let fen0 = b.get_fen();
        let z0 = b.zobrist;

        b.set_fen(&fen0).expect("set_fen failed");
        let z1 = b.zobrist;

        assert_eq!(z0, z1, "Zobrist should not change after set_fen(get_fen())");
    }

#[test]
fn roundtrip_set_and_get_fen_basic() {
        let fen = "11/4a6/11/11/7d3/5k5/11/1d9/8a2/11/10a f6 d 7 42";
        let mut b = Board::new();
        b.set_fen(fen).expect("set_fen failed");

        let back = b.get_fen();
        assert_eq!(back, fen);
    }

#[test]
fn legacy_two_field_fen_still_loads() {
        let mut b = Board::new();
        b.set_fen("11/4a6/11/11/7d3/5k5/11/1d9/8a2/11/10a d")
            .expect("legacy set_fen failed");

        assert_eq!(b.side_to_move, Side::DEFENDERS);
        assert_eq!(b.last_move_to, HOLE);
        assert_eq!(b.halfmove_clock, 0);
        assert_eq!(b.halfmove_count, 0);
    }

#[test]
fn last_to_square_survives_a_roundtrip() {
        let mut b = Board::new();
        b.set_fen("11/4a6/11/11/7d3/5k5/11/1d9/8a2/11/10a i3 d 3 11")
            .expect("set_fen failed");

        assert_eq!(
            b.last_move_to,
            b.get_square_from_algebraic("i3") as OptionalSquare
        );
        assert!(b.get_fen().contains(" i3 d 3 11"));
    }

#[test]
fn test_unmake_move() {
        let board = &mut Board::new();
        board.set_side(Side::DEFENDERS);
        board
            .set_piece(get_square_from_algebraic("b5"), Piece::ATTACKER)
            .unwrap();
        board
            .set_piece(get_square_from_algebraic("b7"), Piece::ATTACKER)
            .unwrap();
        

        let mut undo = UndoMove::new();
        undo.add_captured_piece(CapturedPiece {
            square: get_square_from_algebraic("b6"),
            piece: Piece::DEFENDER,
        });

        undo.mv = Move::new(
            get_square_from_algebraic("b4"),
            get_square_from_algebraic("b5"),
        );

        undo.moved_piece = Piece::ATTACKER;
        undo.last_move_to = get_square_from_algebraic("a9") as OptionalSquare;

        // Unmake the move
        board.unmake_move(&mut undo).unwrap();

        // Verify the board state
        expect_attacker_on(board, "b4");
        expect_attacker_on(board, "b7");
        expect_attackers_count(board, 2);
        expect_defender_on(board, "b6");
        expect_defenders_count(board, 1);
        expect_side_to_be(board, Side::ATTACKERS);
        assert_eq!(
            board.last_move_to,
            get_square_from_algebraic("a9") as OptionalSquare
        );
    }

#[test]
fn algebraic_move_parsing() {
        let board = Board::default();
        let mv = board.create_move_from_algebraic("a10a9").expect("parse");
        let from_sq = mv.from();
        let to_sq = mv.to();

        let from_row = get_row(from_sq, 11);
        let to_row = get_row(to_sq, 11);

        let from_col = get_col(from_sq, 11);
        let to_col = get_col(to_sq, 11);

        assert_eq!(from_col, 0);
        assert_eq!(from_row, 9);
        assert_eq!(to_col, 0);
        assert_eq!(to_row, 8);
    }

#[test]
fn pack_unpack_roundtrip() {
        let from_sq: Square = 37;
        let to_sq: Square = 99;
        let mv = Move::new(from_sq, to_sq);
        assert_eq!(mv.from(), from_sq);
        assert_eq!(mv.to(), to_sq);
    }

#[test]
fn bad_format_rejected() {
        let board = Board::default();
        assert!(board.create_move_from_algebraic("z10a9").is_err());
        assert!(board.create_move_from_algebraic("a0a1").is_err());
        assert!(board.create_move_from_algebraic("a12a1").is_err());
        assert!(board.create_move_from_algebraic("a1a").is_err());
        assert!(board.create_move_from_algebraic("a1  a2").is_err());
    }
