#![allow(unused_imports, unused_variables, unused_mut, dead_code, unused_must_use, unused_parens)]
use std::error::Error;
use taflzero::board::Board;
use taflzero::board::constants::{BOARD_SIZE, HOLE, INITIAL_FEN, SQS};
use taflzero::board::types::{OptionalSquare, Piece, Side, Square};
use taflzero::board::rules::{Rules, RulesEnum};
use taflzero::board::notation::get_square_from_algebraic;
use taflzero::board::picture::set_board_from_str;
use taflzero::board::utils::{get_col, get_row, get_square};
use taflzero::moves::mv::Move;
use taflzero::moves::undo::{CapturedPiece, UndoMove};
use taflzero::moves::movegen::MoveGen;

fn create_move_from_algebraic(s: &str) -> Result<Move, String> {
    Board::new().create_move_from_algebraic(s)
}

fn expect_occupied(board: &Board, sq: Square) {
    let row = get_row(sq, 11);
    let col = get_col(sq, 11);
    assert_ne!(board.row_occ[row] & (1 << col), 0);
    assert_ne!(board.col_occ[col] & (1 << row), 0);
}

fn expect_not_occupied(board: &Board, sq: Square) {
    let row = get_row(sq, 11);
    let col = get_col(sq, 11);
    assert_eq!(board.row_occ[row] & (1 << col), 0);
    assert_eq!(board.col_occ[col] & (1 << row), 0);
}

fn expect_defender_in_defenders_array(board: &Board, sq: Square) {
    assert!(board.defenders_count > 0);
    assert!(board.defenders[..board.defenders_count as usize].contains(&sq));
}

fn expect_attacker_in_attackers_array(board: &Board, sq: Square) {
    assert!(board.attackers_count > 0);
    assert!(board.attackers[..board.attackers_count as usize].contains(&sq));
}

fn expect_defender_not_in_defenders_array(board: &Board, sq: Square) {
    if board.defenders_count == 0 {
        return;
    }
    assert!(!board.defenders[..board.defenders_count as usize].contains(&sq));
}

fn expect_attacker_not_in_attackers_array(board: &Board, sq: Square) {
    if board.attackers_count == 0 {
        return;
    }
    assert!(!board.attackers[..board.attackers_count as usize].contains(&sq));
}

fn expect_defender_on(board: &Board, sq_str: &str) {
    let sq = get_square_from_algebraic(sq_str);
    assert_eq!(board.board[sq], Piece::DEFENDER);
    expect_defender_in_defenders_array(board, sq);
    expect_occupied(board, sq);
}

fn expect_attacker_on(board: &Board, sq_str: &str) {
    let sq = get_square_from_algebraic(sq_str);
    assert_eq!(board.board[sq], Piece::ATTACKER);
    expect_attacker_in_attackers_array(board, sq);
    expect_occupied(board, sq);
}

fn expect_king_on(board: &Board, sq_str: &str) {
    let sq = get_square_from_algebraic(sq_str);
    assert_eq!(board.board[sq], Piece::KING);
    assert_eq!(board.king_sq as Square, sq);
    expect_occupied(board, sq);
}

fn expect_attackers_count(board: &Board, count: u8) {
    assert_eq!(board.attackers_count, count)
}

fn expect_defenders_count(board: &Board, count: u8) {
    assert_eq!(board.defenders_count, count)
}

fn expect_no_pice_on(board: &Board, sq_str: &str) {
    let sq = get_square_from_algebraic(sq_str);
    assert_eq!(board.board[sq], Piece::EMPTY);
    expect_not_occupied(board, sq);
    expect_attacker_not_in_attackers_array(board, sq);
    expect_defender_not_in_defenders_array(board, sq);
    assert_ne!(board.king_sq as Square, sq);
}

fn expect_king_not_exists(board: &Board) {
    assert_eq!(board.king_sq, HOLE);
}

fn expect_side_to_be(board: &Board, side: Side) {
    assert_eq!(board.side_to_move, side);
}

use taflzero::board::position_export::BitPosition;
const VARIANTS: [RulesEnum; 3] = [RulesEnum::Copenhagen11x11, RulesEnum::Historical11x11, RulesEnum::Tablut9x9];

fn plane_of_size(bit_position: &BitPosition, plane: usize, board_size: usize) -> String {
        let base = plane * 16;
        let mut out = String::new();

        for i in 0..board_size * board_size {
            let row = board_size - 1 - i / board_size;
            let col = i % board_size;
            let sq = get_square(row, col, board_size);

            let byte = sq / 8;
            let bit = sq % 8;
            let v = (bit_position.planes[base + byte] >> bit) & 1;

            out.push(if v == 1 { 'X' } else { '.' });

            if (sq + 1) % board_size == 0 {
                out.push('\n');
            }
        }

        out
    }

fn defenders_plane(bit_position: &BitPosition, plane: usize) -> String {
        plane_of_size(bit_position, plane, BOARD_SIZE)
    }

fn board_with(variant: RulesEnum, position: &str) -> Board {
        let mut board = Board::new();
        board.set_rules(variant);
        set_board_from_str(&mut board, position);
        board
    }

fn tablut_board(position: &str) -> Board {
        board_with(RulesEnum::Tablut9x9, position)
    }

fn assert_round_trip(board: &Board, variant: RulesEnum) {
        let bit_position = BitPosition::from_board(board, 1);
        let restored = bit_position.to_board(variant);

        assert_eq!(restored.get_fen(), board.get_fen(), "fen");
        assert_eq!(restored.side_to_move, board.side_to_move, "side to move");
        assert_eq!(restored.king_sq, board.king_sq, "king square");
        assert_eq!(restored.attackers_count, board.attackers_count, "attackers");
        assert_eq!(restored.defenders_count, board.defenders_count, "defenders");
        assert_eq!(restored.zobrist, board.zobrist, "zobrist");

        let sqs = board.board_size() * board.board_size();
        for sq in 0..sqs {
            assert_eq!(restored.board[sq], board.board[sq], "square {sq}");
        }
    }

#[test]
fn test_bit_position() {
        let mut board = Board::new();

        set_board_from_str(
            &mut board,
            "...........
             ...........
             ...........
             ...AAA......
             ..DAK.......
             ...AAA......
             ...........
             ...........
             ...........
             ...........
             ...........",
        );

        let bit_position = BitPosition::from_board(&board, 1);

        // Check the first plane (attackers)
        let attackers_plane = defenders_plane(&bit_position, 0);
        println!("Plane 0 (Attackers):\n{}", attackers_plane);
        assert_eq!(
            attackers_plane,
            r"...........
...........
...........
...XXX.....
...X.......
...XXX.....
...........
...........
...........
...........
...........
"
        );

        let plane1 = defenders_plane(&bit_position, 1);
        println!("Plane 1 (Defenders):\n{}", plane1);
        assert_eq!(
            plane1,
            r"...........
...........
...........
...........
..X........
...........
...........
...........
...........
...........
...........
"
        );

        let plane2 = defenders_plane(&bit_position, 2);
        println!("Plane 2 (King):\n{}", plane2);
        assert_eq!(
            plane2,
            r"...........
...........
...........
...........
....X......
...........
...........
...........
...........
...........
...........
"
        );
    }

#[test]
fn test_side_to_move() {
        let mut board = Board::new();
        assert_eq!(BitPosition::from_board(&board, 1).stm, 0); // Attackers to move

        board.side_to_move = Side::DEFENDERS;
        assert_eq!(BitPosition::from_board(&board, 1).stm, 1); // Defenders to move
    }

#[test]
fn tablut_9x9_planes() {
        let board = tablut_board(".........\n.........\n....A....\n.........\n...DK....\n.........\n..A......\n.........\n.........\n");

        let bit_position = BitPosition::from_board(&board, 1);

        assert_eq!(
            plane_of_size(&bit_position, 0, 9),
            ".........\n.........\n....X....\n.........\n.........\n.........\n..X......\n.........\n.........\n"
        );

        assert_eq!(
            plane_of_size(&bit_position, 1, 9),
            ".........\n.........\n.........\n.........\n...X.....\n.........\n.........\n.........\n.........\n"
        );

        assert_eq!(
            plane_of_size(&bit_position, 2, 9),
            ".........\n.........\n.........\n.........\n....X....\n.........\n.........\n.........\n.........\n"
        );
    }

#[test]
fn tablut_9x9_uses_9x9_square_indices() {
        let board = tablut_board(".........\n.........\n.........\n.........\n....K....\n.........\n.........\n.........\n.........\n");

        let bit_position = BitPosition::from_board(&board, 1);

        let king_sq = 4 * 9 + 4; // row 4, col 4 on a 9x9 board
        assert_eq!(
            (bit_position.planes[32 + king_sq / 8] >> (king_sq % 8)) & 1,
            1
        );
    }

#[test]
fn tablut_9x9_round_trip() {
        let mut board = Board::new();
        board.set_rules(RulesEnum::Tablut9x9);
        board.setup_initial_position().expect("initial position");

        let bit_position = BitPosition::from_board(&board, 1);
        let restored = bit_position.to_board(RulesEnum::Tablut9x9);

        assert_eq!(restored.get_fen(), board.get_fen());
    }

#[test]
fn tablut_9x9_side_to_move() {
        let mut board = tablut_board(".........\n.........\n.........\n.........\n....K....\n.........\n.........\n.........\n.........\n");

        assert_eq!(BitPosition::from_board(&board, 1).stm, 0);

        board.side_to_move = Side::DEFENDERS;
        assert_eq!(BitPosition::from_board(&board, 1).stm, 1);
    }

#[test]
fn round_trip_initial_position_every_variant() {
        for variant in VARIANTS {
            let mut board = Board::new();
            board.set_rules(variant);
            board.setup_initial_position().expect("initial position");

            assert_round_trip(&board, variant);
        }
    }

#[test]
fn round_trip_empty_board_every_variant() {
        for variant in VARIANTS {
            let mut board = Board::new();
            board.set_rules(variant);

            assert_eq!(board.king_sq, -1);
            assert_round_trip(&board, variant);
        }
    }

#[test]
fn round_trip_king_on_every_square() {
        for variant in VARIANTS {
            let board_size = variant.rules().board_size;

            for sq in 0..board_size * board_size {
                let mut board = Board::new();
                board.set_rules(variant);
                board.set_piece(sq, Piece::KING).expect("set king");

                assert_round_trip(&board, variant);
            }
        }
    }

#[test]
fn round_trip_preserves_side_to_move() {
        for variant in VARIANTS {
            for side in [Side::ATTACKERS, Side::DEFENDERS] {
                let mut board = Board::new();
                board.set_rules(variant);
                board.set_piece(0, Piece::KING).expect("set king");
                board.set_side(side);

                assert_round_trip(&board, variant);
            }
        }
    }

#[test]
fn round_trip_11x11_position() {
        let board = board_with(
            RulesEnum::Copenhagen11x11,
            "A.........A\n.D.......D.\n..A.....A..\n...D...D...\n....A.A....\n.....K.....\n....A.A....\n...D...D...\n..A.....A..\n.D.......D.\nA.........A\n",
        );

        assert_eq!(board.attackers_count, 12);
        assert_eq!(board.defenders_count, 8);
        assert_round_trip(&board, RulesEnum::Copenhagen11x11);
    }

#[test]
fn round_trip_9x9_position() {
        let board = tablut_board("A.......A\n.D.....D.\n..A...A..\n...D.D...\n....K....\n...D.D...\n..A...A..\n.D.....D.\nA.......A\n");

        assert_eq!(board.attackers_count, 8);
        assert_eq!(board.defenders_count, 8);
        assert_round_trip(&board, RulesEnum::Tablut9x9);
    }

#[test]
fn round_trip_corners_and_throne() {
        for variant in VARIANTS {
            let board_size = variant.rules().board_size;
            let last = board_size - 1;

            let mut board = Board::new();
            board.set_rules(variant);

            board.set_piece(0, Piece::ATTACKER).expect("bottom left");
            board
                .set_piece(last, Piece::ATTACKER)
                .expect("bottom right");
            board
                .set_piece(last * board_size, Piece::ATTACKER)
                .expect("top left");
            board
                .set_piece(last * board_size + last, Piece::ATTACKER)
                .expect("top right");

            let center = (board_size - 1) / 2;
            board
                .set_piece(center * board_size + center, Piece::KING)
                .expect("throne");

            assert_round_trip(&board, variant);
        }
    }
