#![allow(unused_imports, unused_variables, unused_mut, dead_code, unused_must_use, unused_parens)]
use std::error::Error;
use taflzero::board::Board;
use taflzero::board::constants::{BOARD_SIZE, HOLE, INITIAL_FEN, SQS};
use taflzero::board::types::{OptionalSquare, Piece, Side, Square};
use taflzero::board::rules::{Rules, RulesEnum};
use taflzero::board::notation::get_square_from_algebraic;
use taflzero::board::picture::set_board_from_str;
use taflzero::board::utils::{get_col, get_row, get_square};
use taflzero::moves::mv::Move;
use taflzero::moves::undo::{CapturedPiece, UndoMove};
use taflzero::moves::movegen::MoveGen;

fn create_move_from_algebraic(s: &str) -> Result<Move, String> {
    Board::new().create_move_from_algebraic(s)
}

fn expect_occupied(board: &Board, sq: Square) {
    let row = get_row(sq, 11);
    let col = get_col(sq, 11);
    assert_ne!(board.row_occ[row] & (1 << col), 0);
    assert_ne!(board.col_occ[col] & (1 << row), 0);
}

fn expect_not_occupied(board: &Board, sq: Square) {
    let row = get_row(sq, 11);
    let col = get_col(sq, 11);
    assert_eq!(board.row_occ[row] & (1 << col), 0);
    assert_eq!(board.col_occ[col] & (1 << row), 0);
}

fn expect_defender_in_defenders_array(board: &Board, sq: Square) {
    assert!(board.defenders_count > 0);
    assert!(board.defenders[..board.defenders_count as usize].contains(&sq));
}

fn expect_attacker_in_attackers_array(board: &Board, sq: Square) {
    assert!(board.attackers_count > 0);
    assert!(board.attackers[..board.attackers_count as usize].contains(&sq));
}

fn expect_defender_not_in_defenders_array(board: &Board, sq: Square) {
    if board.defenders_count == 0 {
        return;
    }
    assert!(!board.defenders[..board.defenders_count as usize].contains(&sq));
}

fn expect_attacker_not_in_attackers_array(board: &Board, sq: Square) {
    if board.attackers_count == 0 {
        return;
    }
    assert!(!board.attackers[..board.attackers_count as usize].contains(&sq));
}

fn expect_defender_on(board: &Board, sq_str: &str) {
    let sq = get_square_from_algebraic(sq_str);
    assert_eq!(board.board[sq], Piece::DEFENDER);
    expect_defender_in_defenders_array(board, sq);
    expect_occupied(board, sq);
}

fn expect_attacker_on(board: &Board, sq_str: &str) {
    let sq = get_square_from_algebraic(sq_str);
    assert_eq!(board.board[sq], Piece::ATTACKER);
    expect_attacker_in_attackers_array(board, sq);
    expect_occupied(board, sq);
}

fn expect_king_on(board: &Board, sq_str: &str) {
    let sq = get_square_from_algebraic(sq_str);
    assert_eq!(board.board[sq], Piece::KING);
    assert_eq!(board.king_sq as Square, sq);
    expect_occupied(board, sq);
}

fn expect_attackers_count(board: &Board, count: u8) {
    assert_eq!(board.attackers_count, count)
}

fn expect_defenders_count(board: &Board, count: u8) {
    assert_eq!(board.defenders_count, count)
}

fn expect_no_pice_on(board: &Board, sq_str: &str) {
    let sq = get_square_from_algebraic(sq_str);
    assert_eq!(board.board[sq], Piece::EMPTY);
    expect_not_occupied(board, sq);
    expect_attacker_not_in_attackers_array(board, sq);
    expect_defender_not_in_defenders_array(board, sq);
    assert_ne!(board.king_sq as Square, sq);
}

fn expect_king_not_exists(board: &Board) {
    assert_eq!(board.king_sq, HOLE);
}

fn expect_side_to_be(board: &Board, side: Side) {
    assert_eq!(board.side_to_move, side);
}

use taflzero::board::utils::{get_all_neighbors, get_bottom_left_neighbor, get_bottom_neighbor, get_left_neighbor, get_right_neighbor, get_top_left_neighbor, get_top_neighbor, get_top_right_neighbor, get_vertical_horizontal_neighbors};

fn expect_moves_exists(move_gen: &MoveGen, moves: Vec<&str>) {
        for mv_str in moves {
            let mv = create_move_from_algebraic(mv_str).unwrap();
            assert!(
                move_gen.moves[..move_gen.count].contains(&mv),
                "Expected move {} to exist",
                mv_str
            );
        }
    }

fn expect_moves_not_exists(move_gen: &MoveGen, moves: Vec<&str>) {
        for mv_str in moves {
            let mv = create_move_from_algebraic(mv_str).unwrap();
            assert!(
                !move_gen.moves[..move_gen.count].contains(&mv),
                "Expected move {} to NOT exist",
                mv_str
            );
        }
    }

fn expect_moves_count(move_gen: &MoveGen, expected_count: usize) {
        assert_eq!(
            move_gen.count, expected_count,
            "Expected move count to be {}, but got {}",
            expected_count, move_gen.count
        );
    }

#[test]
fn empty_position_zero_moves() {
        let board = Board::new();
        let mut movegen = MoveGen::new();
        movegen.generate_moves(&board);

        expect_moves_count(&movegen, 0);
    }

#[test]
fn one_piece_on_b1() {
        let mut board = Board::new();
        board.side_to_move = Side::ATTACKERS;
        board.set_piece(get_square_from_algebraic("b1"), Piece::ATTACKER);

        let mut movegen = MoveGen::new();
        movegen.generate_moves(&board);

        expect_moves_count(&movegen, 18);

        expect_moves_exists(
            &movegen,
            vec![
                "b1c1", "b1d1", "b1e1", "b1f1", "b1g1", "b1h1", "b1i1", "b1j1", "b1b2", "b1b3",
                "b1b4", "b1b5", "b1b6", "b1b7", "b1b8", "b1b9", "b1b10", "b1b11",
            ],
        );

        expect_moves_not_exists(&movegen, vec!["b1a1", "b1a10"]);
    }

#[test]
fn one_piece_on_b1_and_enemy_piece_on_c1() {
        let mut board = Board::new();
        board.side_to_move = Side::ATTACKERS;
        board.set_piece(get_square_from_algebraic("b1"), Piece::ATTACKER);
        board.set_piece(get_square_from_algebraic("c1"), Piece::DEFENDER);

        let mut movegen = MoveGen::new();
        movegen.generate_moves(&board);

        expect_moves_count(&movegen, 10);

        expect_moves_exists(
            &movegen,
            vec![
                "b1b2", "b1b3", "b1b4", "b1b5", "b1b6", "b1b7", "b1b8", "b1b9", "b1b10", "b1b11",
            ],
        );
    }

#[test]
fn one_piece_on_a2_and_enemy_piece_on_a3() {
        let mut board = Board::new();
        board.side_to_move = Side::ATTACKERS;
        board.set_piece(get_square_from_algebraic("a2"), Piece::ATTACKER);
        board.set_piece(get_square_from_algebraic("a3"), Piece::DEFENDER);

        let mut movegen = MoveGen::new();
        movegen.generate_moves(&board);

        expect_moves_count(&movegen, 10);

        expect_moves_exists(
            &movegen,
            vec![
                "a2b2", "a2c2", "a2d2", "a2e2", "a2f2", "a2g2", "a2h2", "a2i2", "a2j2", "a2k2",
            ],
        );
    }

#[test]
fn piece_should_not_move_onto_throne_f6() {
        let mut board = Board::new();
        board.side_to_move = Side::DEFENDERS;
        board.set_piece(get_square_from_algebraic("f5"), Piece::DEFENDER);

        let mut movegen = MoveGen::new();
        movegen.generate_moves(&board);

        expect_moves_not_exists(&movegen, vec!["f5f6"]);
    }

#[test]
fn king_could_move_onto_throne_f6() {
        let mut board = Board::new();
        board.side_to_move = Side::DEFENDERS;
        board.set_piece(get_square_from_algebraic("f5"), Piece::KING);

        let mut movegen = MoveGen::new();
        movegen.generate_moves(&board);

        expect_moves_exists(&movegen, vec!["f5f6"]);
    }

#[test]
fn king_could_move_onto_corner_a1() {
        let mut board = Board::new();
        board.side_to_move = Side::DEFENDERS;
        board.set_piece(get_square_from_algebraic("a2"), Piece::KING);

        let mut movegen = MoveGen::new();
        movegen.generate_moves(&board);

        expect_moves_count(&movegen, 20);
        expect_moves_exists(&movegen, vec!["a2a1"]);
    }

#[test]
fn king_have_zero_moves_in_blockade() {
        let mut board = Board::new();
        board.side_to_move = Side::DEFENDERS;

        board.set_piece(get_square_from_algebraic("e5"), Piece::KING);
        board.set_piece(get_square_from_algebraic("e4"), Piece::ATTACKER);
        board.set_piece(get_square_from_algebraic("e6"), Piece::ATTACKER);
        board.set_piece(get_square_from_algebraic("d5"), Piece::ATTACKER);
        board.set_piece(get_square_from_algebraic("f5"), Piece::ATTACKER);

        let mut movegen = MoveGen::new();
        movegen.generate_moves(&board);

        expect_moves_count(&movegen, 0);
    }

fn expect_exactly_neighbors(expected_algebraic: &[&str], actual_squares: &[Square]) {
        assert_eq!(actual_squares.len(), expected_algebraic.len());
        for alg in expected_algebraic {
            let sq = get_square_from_algebraic(alg);
            assert!(
                actual_squares.contains(&sq),
                "Expect neighbor {alg}, but not in the list: {:?}",
                actual_squares
            );
        }
    }

#[test]
fn left_neighbor_exists() {
        let sq = get_square_from_algebraic("d4");
        let left = get_left_neighbor(sq, 11);
        assert_eq!(left, Some(get_square_from_algebraic("c4")));
    }

#[test]
fn left_neighbor_does_not_exist() {
        let sq = get_square_from_algebraic("a1");
        let left = get_left_neighbor(sq, 11);
        assert_eq!(left, None);
    }

#[test]
fn right_neighbor_exists() {
        let sq = get_square_from_algebraic("d4");
        let right = get_right_neighbor(sq, 11);
        assert_eq!(right, Some(get_square_from_algebraic("e4")));
    }

#[test]
fn right_neighbor_does_not_exist() {
        let sq = get_square_from_algebraic("k8");
        let right = get_right_neighbor(sq, 11);
        assert_eq!(right, None);
    }

#[test]
fn top_neighbor_exists() {
        let sq = get_square_from_algebraic("d4");
        let top = get_top_neighbor(sq, 11);
        assert_eq!(top, Some(get_square_from_algebraic("d5")));
    }

#[test]
fn top_neighbor_does_not_exist() {
        let sq = get_square_from_algebraic("e11");
        let top = get_top_neighbor(sq, 11);
        assert_eq!(top, None);
    }

#[test]
fn bottom_neighbor_exists() {
        let sq = get_square_from_algebraic("d4");
        let bottom = get_bottom_neighbor(sq, 11);
        assert_eq!(bottom, Some(get_square_from_algebraic("d3")));
    }

#[test]
fn bottom_neighbor_does_not_exist() {
        let sq = get_square_from_algebraic("e1");
        let bottom = get_bottom_neighbor(sq, 11);
        assert_eq!(bottom, None);
    }

#[test]
fn top_left_neighbor_exists() {
        let sq = get_square_from_algebraic("d4");
        let tl = get_top_left_neighbor(sq, 11);
        assert_eq!(tl, Some(get_square_from_algebraic("c5")));
    }

#[test]
fn top_left_neighbor_does_not_exist() {
        let sq = get_square_from_algebraic("a8");
        let tl = get_top_left_neighbor(sq, 11);
        assert_eq!(tl, None);
    }

#[test]
fn top_right_neighbor_exists() {
        let sq = get_square_from_algebraic("d4");
        let tr = get_top_right_neighbor(sq, 11);
        assert_eq!(tr, Some(get_square_from_algebraic("e5")));
    }

#[test]
fn top_right_neighbor_does_not_exist() {
        let sq = get_square_from_algebraic("k8");
        let tr = get_top_right_neighbor(sq, 11);
        assert_eq!(tr, None);
    }

#[test]
fn bottom_left_neighbor_exists() {
        let sq = get_square_from_algebraic("d4");
        let bl = get_bottom_left_neighbor(sq, 11);
        assert_eq!(bl, Some(get_square_from_algebraic("c3")));
    }

#[test]
fn bottom_left_neighbor_does_not_exist() {
        let sq = get_square_from_algebraic("a1");
        let bl = get_top_left_neighbor(sq, 11);
        assert_eq!(bl, None);
    }

#[test]
fn vertical_horizontal_center() {
        let sibs =
            get_vertical_horizontal_neighbors(get_square_from_algebraic("e6"), 11);
        expect_exactly_neighbors(&["e7", "e5", "d6", "f6"], &sibs);
    }

#[test]
fn vertical_horizontal_edge() {
        let sibs =
            get_vertical_horizontal_neighbors(get_square_from_algebraic("a6"), 11);
        expect_exactly_neighbors(&["a7", "a5", "b6"], &sibs);
    }

#[test]
fn vertical_horizontal_corner() {
        let sibs =
            get_vertical_horizontal_neighbors(get_square_from_algebraic("a1"), 11);
        expect_exactly_neighbors(&["a2", "b1"], &sibs);
    }

#[test]
fn all_neighbors_center() {
        let sibs = get_all_neighbors(get_square_from_algebraic("e6"), 11);
        expect_exactly_neighbors(&["e7", "e5", "d6", "f6", "d7", "f7", "d5", "f5"], &sibs);
    }

#[test]
fn all_neighbors_edge() {
        let sibs = get_all_neighbors(get_square_from_algebraic("a6"), 11);
        expect_exactly_neighbors(&["a7", "a5", "b6", "b7", "b5"], &sibs);
    }

#[test]
fn all_neighbors_corner() {
        let sibs = get_all_neighbors(get_square_from_algebraic("a1"), 11);
        expect_exactly_neighbors(&["a2", "b1", "b2"], &sibs);
    }
