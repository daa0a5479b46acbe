use taflzero::board::constants::SQS;
use taflzero::board::notation::get_square_from_algebraic;
use taflzero::board::types::{Piece, Square};
use taflzero::board::utils::get_square;
use taflzero::board::Board;
use taflzero::moves::movegen::MoveGen;
use taflzero::moves::mv::Move;
use taflzero::search::policy::{get_policy_size, move_to_policy_index, policy_index_to_move};
use taflzero::utils::bfs::bfs;

fn create_move_from_algebraic(s: &str) -> Result<Move, String> {
    Board::new().create_move_from_algebraic(s)
}

fn mask_of(board: &Board, pass: fn(Piece) -> bool) -> Vec<bool> {
    board.board.iter().map(|p| pass(*p)).collect()
}

fn expect_cell_in_result(res: &[bool], sq: Square) {
    assert!(res[sq], "Expected square {} to be in the result set", sq);
}

fn expect_res_size(res: &[bool], expected_size: usize) {
    let actual_size = res.iter().filter(|&&v| v).count();
    assert_eq!(actual_size, expected_size, "Expected result size {}, got {}", expected_size, actual_size);
}

#[test]
fn test_ordering() {
    let mut move_gen = MoveGen::new();

    move_gen.moves[0] = create_move_from_algebraic("a1a2").unwrap();
    move_gen.moves[1] = create_move_from_algebraic("b1b2").unwrap();
    move_gen.moves[2] = create_move_from_algebraic("c1c2").unwrap();
    move_gen.count = 3;

    move_gen.move_scores[0] = 10;
    move_gen.move_scores[1] = 30;
    move_gen.move_scores[2] = 20;

    let mv = move_gen.pick_move();
    assert_eq!(mv, Some(create_move_from_algebraic("b1b2").unwrap()));

    let mv = move_gen.pick_move();
    assert_eq!(mv, Some(create_move_from_algebraic("c1c2").unwrap()));

    let mv = move_gen.pick_move();
    assert_eq!(mv, Some(create_move_from_algebraic("a1a2").unwrap()));

    let mv = move_gen.pick_move();
    assert_eq!(mv, None);
}

#[test]
fn pick_move_prefers_the_first_of_equal_scores() {
    let mut move_gen = MoveGen::new();
    move_gen.moves[0] = create_move_from_algebraic("a1a2").unwrap();
    move_gen.moves[1] = create_move_from_algebraic("b1b2").unwrap();
    move_gen.count = 2;
    move_gen.move_scores[0] = 5;
    move_gen.move_scores[1] = 5;
    assert_eq!(move_gen.pick_move(), Some(create_move_from_algebraic("a1a2").unwrap()));
    assert_eq!(move_gen.count, 1);
    assert_eq!(move_gen.moves[0], create_move_from_algebraic("b1b2").unwrap());
}

#[test]
fn go_to_cornets_from_restricted_areas() {
    let mut board = Board::new();
    for sq in ["d4", "d3", "d2", "d1", "c4", "b4", "a4"] {
        board.set_piece(get_square_from_algebraic(sq), Piece::ATTACKER).unwrap();
    }

    let res = bfs(
        &mask_of(&board, |p| p == Piece::EMPTY),
        &board.precomputed().vertical_horizontal_neighbors,
        &vec![get_square_from_algebraic("a1")],
    );

    expect_res_size(&res, 9);
    for sq in ["a1", "a2", "a3", "b1", "b2", "b3", "c1", "c2", "c3"] {
        expect_cell_in_result(&res, get_square_from_algebraic(sq));
    }
}

#[test]
fn go_from_different_corners_and_one_restricted() {
    let mut board = Board::new();
    for sq in ["d4", "d3", "d2", "d1", "c4", "b4", "a4"] {
        board.set_piece(get_square_from_algebraic(sq), Piece::ATTACKER).unwrap();
    }

    let res = bfs(
        &mask_of(&board, |p| p == Piece::EMPTY),
        &board.precomputed().vertical_horizontal_neighbors,
        &vec![get_square_from_algebraic("a1"), get_square_from_algebraic("k1")],
    );

    expect_res_size(&res, SQS - 7);
}

#[test]
fn correct_handle_accessible_fields() {
    let mut board = Board::new();
    for sq in ["a10", "b11", "c11", "d10", "c9", "b9"] {
        board.set_piece(get_square_from_algebraic(sq), Piece::ATTACKER).unwrap();
    }
    board.set_piece(get_square_from_algebraic("b10"), Piece::KING).unwrap();

    let res = bfs(
        &mask_of(&board, |p| p != Piece::ATTACKER),
        &board.precomputed().vertical_horizontal_neighbors,
        &vec![board.king_sq as Square],
    );

    expect_res_size(&res, 2);
}

#[test]
fn bfs_start_that_is_not_passable_reaches_nothing() {
    let mut board = Board::new();
    board.set_piece(get_square_from_algebraic("f6"), Piece::ATTACKER).unwrap();
    let res = bfs(
        &mask_of(&board, |p| p != Piece::ATTACKER),
        &board.precomputed().vertical_horizontal_neighbors,
        &vec![get_square_from_algebraic("f6")],
    );
    expect_res_size(&res, 0);
}

#[test]
fn policy_index_round_trips_for_every_slide() {
    for board_size in [9usize, 11] {
        let policy_size = get_policy_size(board_size) as u16;

        for row in 0..board_size {
            for col in 0..board_size {
                let from = get_square(row, col, board_size);

                for (to_row, to_col) in (0..board_size).map(|c| (row, c)).chain((0..board_size).map(|r| (r, col))) {
                    if (to_row, to_col) == (row, col) {
                        continue;
                    }

                    let mv = Move::new(from, get_square(to_row, to_col, board_size));
                    let index = move_to_policy_index(mv, board_size);

                    assert!(index < policy_size, "index {index} outside a {board_size}x{board_size} policy head of {policy_size}");
                    assert_eq!(policy_index_to_move(index, board_size), Some(mv), "round trip on a {board_size}x{board_size} board");
                }
            }
        }
    }
}

#[test]
fn policy_layout_for_11x11_is_unchanged() {
    assert_eq!(get_policy_size(11), 4840);

    let mv = Move::new(get_square(0, 0, 11), get_square(0, 1, 11));
    assert_eq!(move_to_policy_index(mv, 11), 3 * 10);

    let mv = Move::new(get_square(5, 5, 11), get_square(4, 5, 11));
    assert_eq!(move_to_policy_index(mv, 11), 60 * 40);
}

#[test]
fn policy_slot_leaving_the_board_decodes_to_none() {
    // From a1 (square 0) moving up: direction 0, distance 1, row -1.
    assert_eq!(policy_index_to_move(0, 11), None);
    // Down from a1 by three squares: 0 * 40 + 1 * 10 + 2.
    let mv = policy_index_to_move(12, 11).unwrap();
    assert_eq!((mv.from(), mv.to()), (0, 33));
}
