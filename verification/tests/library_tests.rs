#![allow(unused_imports, unused_variables, unused_mut)]
use rand::rngs::StdRng;
use rand::SeedableRng;
use taflzero::board::Board;
use taflzero::board::constants::HOLE;
use taflzero::board::notation::get_square_from_algebraic;
use taflzero::board::position_export::BitPosition;
use taflzero::board::rules::RulesEnum;
use taflzero::board::types::{Piece, Side};
use taflzero::dataset::{Batcher, Fen, GameFen, LearningGame};
use taflzero::evaluation::fort::{check_fort, get_attackers_space, king_contacts_attackers, try_break_fort};
use taflzero::evaluation::score::{
    evaluate_defenders_mobility, evaluate_king_mobility, is_mate_score, possible_moves_count, sided_evaluation, MATE_SCORE,
};
use taflzero::evaluation::terminal::{check_terminal, get_terminal, is_threefold_repetition, TerminalType};
use taflzero::moves::capture_gen::CaptureGen;
use taflzero::moves::movegen::{get_left_moves, MoveGen};
use taflzero::moves::mv::Move;
use taflzero::moves::perft::{perft, perft_divide};
use taflzero::moves::undo::UndoMove;
use taflzero::nnue::{calculate_nnue_index, fc1_input_major, HIDDEN, INPUTS, NNUE};
use taflzero::search::datagen::{legal_mask_of, search_sample, set_random_position, single_sample, terminal_type_str, CurriculumBuffer};
use taflzero::search::sample::{king_corner_index, ACTIONS, FLAG_LAST_OF_GAME, FLAG_POLICY_VALID, KING_CORNER_NONE};
use taflzero::search::policy::get_sample_size;
use taflzero::search::policy::move_to_policy_index;
use taflzero::search::king_mobility::king_mobility_change;
use taflzero::search::nn_input::input_planes;
use taflzero::search::history::{History, MAX_HISTORY_SCORE};

fn sq(s: &str) -> usize {
    get_square_from_algebraic(s)
}

fn initial() -> Board {
    let mut board = Board::new();
    board.setup_initial_position().unwrap();
    board
}

#[test]
fn learning_game_records_positions_until_it_is_marked() {
    let board = initial();
    let mut game = LearningGame::new();
    game.add_position(&board);
    assert_eq!(game.fens().len(), 1);
    assert_eq!(game.fens()[0].fen, board.get_fen());
    assert_eq!(game.fens()[0].stm, Side::ATTACKERS);

    game.mark_winner(Side::ATTACKERS);
    game.add_position(&board);
    assert_eq!(game.fens().len(), 1);
    assert!(game.is_completed);

    game.clear();
    assert_eq!(game.fens().len(), 0);
    assert!(!game.is_completed);
}

fn finished_game(n: usize, winner: Side) -> LearningGame {
    let board = initial();
    let mut game = LearningGame::new();
    for _ in 0..n {
        game.add_position(&board);
    }
    game.mark_winner(winner);
    game
}

#[test]
fn batcher_keeps_each_side_within_its_share() {
    let mut batcher = Batcher::new(5);
    assert_eq!(batcher.limit, 4);
    assert_eq!(batcher.side_limit, 2);

    batcher.add_game(finished_game(3, Side::DEFENDERS));
    assert_eq!(batcher.positions.len(), 2);
    assert_eq!(batcher.defenders_wins, 2);
    assert!(!batcher.is_full());

    batcher.add_game(finished_game(3, Side::DEFENDERS));
    assert_eq!(batcher.positions.len(), 2);

    let mut unfinished = LearningGame::new();
    unfinished.add_position(&initial());
    batcher.add_game(unfinished);
    assert_eq!(batcher.positions.len(), 2);

    batcher.add_game(finished_game(1, Side::ATTACKERS));
    assert_eq!(batcher.attackers_wins, 1);
    batcher.add_game(finished_game(5, Side::ATTACKERS));
    assert_eq!(batcher.attackers_wins, 2);
    assert!(batcher.is_full());
    assert_eq!(batcher.positions[3].result, Side::ATTACKERS);
    assert_eq!(batcher.positions[0].win_score(), 0);
    assert_eq!(batcher.positions[3].win_score(), 1);

    batcher.clear();
    assert_eq!(batcher.positions.len(), 0);
    assert_eq!(batcher.attackers_wins + batcher.defenders_wins, 0);
}

fn weights(first: i16, second: i16) -> (Vec<i16>, Vec<i16>) {
    (vec![first; INPUTS * HIDDEN], vec![second; HIDDEN])
}

#[test]
fn nnue_hidden_layer_follows_the_inputs() {
    let w1: Vec<i16> = (0..INPUTS * HIDDEN).map(|k| (k % 7) as i16 - 3).collect();
    let w2: Vec<i16> = vec![1; HIDDEN];
    let mut nn = NNUE::new(w1.clone(), w2);
    nn.set_input(10);
    nn.set_input(10);
    for h in 0..HIDDEN {
        assert_eq!(nn.acc[h], w1[10 * HIDDEN + h] as i32);
    }
    nn.set_input(200);
    nn.reset_input(10);
    for h in 0..HIDDEN {
        assert_eq!(nn.acc[h], w1[200 * HIDDEN + h] as i32);
    }
    nn.reset();
    assert!(nn.acc.iter().all(|&a| a == 0));
    assert!(nn.inputs.iter().all(|&i| i == 0));
}

#[test]
fn nnue_evaluates_rectified_sums() {
    let (w1, w2) = weights(1000, 600);
    let mut nn = NNUE::new(w1, w2);
    assert_eq!(nn.evaluate(), 0);
    nn.set_input(0);
    assert_eq!(nn.evaluate(), 102400);

    let (w1, w2) = weights(-1000, 600);
    let mut nn = NNUE::new(w1, w2);
    nn.set_input(5);
    assert_eq!(nn.evaluate(), 0);

    let (w1, w2) = weights(1000, -600);
    let mut nn = NNUE::new(w1, w2);
    nn.set_input(3);
    assert_eq!(nn.evaluate(), -102400);
}

#[test]
fn nnue_index_layout() {
    assert_eq!(calculate_nnue_index(Piece::ATTACKER, 0), 0);
    assert_eq!(calculate_nnue_index(Piece::DEFENDER, 5), 126);
    assert_eq!(calculate_nnue_index(Piece::KING, 120), 362);
}

fn position_with_rep(rep: u8) -> BitPosition {
    BitPosition::from_board(&initial(), rep)
}

#[test]
fn curriculum_keeps_the_newest_positions() {
    let history: Vec<BitPosition> = (0..30u8).map(position_with_rep).collect();
    let mut buffer = CurriculumBuffer::new(10);
    buffer.push_game_tail(&history);
    assert_eq!(buffer.positions.len(), 10);
    assert_eq!(buffer.positions[0].rep, 20);
    assert_eq!(buffer.positions[9].rep, 29);
    assert!(!buffer.is_ready());

    let mut rng = StdRng::seed_from_u64(7);
    let drawn = buffer.sample(&mut rng).unwrap();
    assert!(drawn.rep >= 20 && drawn.rep < 30);

    let empty = CurriculumBuffer::new(10);
    assert!(empty.sample(&mut rng).is_none());

    let mut short = CurriculumBuffer::new(100);
    short.push_game_tail(&history[..5]);
    assert_eq!(short.positions.len(), 5);
    assert_eq!(short.positions[0].rep, 0);
}

#[test]
fn random_positions_respect_their_piece_counts() {
    let mut rng = StdRng::seed_from_u64(42);
    for _ in 0..20 {
        let board = set_random_position(&mut rng);
        assert_ne!(board.king_sq, HOLE);
        assert!(board.attackers_count >= 24 && board.attackers_count <= 50);
        assert!(board.defenders_count <= 12);
        for corner in [0usize, 10, 110, 120] {
            assert_eq!(board.board[corner], Piece::EMPTY);
        }
        let pieces = board.board.iter().filter(|&&p| p != Piece::EMPTY).count();
        assert_eq!(pieces, 1 + board.attackers_count as usize + board.defenders_count as usize);
    }
}

#[test]
fn terminal_labels() {
    assert_eq!(terminal_type_str(&TerminalType::KingCaptured), "atk_capture");
    assert_eq!(terminal_type_str(&TerminalType::FortCheck), "def_fort");
}

#[test]
fn game_end_in_each_variant() {
    let mut board = initial();
    assert_eq!(check_terminal(&mut board), None);

    let mut board = Board::new();
    board.set_piece(sq("a11"), Piece::KING).unwrap();
    assert_eq!(get_terminal(&mut board), Some(TerminalType::KingOnCorner));

    let mut board = Board::from_rules(RulesEnum::Historical11x11);
    board.set_piece(sq("f1"), Piece::KING).unwrap();
    board.set_piece(sq("c5"), Piece::ATTACKER).unwrap();
    assert_eq!(check_terminal(&mut board), Some(Side::DEFENDERS));

    let mut board = Board::new();
    board.set_piece(sq("c5"), Piece::ATTACKER).unwrap();
    assert_eq!(get_terminal(&mut board), Some(TerminalType::KingCaptured));
    assert_eq!(check_terminal(&mut board), Some(Side::ATTACKERS));

    let mut board = Board::new();
    board.set_piece(sq("f6"), Piece::KING).unwrap();
    assert!(!is_threefold_repetition(&board));
    board.rep_table.insert(board.zobrist, 2);
    assert!(!is_threefold_repetition(&board));
    board.rep_table.insert(board.zobrist, 3);
    assert!(is_threefold_repetition(&board));
}

#[test]
fn fort_on_the_copenhagen_edge_wins_for_the_defenders() {
    let mut board = Board::new();
    for (s, p) in [("f1", Piece::KING), ("e1", Piece::DEFENDER), ("e2", Piece::DEFENDER), ("g1", Piece::DEFENDER),
        ("g2", Piece::DEFENDER), ("f3", Piece::DEFENDER), ("e3", Piece::DEFENDER), ("g3", Piece::DEFENDER),
        ("g8", Piece::ATTACKER)] {
        board.set_piece(sq(s), p).unwrap();
    }
    let before = board.board.clone();
    assert_eq!(get_terminal(&mut board), Some(TerminalType::FortCheck));
    assert_eq!(board.board, before);
    assert_eq!(board.defenders_count, 7);
}

#[test]
fn fort_pieces_one_by_one() {
    let mut board = Board::new();
    for (s, p) in [("f1", Piece::KING), ("e1", Piece::DEFENDER), ("g1", Piece::DEFENDER), ("f2", Piece::DEFENDER),
        ("h1", Piece::ATTACKER), ("c4", Piece::ATTACKER)] {
        board.set_piece(sq(s), p).unwrap();
    }
    assert!(!king_contacts_attackers(&board));
    let space = get_attackers_space(&board);
    assert!(space[sq("h2")]);
    assert!(space[sq("h1")]);
    assert!(!space[sq("a1")]);
    assert!(!space[sq("f1")]);
    let broken = try_break_fort(&space, &mut board);
    assert_eq!(broken, sq("f2") as isize);
    assert_eq!(board.board[sq("f2")], Piece::EMPTY);
    assert!(king_contacts_attackers(&board));
}

#[test]
fn perft_counts_the_generated_moves() {
    let mut board = initial();
    assert_eq!(perft(&mut board, 0), 1);
    let mut gen = MoveGen::new();
    gen.generate_moves(&board);
    assert_eq!(perft(&mut board, 1), gen.count() as u64);
    assert_eq!(board.get_fen(), initial().get_fen());
}

#[test]
fn unmake_gives_back_the_position() {
    let mut board = initial();
    let fen = board.get_fen();
    let mut undo = UndoMove::new();
    let mv = board.create_move_from_algebraic("d1d4").unwrap();
    board.make_move(mv, &mut undo).unwrap();
    assert_ne!(board.get_fen(), fen);
    board.unmake_move(&mut undo).unwrap();
    assert_eq!(board.get_fen(), fen);
}

#[test]
fn fen_round_trip() {
    let board = initial();
    let fen = board.get_fen();
    let mut other = Board::new();
    other.set_fen(&fen).unwrap();
    assert_eq!(other.board, board.board);
    assert_eq!(other.get_fen(), fen);
}

#[test]
fn bit_position_round_trip() {
    let board = initial();
    let bp = BitPosition::from_board(&board, 2);
    let back = bp.to_board(RulesEnum::Copenhagen11x11);
    assert_eq!(back.board, board.board);
    assert_eq!(bp.copied().as_bytes(), bp.as_bytes());
}

#[test]
fn king_move_mobility_clears_its_old_square_from_the_counts() {
    let mut board = Board::new();
    board.set_piece(sq("b2"), Piece::KING).unwrap();
    let mv = Move::new(sq("b2"), sq("b5"));
    // from b2 (row 1, col 1): 10 + 10 squares; from b5 the king slides 10 along
    // the row and 10 along the column, and bit 1 is taken off both counts
    assert_eq!(king_mobility_change(&board, mv), 16 - 20);
}

#[test]
fn defenders_mobility_scores() {
    let mut board = Board::new();
    board.set_piece(sq("f6"), Piece::KING).unwrap();
    board.set_piece(sq("a1"), Piece::DEFENDER).unwrap();
    assert_eq!(possible_moves_count(&board, sq("f6")), 20);
    assert_eq!(possible_moves_count(&board, sq("a1")), 20);
    assert_eq!(evaluate_defenders_mobility(&board, sq("f6")), 52 + 2 * 52);
}

#[test]
fn capture_gen_finds_the_king_as_a_capturing_piece() {
    let mut board = Board::new();
    board.set_side(Side::DEFENDERS);
    board.set_piece(sq("e9"), Piece::DEFENDER).unwrap();
    board.set_piece(sq("e8"), Piece::ATTACKER).unwrap();
    board.set_piece(sq("b7"), Piece::KING).unwrap();
    let before = board.board.clone();
    let mut gen = CaptureGen::new();
    gen.generate_captures(&mut board);
    assert_eq!(gen.count, 1);
    assert!(gen.is_move_exists(Move::new(sq("b7"), sq("e7"))));
    assert!(!gen.is_move_exists(Move::new(sq("e9"), sq("e7"))));
    assert_eq!(board.board, before);
}

#[test]
fn single_sample_marks_every_legal_move() {
    let board = initial();
    let (sample, index, count) = single_sample(&board).unwrap();
    let mut gen = MoveGen::new();
    gen.generate_moves(&board);
    assert_eq!(count, gen.count());
    assert_eq!(index, move_to_policy_index(gen.moves()[0], 11));
    for mv in gen.moves() {
        assert!(sample.legal_mask.is_set(move_to_policy_index(*mv, 11) as usize));
    }
    let marked = (0..4840).filter(|&i| sample.legal_mask.is_set(i)).count();
    assert_eq!(marked, count);
    let mut out = vec![9u8];
    sample.write_to(&mut out);
    assert_eq!(out.len(), 1 + 50 + 605 + 2 + 4 + 4);
    assert_eq!(out[0], 9);
    assert_eq!(&out[1..], &sample.to_bytes()[..]);
    assert_eq!(out[50 + 605 + 1], 1);
    assert_eq!(out[50 + 605 + 2], 0);
    assert_eq!(u16::from_le_bytes([out[658], out[659]]), index);
    assert_eq!(u16::from_le_bytes([out[660], out[661]]), 7);
}

#[test]
fn left_moves_are_the_generated_moves() {
    let board = initial();
    let mut generator = MoveGen::new();
    let left = get_left_moves(&board, &mut generator);
    assert_eq!(left.len(), generator.count);
    assert_eq!(left.len() as u64, perft(&mut initial(), 1));
    for (i, mv) in left.iter().enumerate() {
        assert_eq!(*mv, generator.moves[i]);
    }
}

#[test]
fn network_input_planes_of_the_initial_position() {
    let board = initial();
    let sqs = 121;
    let pos = BitPosition::from_board(&board, 1);
    let v = input_planes(&pos, &board.precomputed);
    assert_eq!(v.len(), 11 * sqs);
    let plane = |p: usize| -> Vec<bool> { v[p * sqs..(p + 1) * sqs].to_vec() };
    let count = |p: usize| plane(p).iter().filter(|b| **b).count();
    assert_eq!(count(0), 24);
    assert_eq!(count(1), 12);
    assert_eq!(count(2), 1);
    assert!(plane(2)[60]);
    assert_eq!(count(3), 0);
    assert_eq!(count(4), 1);
    assert!(plane(4)[60]);
    assert_eq!(count(5), 4);
    for c in [0usize, 10, 110, 120] {
        assert!(plane(5)[c]);
    }
    assert_eq!(count(6), 40);
    // every square without an attacker is reached by the defenders' group
    assert_eq!(count(7), 121 - 24);
    for s in 0..sqs {
        assert_eq!(plane(7)[s], !plane(0)[s]);
    }
    // the king is boxed in by its own defenders
    assert_eq!(count(8), 1);
    assert!(plane(8)[60]);
    assert_eq!(count(9), 0);
    assert_eq!(count(10), 0);
}

#[test]
fn network_input_marks_repetitions_and_the_side_to_move() {
    let mut board = initial();
    board.set_fen("11/11/11/11/11/5k5/11/11/11/11/a10 d").unwrap();
    let pos = BitPosition::from_board(&board, 3);
    let v = input_planes(&pos, &board.precomputed);
    let sqs = 121;
    let plane = |p: usize| -> Vec<bool> { v[p * sqs..(p + 1) * sqs].to_vec() };
    assert!(plane(3).iter().all(|b| *b));
    assert!(plane(9).iter().all(|b| *b));
    assert!(plane(10).iter().all(|b| *b));
    // a lone king walks everywhere but onto the attacker
    let king = plane(8);
    assert_eq!(king.iter().filter(|b| **b).count(), 120);
    let attacker = plane(0).iter().position(|b| *b).unwrap();
    assert!(!king[attacker]);
    assert!(king[60]);
    let pos = BitPosition::from_board(&board, 2);
    let v = input_planes(&pos, &board.precomputed);
    assert!(v[9 * sqs..10 * sqs].iter().all(|b| *b));
    assert!(v[10 * sqs..11 * sqs].iter().all(|b| !*b));
}

#[test]
fn legal_mask_marks_one_slot_per_legal_move() {
    let board = initial();
    let mask = legal_mask_of(&board);
    let mut generator = MoveGen::new();
    generator.generate_moves(&board);
    let marked = (0..ACTIONS).filter(|&i| mask.is_set(i)).count();
    assert_eq!(marked, generator.count);
    for i in 0..generator.count {
        assert!(mask.is_set(move_to_policy_index(generator.moves[i], 11) as usize));
    }
}

#[test]
fn search_sample_packs_the_position_and_the_visits() {
    let board = initial();
    let sample = search_sample(&board, vec![(12, 300), (40, 9)], -35);
    assert_eq!(sample.bit_position.rep, 1);
    assert_eq!(sample.bit_position.stm, 0);
    assert_eq!(sample.policy.len(), 2);
    assert_eq!((sample.policy[0].move_index, sample.policy[0].visits), (12, 300));
    assert_eq!((sample.policy[1].move_index, sample.policy[1].visits), (40, 9));
    assert_eq!(sample.value, 0);
    assert_eq!(sample.root_q, -35);
    assert_eq!(sample.flags, FLAG_POLICY_VALID);
    assert_eq!(sample.king_corner, KING_CORNER_NONE);
    assert_eq!(sample.legal_mask.as_bytes(), legal_mask_of(&board).as_bytes());
}

#[test]
fn mate_scores_and_sides() {
    assert!(is_mate_score(MATE_SCORE));
    assert!(is_mate_score(-MATE_SCORE));
    assert!(is_mate_score(9800));
    assert!(is_mate_score(-9800));
    assert!(!is_mate_score(9799));
    assert!(!is_mate_score(0));
    assert_eq!(sided_evaluation(120, Side::DEFENDERS), 120);
    assert_eq!(sided_evaluation(120, Side::ATTACKERS), -120);
}

#[test]
fn king_mobility_counts_its_slides() {
    assert_eq!(evaluate_king_mobility(&initial()), 0);
    let mut board = initial();
    board.set_fen("11/11/11/11/11/5k5/11/11/11/11/11 d").unwrap();
    // ten squares along its row and ten along its column
    assert_eq!(evaluate_king_mobility(&board), 20);
}

#[test]
fn perft_divide_splits_the_count_by_first_move() {
    let mut board = initial();
    let split = perft_divide(&mut board, 2);
    let mut generator = MoveGen::new();
    generator.generate_moves(&board);
    assert_eq!(split.len(), generator.count);
    let total: u64 = split.iter().map(|(_, n)| *n).sum();
    assert_eq!(total, perft(&mut board, 2));
    assert!(perft_divide(&mut board, 0).is_empty());
}

#[test]
fn moves_pack_and_unpack_raw_values() {
    let mv = Move::new(3, 36);
    assert_eq!(Move::from_u32(mv.raw()), mv);
    assert!(!mv.is_null());
    assert!(Move::create_null().is_null());
    assert!(Move::from_u32(0).is_null());
}

#[test]
fn sample_size_and_corner_slots() {
    assert_eq!(get_sample_size(11), 11 * 121);
    assert_eq!(get_sample_size(9), 11 * 81);
    assert_eq!(king_corner_index(0), 0);
    assert_eq!(king_corner_index(10), 1);
    assert_eq!(king_corner_index(110), 2);
    assert_eq!(king_corner_index(120), 3);
    assert_eq!(king_corner_index(60), KING_CORNER_NONE);
    assert_eq!(king_corner_index(-1), KING_CORNER_NONE);
}

#[test]
fn sample_flags_value_and_corner_setters() {
    let board = initial();
    let mut sample = search_sample(&board, vec![(1, 2)], 0);
    sample.set_value_from_result(Some(Side::ATTACKERS));
    assert_eq!(sample.value, 1);
    sample.set_value_from_result(Some(Side::DEFENDERS));
    assert_eq!(sample.value, -1);
    sample.set_value_from_result(None);
    assert_eq!(sample.value, 0);
    sample.set_policy_valid(false);
    assert_eq!(sample.flags, 0);
    sample.set_last_of_game();
    assert_eq!(sample.flags, FLAG_LAST_OF_GAME);
    sample.set_policy_valid(true);
    assert_eq!(sample.flags, FLAG_LAST_OF_GAME | FLAG_POLICY_VALID);
    sample.set_king_corner(2);
    assert_eq!(sample.king_corner, 2);
}

#[test]
fn stored_position_records_read_back() {
    let board = initial();
    let pos = BitPosition::from_board(&board, 2);
    let bytes = pos.as_bytes();
    assert_eq!(bytes.len(), 50);
    let back = BitPosition::from_bytes(&bytes).unwrap();
    assert_eq!(back.planes, pos.planes);
    assert_eq!(back.stm, pos.stm);
    assert_eq!(back.rep, 2);
    assert!(BitPosition::from_bytes(&bytes[..49]).is_none());
    let mut longer = bytes.clone();
    longer.push(0);
    assert!(BitPosition::from_bytes(&longer).is_none());
}

#[test]
fn setting_a_board_from_its_fen_keeps_its_hash() {
    let mut board = initial();
    let mv = board.create_move_from_algebraic("d1d3").unwrap();
    board.make_move_simple(mv).unwrap();
    let hash = board.zobrist;
    let fen = board.get_fen();
    board.set_fen(&fen).unwrap();
    assert_eq!(board.zobrist, hash);
    assert_eq!(board.get_fen(), fen);
}

#[test]
fn a_move_written_and_read_back_is_the_same_move() {
    let board = initial();
    for from in [0usize, 5, 60, 120, 33] {
        for to in [1usize, 11, 110, 119] {
            let mv = Move::new(from, to);
            let text = board.move_to_algebraic(mv);
            assert_eq!(board.create_move_from_algebraic(&text).unwrap(), mv);
        }
    }
}

#[test]
fn a_fen_without_a_side_or_with_too_few_rows_leaves_the_board() {
    let mut board = initial();
    let fen = board.get_fen();
    assert!(board.set_fen("11/11/11").is_err());
    assert_eq!(board.get_fen(), fen);
    assert!(board.set_fen("11/11/11 a").is_err());
    assert_eq!(board.get_fen(), fen);
}

#[test]
fn history_adds_squared_depths_and_halves_past_the_cap() {
    let mut history = History::new();
    let mv = Move::new(3, 36);
    assert_eq!(history.get(Side::ATTACKERS, 3, 36), 0);
    history.update(Side::ATTACKERS, mv, 5);
    assert_eq!(history.get(Side::ATTACKERS, 3, 36), 25);
    assert_eq!(history.get(Side::DEFENDERS, 3, 36), 0);
    history.update(Side::ATTACKERS, mv, 128);
    assert_eq!(history.get(Side::ATTACKERS, 3, 36), (25 + 128 * 128) / 2);
    history.update(Side::DEFENDERS, mv, 3);
    assert_eq!(history.get(Side::DEFENDERS, 3, 36), 9);
    assert!(MAX_HISTORY_SCORE > 0);
}

#[test]
fn ordering_ranks_corner_king_moves_table_moves_killers_and_history() {
    let mut board = initial();
    board.set_fen("11/11/11/11/11/11/11/11/11/11/k10 d").unwrap();
    let mut generator = MoveGen::new();
    generator.generate_moves(&board);
    let corner = board.create_move_from_algebraic("a1k1").unwrap();
    let tt = board.create_move_from_algebraic("a1a2").unwrap();
    let k1 = board.create_move_from_algebraic("a1a3").unwrap();
    let k2 = board.create_move_from_algebraic("a1a4").unwrap();
    let mut history = History::new();
    history.update(Side::DEFENDERS, board.create_move_from_algebraic("a1a5").unwrap(), 100);
    generator.order_moves(&board, tt, [k1, k2], &history);
    for i in 0..generator.count {
        let mv = generator.moves[i];
        let expected = if mv.to() == 10 || mv.to() == 110 {
            2000000
        } else if mv == tt {
            1000000
        } else if mv == k1 {
            900000
        } else if mv == k2 {
            800000
        } else if mv == board.create_move_from_algebraic("a1a5").unwrap() {
            10
        } else {
            0
        };
        assert_eq!(generator.move_scores[i], expected);
    }
    let first = generator.pick_move().unwrap();
    let second = generator.pick_move().unwrap();
    assert!(first == corner || second == corner);
    assert!(first.to() == 10 || first.to() == 110);
    assert!(second.to() == 10 || second.to() == 110);
    assert_eq!(generator.pick_move(), Some(tt));
    assert_eq!(generator.pick_move(), Some(k1));
    assert_eq!(generator.pick_move(), Some(k2));
}

#[test]
fn first_layer_weights_are_laid_out_input_by_input() {
    let hidden_major: Vec<i16> = (0..INPUTS * HIDDEN).map(|k| (k % 30000) as i16).collect();
    let out = fc1_input_major(&hidden_major);
    assert_eq!(out.len(), INPUTS * HIDDEN);
    for (i, h) in [(0usize, 0usize), (1, 0), (0, 1), (363, 255), (17, 200)] {
        assert_eq!(out[i * HIDDEN + h], hidden_major[h * INPUTS + i]);
    }
}

#[test]
fn perft_gives_the_repetition_table_back() {
    let mut board = initial();
    let mv = board.create_move_from_algebraic("d1d3").unwrap();
    board.make_move_simple(mv).unwrap();
    let before = board.rep_table.clone();
    perft(&mut board, 2);
    assert_eq!(board.rep_table, before);
    perft_divide(&mut board, 2);
    assert_eq!(board.rep_table, before);
}

#[test]
fn breaking_a_fort_takes_the_first_listed_defender_it_can() {
    let mut board = initial();
    board.set_fen("11/11/11/11/11/5k5/11/11/11/11/11 a").unwrap();
    board.set_piece(get_square_from_algebraic("c3"), Piece::DEFENDER).unwrap();
    board.set_piece(get_square_from_algebraic("h3"), Piece::DEFENDER).unwrap();
    let mut space = vec![false; 121];
    // both neighbours of every square along row 3 are in the space
    for c in 0..11 {
        space[2 * 11 + c] = true;
    }
    let first = board.defenders[0];
    let broken = try_break_fort(&space, &mut board);
    assert_eq!(broken, first as isize);
    assert_eq!(board.board[first], Piece::EMPTY);
    let nothing = vec![false; 121];
    let mut other = initial();
    let fen = other.get_fen();
    assert_eq!(try_break_fort(&nothing, &mut other), HOLE);
    assert_eq!(other.get_fen(), fen);
}

#[test]
fn a_divided_perft_adds_up_to_the_whole() {
    let mut board = initial();
    let split = perft_divide(&mut board, 3);
    let total: u64 = split.iter().map(|(_, n)| *n).sum();
    assert_eq!(total, perft(&mut board, 3));
}

#[test]
fn a_packed_position_comes_back_with_zero_counters() {
    let mut board = initial();
    board.set_fen("11/11/11/11/11/5k5/11/11/11/11/a10 - d 7 42").unwrap();
    let back = BitPosition::from_board(&board, 1).to_board(RulesEnum::Copenhagen11x11);
    assert_eq!(back.halfmove_clock, 0);
    assert_eq!(back.halfmove_count, 0);
    assert_eq!(back.board, board.board);
}

#[test]
fn a_fen_refused_in_a_row_leaves_the_rows_read_so_far() {
    let mut board = initial();
    assert!(board.set_fen("11/5k5/3x7/11/11/11/11/11/11/11/11 a").is_err());
    // the first two rows were read; the board was cleared before them
    assert_eq!(board.board[get_square_from_algebraic("f10")], Piece::KING);
    assert_eq!(board.board.iter().filter(|p| **p != Piece::EMPTY).count(), 1);
    assert_eq!(board.side_to_move, Side::ATTACKERS);
}
