use taflzero::board::Board;
use taflzero::board::rules::RulesEnum;
use taflzero::uci::{fen_cut_short, uci_command, uci_tokens, UciCommand};

fn command(line: &str) -> UciCommand {
    uci_command(&uci_tokens(line))
}

fn initial() -> Board {
    let mut board = Board::new();
    board.setup_initial_position().unwrap();
    board
}

#[test]
fn console_lines_split_at_whitespace() {
    let t = uci_tokens("  go \t movetime   100 ");
    assert_eq!(t, vec![b"go".to_vec(), b"movetime".to_vec(), b"100".to_vec()]);
    assert!(uci_tokens("   ").is_empty());
}

#[test]
fn simple_console_commands() {
    assert_eq!(command(""), UciCommand::Unknown);
    assert_eq!(command("hello"), UciCommand::Unknown);
    assert_eq!(command("quit"), UciCommand::Quit);
    assert_eq!(command("stop"), UciCommand::Stop);
    assert_eq!(command("isready"), UciCommand::IsReady);
    assert_eq!(command("uci"), UciCommand::Identify);
    assert_eq!(command("board"), UciCommand::ShowBoard);
    assert_eq!(command("Quit"), UciCommand::Unknown);
}

#[test]
fn setoption_commands() {
    assert_eq!(command("setoption name NNFile value ./net.onnx"), UciCommand::SetNnFile);
    assert_eq!(command("setoption name MultiPV value 5"), UciCommand::SetMultiPv(5));
    assert_eq!(command("setoption name MultiPV value +7"), UciCommand::SetMultiPv(7));
    assert_eq!(command("setoption name MultiPV value 1000"), UciCommand::SetMultiPv(1000));
    assert_eq!(command("setoption name MultiPV value 1001"), UciCommand::InvalidMultiPv);
    assert_eq!(command("setoption name MultiPV value 0"), UciCommand::InvalidMultiPv);
    // text that is no number counts as one line
    assert_eq!(command("setoption name MultiPV value many"), UciCommand::SetMultiPv(1));
    assert_eq!(
        command("setoption name Variant value historical11x11"),
        UciCommand::SetVariant(RulesEnum::Historical11x11)
    );
    assert_eq!(
        command("setoption name Variant value copenhagen11x11"),
        UciCommand::SetVariant(RulesEnum::Copenhagen11x11)
    );
    assert_eq!(command("setoption name Variant value tablut9x9"), UciCommand::UnknownVariant);
    assert_eq!(command("setoption name Hash value 16"), UciCommand::UnsupportedSetOption);
    assert_eq!(command("setoption name MultiPV"), UciCommand::UnsupportedSetOption);
}

#[test]
fn position_commands() {
    assert_eq!(command("position"), UciCommand::PositionMissingArguments);
    assert_eq!(command("position startpos"), UciCommand::StartPos { listed: false });
    assert_eq!(command("position startpos moves"), UciCommand::StartPos { listed: true });
    assert_eq!(command("position startpos moves d1d3 f4f3"), UciCommand::StartPos { listed: true });
    assert_eq!(command("position startpos d1d3"), UciCommand::UnsupportedStartPos);
    assert_eq!(command("position fen 11/11/11/11/11/5k5/11/11/11/11/a10 d"), UciCommand::Fen { listed: false });
    assert_eq!(
        command("position fen 11/11/11/11/11/5k5/11/11/11/11/a10 d moves f6f7"),
        UciCommand::Fen { listed: true }
    );
    assert_eq!(
        command("position fen 11/11/11/11/11/5k5/11/11/11/11/a10 d then f6f7"),
        UciCommand::FenWithoutMoves
    );
    assert_eq!(command("position midgame"), UciCommand::UnknownPosition);
}

#[test]
fn a_fen_command_without_its_fields_is_cut_short() {
    assert!(fen_cut_short(&uci_tokens("position fen")));
    assert!(fen_cut_short(&uci_tokens("position fen 11/11/11/11/11/5k5/11/11/11/11/a10")));
    assert!(!fen_cut_short(&uci_tokens("position fen 11/11/11/11/11/5k5/11/11/11/11/a10 d")));
    assert!(!fen_cut_short(&uci_tokens("position startpos")));
}

#[test]
fn go_commands() {
    assert_eq!(command("go"), UciCommand::GoMissingArguments);
    assert_eq!(command("go movetime"), UciCommand::MovetimeMissing);
    assert_eq!(command("go movetime 0"), UciCommand::InvalidMovetime);
    assert_eq!(command("go movetime soon"), UciCommand::InvalidMovetime);
    assert_eq!(command("go movetime 1500"), UciCommand::GoMovetime(1500));
    assert_eq!(command("go movetime 18446744073709551615"), UciCommand::GoMovetime(u64::MAX));
    assert_eq!(command("go movetime 18446744073709551616"), UciCommand::InvalidMovetime);
    assert_eq!(command("go nodes"), UciCommand::NodesMissing);
    assert_eq!(command("go nodes -5"), UciCommand::InvalidNodes);
    assert_eq!(command("go nodes 800"), UciCommand::GoNodes(800));
    assert_eq!(command("go infinite"), UciCommand::GoInfinite);
    assert_eq!(command("go ponder"), UciCommand::UnknownGo);
}

#[test]
fn console_moves_are_read_on_the_board() {
    let board = initial();
    let t = uci_tokens("position startpos moves d1d3 f4f3");
    let moves = board.parse_moves(&t, 3).unwrap();
    assert_eq!(moves.len(), 2);
    assert_eq!(moves[0], board.create_move_from_algebraic("d1d3").unwrap());
    assert_eq!(moves[1], board.create_move_from_algebraic("f4f3").unwrap());
    assert!(board.parse_moves(&t, t.len()).unwrap().is_empty());

    let t = uci_tokens("position startpos moves d1d3 z9z9 f4f3");
    let err = board.parse_moves(&t, 3).unwrap_err();
    assert_eq!(err.0, 4);
}

#[test]
fn a_move_applies_only_from_a_piece_to_a_free_square() {
    let board = initial();
    let mv = |s: &str| board.create_move_from_algebraic(s).unwrap();
    assert!(board.can_make_move(mv("d1d3")));
    assert!(!board.can_make_move(mv("c1c3")));
    assert!(!board.can_make_move(mv("d1e1")));
}
