pub mod mv;
pub mod undo;
pub mod capture;
pub mod shield;
pub mod removal;
pub mod make_move;
pub mod unmake;
pub mod roundtrip;
pub mod movegen;
pub mod legal;
pub mod algebraic;
pub mod perft;
pub mod capture_gen;
