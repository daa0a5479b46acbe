pub mod surround;
pub mod terminal;
pub mod score;
pub mod fort;
pub mod game_laws;
