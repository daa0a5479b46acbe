pub mod policy;
pub mod sample;
pub mod king_mobility;
pub mod datagen;
pub mod response;
pub mod nn_input;
pub mod history;
pub mod ordering;
