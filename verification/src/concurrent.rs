pub mod cell;
pub mod detective;
pub mod network;
pub mod restriction;
pub mod rivals;
pub mod rule;
pub mod solver;
