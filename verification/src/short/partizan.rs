//! Short partizan games: Left and Right may have different moves.

pub mod canonical_form;
pub mod existence;
pub mod game_form;
pub mod game_sum;
pub mod games;
pub mod laws;
pub mod notation;
pub mod number_order;
pub mod nus_order;
pub mod nus_sum;
pub mod partizan_game;
pub mod plain_sum;
pub mod simplest_form;
pub mod sum_theorem;
pub mod transposition_table;
