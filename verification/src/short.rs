//! Short games: finitely many positions, no infinite play.

pub mod partizan;
