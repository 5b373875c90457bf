//! A chess move-search engine: a guard-banded board, per-color figure indexes
//! edited in place by make/unmake, a pseudo-legal move generator and a
//! negamax search with an alpha-beta variant.

pub mod point;
pub mod figure;
pub mod board;
pub mod figure_list;
pub mod movement;
pub mod board_controller;
pub mod generation;
pub mod score;
pub mod record;
