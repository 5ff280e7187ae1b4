//! Texas Hold'em poker core: cards, hands, ranges and the game state machine.

pub mod bitset;
pub mod card;
pub mod hand;
pub mod game;
pub mod play;
pub mod position;
pub mod game_builder;
pub mod range;
pub mod range_table;
pub mod range_config;
pub mod ai;
pub mod card_selector;
pub mod db;
pub mod xml_parser;
pub mod history_viewer;
pub mod deck;
