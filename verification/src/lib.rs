pub mod action;
pub mod action_history;
pub mod action_option;
pub mod card;
pub mod game_type;
pub mod input;
pub mod lobby;
pub mod hand_rank;
pub mod player;
pub mod deck;
pub mod game;
pub mod pot;
pub mod rules;
pub mod server;
