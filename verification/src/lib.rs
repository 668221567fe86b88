//! Rules engine for a Commander-format card game: decks, turn phases,
//! priority, combat, commander rules and multiplayer politics.

pub mod entity;
pub mod text;
pub mod cards;
pub mod deck;
pub mod phase;
pub mod clock;
pub mod game;
pub mod priority;
pub mod phase_systems;
pub mod commander;
pub mod combat;
pub mod combat_test_utils;
pub mod politics;
pub mod events;
pub mod player;
pub mod docs;
pub mod card_scripts;
pub mod actions;
pub mod card_render;
pub mod keywords_and_counters;
pub mod permanent;
