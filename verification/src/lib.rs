//! Experience points, streaks, quests and leaderboards for spaced repetition.

pub mod achievements;
pub mod avatars;
pub mod boards;
pub mod calendar;
pub mod command;
pub mod competition;
pub mod completions;
pub mod config;
pub mod day_table;
pub mod days;
pub mod decks;
pub mod delivery;
pub mod double;
pub mod feedback;
pub mod freezes;
pub mod friend_nudges;
pub mod game;
pub mod habits;
pub mod i18n;
pub mod inbox;
pub mod levels;
pub mod lifetime;
pub mod limits;
pub mod manners;
pub mod messages;
pub mod nudges;
pub mod order;
pub mod pieces;
pub mod points;
pub mod preferences;
pub mod quests;
pub mod ranking;
pub mod records;
pub mod replay;
pub mod sharing;
pub mod soundness;
pub mod store;
pub mod subscriptions;
pub mod sync;
pub mod table;
pub mod tallies;
pub mod text;
pub mod trophies;
pub mod uploads;
pub mod week;
pub mod windows;
