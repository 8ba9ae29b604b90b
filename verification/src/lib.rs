//! Deterministic state-transition core of a card and automation game:
//! player economy, production objects driven by a logical tick scheduler,
//! and a card marketplace, all stated over mathematical views and proved.

pub mod automaton;
pub mod card;
pub mod codec;
pub mod config;
pub mod conservation;
pub mod error;
pub mod events;
pub mod handlers;
pub mod inventory;
pub mod laws;
pub mod market;
pub mod math;
pub mod object;
pub mod player;
pub mod scheduler;
pub mod scheduling;
pub mod state;
pub mod validity;
pub mod steps;
pub mod world;
