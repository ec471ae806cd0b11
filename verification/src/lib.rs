//! The perception-to-recall core of a companion agent.
//!
//! A snapshot of what the agent sees becomes an embedding
//! ([`aura_vision`]), which is smoothed over time ([`smoother`]) and matched
//! against hand-curated intent anchors ([`intent_engine`], persisted by
//! [`intent_store`]). From the anchors that match, activation spreads
//! through a graph of associated memories ([`graph`], [`diffusion`]), and a
//! saturation guard ([`saturation`]) keeps the agent from reacting twice to
//! what it has just reacted to. [`vision_intent_memory`] ties these together
//! into one cycle.
//!
//! All numbers are fixed-point integers ([`fixed`], [`vector`]), so that every
//! result is exact, the same on every machine, and stated in the contracts.
//! What holds of a graph however it was built is collected in
//! [`graph_laws`]; the ranking that several modules share is in [`rank`] and
//! [`scores`].
//!
//! Beside the core stand two small utilities of the agent's tool runner:
//! the command auditor ([`audit`]) and the path clean-up ([`paths`]).

pub mod audit;
pub mod aura_vision;
pub mod diffusion;
pub mod errors;
pub mod fixed;
pub mod graph;
pub mod graph_laws;
pub mod intent_engine;
pub mod intent_store;
pub mod paths;
pub mod rank;
pub mod saturation;
pub mod scores;
pub mod smoother;
pub mod vector;
pub mod vision_intent_memory;
