//! GameBenchy engine: a deterministic, seeded tower-defense game used as an
//! agent benchmark, with its verified rules, pathfinding and wave simulation.

pub mod text;
pub mod types;
pub mod path;
pub mod flight;
pub mod waves;
pub mod sim;
pub mod game;
pub mod properties;
pub mod protocol;
pub mod llm;
pub mod reply;
pub mod report;
pub mod agents;
pub mod tui;
pub mod campaign;
pub mod rng;
