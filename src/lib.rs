//! A tick-driven village simulation on a small grid. Villagers forage farms,
//! go hungry and die; farms regrow next to themselves. Each cascade of events
//! runs on a stack until nothing is pending.
pub mod events;
pub mod keys;
pub mod movement;
pub mod random;
pub mod world;
