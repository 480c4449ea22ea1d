//! A small hierarchical record store: a building of floors, each holding
//! apartments identified by a floor number and a door letter.
//!
//! The crate models apartment codes, the in-memory building with its
//! ordering invariants, the text format the building is persisted in,
//! and the directory-discovery protocol that locates the persisted file.
//! All filesystem access is left to the embedding program, which drives
//! the discovery state machines with the answers of the real filesystem.

pub mod apartments;
pub mod app;
