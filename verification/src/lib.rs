//! Verified core of a first-person exploration game: its message bus and its
//! half-edge world geometry.
pub mod message_bus;
pub mod ids;
pub mod defs;
pub mod slots;
pub mod geometry;
pub mod geometry_lemmas;
pub mod queries;
pub mod validation;
pub mod convexity;
pub mod processing;
pub mod controllers;
pub mod console;
pub mod interactions;
pub mod room_info;
pub mod editor;
pub mod hud;
pub mod undo;
pub mod editing;
pub mod scenes;
pub mod bounds;
pub mod bitmap;
pub mod processed_world;
pub mod commands;
pub mod geometry_undo;
