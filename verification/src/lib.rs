//! Lighter: the logic of a small reactive UI framework, verified.
pub mod flags;
pub mod dirty;
pub mod node;
pub mod slots;
pub mod count;
pub mod arena;
pub mod geometry;
pub mod engine;
pub mod reactive;
pub mod signal;
pub mod animation;
pub mod event;
pub mod dimension;
pub mod text;
pub mod state;
pub mod patches;
pub mod registry;
pub mod propagation;
