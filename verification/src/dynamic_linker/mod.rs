//! Linking several images into one program.

pub mod artifact;
pub mod graph;
pub mod order;
pub mod reach;
pub mod scope;
pub mod symbol;
pub mod metadata;
pub mod lifecycle;
pub mod publish;
pub mod published;
pub mod runtime;
pub mod session;
