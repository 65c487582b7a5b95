pub mod clock;
pub mod config;
pub mod daemon;
pub mod jmap;
pub mod keyed;
pub mod lines;
pub mod message;
pub mod numbers;
pub mod outside;
pub mod queue;
pub mod search;
pub mod sorting;
pub mod sync;
pub mod text;
