//! The data a template is rendered against, and how template paths find
//! their way through it.

pub mod block;
pub mod context;
pub mod error;
pub mod index;
pub mod json;
pub mod laws;
pub mod order;
pub mod path;
