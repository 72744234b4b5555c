//! A library for composing, editing, printing, concatenating, and rendering
//! timeline documents: hierarchical collections of dated events together with
//! visual styling metadata.

pub mod dates;
pub mod edit;
pub mod events;
pub mod saga;
pub mod scalar;
pub mod text;

