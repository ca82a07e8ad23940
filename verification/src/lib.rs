//! Finds the places that GPS tracks have in common and keeps them in an index
//! that can be queried with the two tracks in either order.

pub mod artifact;
pub mod builder;
pub mod coord;
pub mod error;
pub mod format;
pub mod index;
pub mod json_list;
pub mod json_text;
pub mod matcher;
pub mod points;
pub mod resolve;
pub mod source;
pub mod std_text;
