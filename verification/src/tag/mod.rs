//! Reading artist-authored tags off glTF nodes.
pub mod component;
pub mod json;
pub mod parse;
pub mod registry;
pub mod resolve;
pub mod value;
