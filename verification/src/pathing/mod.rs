//! Marker packs: their names, their XML description and the tree they form.

pub mod name;
pub mod pack_tree;
pub mod model;
pub mod trail;
pub mod pack;
pub mod xml;
pub mod entry;
pub mod enabled;
pub mod tree;
pub mod spawn;
pub mod archive;
pub mod column;
