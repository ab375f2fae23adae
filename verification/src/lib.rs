//! Marker-pack reading and MumbleLink decoding for a Guild Wars 2 overlay.

pub mod bytes;
pub mod graph;
pub mod input;
pub mod link;
pub mod marker_tree;
pub mod mumblelink;
pub mod pacer;
pub mod pathing;
pub mod repo;
pub mod text;
pub mod ui;
