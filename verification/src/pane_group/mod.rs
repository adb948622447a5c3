//! The tree of panes in the middle of a workspace window.
//!
//! A pane group is a tree. Its leaves are single panes, or stacks of panes that
//! share one slot; its inner nodes are axes that lay their members out side by
//! side ([`Axis::Horizontal`](direction::Axis)) or one above the other.

pub mod direction;
pub mod tree;
pub mod edit;
pub mod query;
pub mod resize;
pub mod paths;
pub mod resize_laws;
pub mod edit_laws;
pub mod rearrange_laws;
pub mod group;
pub mod laws;
pub mod well_formed;
pub mod render;
pub mod query_laws;
pub mod render_laws;
pub mod element;
pub mod leader;
