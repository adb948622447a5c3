//! The verified core of a pane-based editor workspace.
pub mod clickables;
pub mod editor_jump;
pub mod editor_jump_laws;
pub mod jump;
pub mod jumplist;
pub mod layout_laws;
pub mod layout_snapshot;
pub mod modal_layer;
pub mod palette;
pub mod pane_group;
pub mod shell;
pub mod shell_laws;
pub mod terminal_jump;
pub mod text;
mod vectors;
pub mod words;
