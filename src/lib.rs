//! Key-binding tables for a tiling window manager: chord parsing, the action
//! registry, template expansion and a conflict-free binding table.
pub mod chord;
pub mod action;
pub mod template;
pub mod table;
pub mod bindings;
