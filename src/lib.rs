//! Selection of list files for a terminal checklist: the catalog of candidate
//! files, the key-driven state machine that edits it, the rows it is drawn
//! with, and the line-based selection record that persists it.
use vstd::prelude::*;

pub mod catalog;
pub mod record;
pub mod render;
pub mod session;
pub mod text;
