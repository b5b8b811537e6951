//! Text-input editing core: selections, undo history, grapheme navigation,
//! comment toggling and literal search, with their contracts proved by Verus.
#![allow(unused_imports)]

pub mod text;
pub mod utf8_facts;
pub mod selection;
pub mod change;
pub mod undo_manager;
pub mod grapheme;
pub mod selection_set;
pub mod comment;
pub mod search;
pub mod search_panel;
pub mod editor;
pub mod multi_edit;
pub mod comment_toggle;
pub mod syntax;
pub mod indent;
pub mod occurrences;
pub mod typing;
pub mod comment_host;
pub mod folds;
pub mod parse_schedule;
pub mod comment_round_trip;
