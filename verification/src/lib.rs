use vstd::prelude::*;

pub mod text;
pub mod order;
pub mod git_tools;
pub mod gitworkspace;
pub mod completion;
pub mod actions;
pub mod mode;
pub mod key;
pub mod config;
pub mod keymap;
pub mod events;
pub mod lsp;
pub mod grapheme;
pub mod gitdiff;
pub mod indent;
pub mod rope;
pub mod buffer;
pub mod motion;
pub mod command;
pub mod autopairs;
pub mod language;
pub mod conflict;
pub mod editor;
pub mod markdown;
pub mod align;
pub mod filetree;
pub mod mainloop;
pub mod insert;
pub mod substitute;
pub mod lsp_results;
pub mod ex;
pub mod files;
pub mod clipboard;
pub mod jobs;
pub mod normal;

verus! {
}
