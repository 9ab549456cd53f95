//! Reconstructs the pre-change side of every file touched by a remote pull
//! request and pairs it with the post-change side for an interactive
//! comparison tool.
//!
//! The crate holds the verified core: the ordered change-set store, the
//! patch-reversal engine, the content-record decoder, the staging-path
//! computation, the diff-tool configuration rules, and the ordered pipeline
//! state machine.  Process spawning, network access and file I/O live in the
//! surrounding application, which hands this crate plain values.

mod change_set;
mod content;
mod git_config;
mod patch;
mod pipeline;
mod stage;
mod text;

pub use change_set::{Change, ChangeSet, ChangeSetError, Reconstruction, Reversed};
pub use content::{file_contents_from_record, ContentRecord, DecodeError};
pub use git_config::{
    get_command_args, get_config_difftool, get_difftool_program, known_tool_candidates,
    lookup_known_tool_program, Difftool, Error,
};
pub use patch::{apply_to_text, PatchError};
pub use pipeline::{Action, Pipeline, SlotState};
pub use stage::{staged_paths, StagedPair};
