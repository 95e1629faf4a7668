//! Hunk-level manipulation of unified diffs.
//!
//! The crate parses unified-diff text into hunks, assigns each hunk a
//! stable content-derived identifier, slices hunks down to selected line
//! ranges while keeping the result a valid patch, aligns blame output
//! against a hunk's lines, and plans the engine command sequences for the
//! staging, committing and history-rewriting operations built on top.

pub mod args;
pub mod blame;
pub mod diff;
pub mod error;
pub mod hunk;
pub mod hunk_id;
pub mod patch;
pub mod skill;
pub mod text;

pub use args::{PickGroup, parse_split_args, parse_line_range, parse_pick_id};
pub use blame::{parse_hunk_header, parse_blame_hashes, align_blame};
pub use diff::{DiffHunk, parse_diff, check_supported, display_file, strip_diff_prefix};
pub use error::Error;
pub use hunk_id::assign_ids;
pub use patch::{
    ApplyMode, slice_hunk, slice_hunk_multi, slice_hunk_with_state, build_patch, parse_hunk_starts,
};
pub use skill::Platform;
