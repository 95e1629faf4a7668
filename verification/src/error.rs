//! The failure taxonomy of the library: every operation reports one of
//! these, and each contract says exactly which one comes on which input.

use vstd::prelude::*;

verus! {

/// What a command of the library can fail with before or while planning;
/// failures of the backing engine itself are surfaced by the caller that
/// runs the engine.
#[derive(Debug, PartialEq, Eq)]
pub enum Error {
    /// A hunk carries metadata (rename, mode change, binary content) and
    /// may only be applied or reverted whole.
    UnsupportedHunk { id: String },
    /// No hunk of the current listing carries the requested id.
    HunkNotFound { id: String },
    /// A requested file path matches no hunk of the listing.
    FileNotFound { file: String },
    /// A line-range option was given together with more than one hunk id.
    LinesRequireSingleHunk,
    /// A number in a range could not be read.
    InvalidNumber { raw: String },
    /// A range was zero-based or ran backwards.
    BadRangeOrder { raw: String },
    /// The index already holds staged content.
    StagedChangesPresent,
    /// There is nothing staged to work with.
    NoStagedChanges,
    /// A history rewrite is already in progress.
    RebaseInProgress,
    /// The working tree holds uncommitted changes.
    DirtyWorkTree,
    /// The squash target is the current tip: nothing to squash.
    NothingToSquash,
    /// The squash target is not an ancestor of the tip.
    NotAncestor,
    /// The range holds merge commits and force was not given.
    MergeCommitsInRange,
    /// The masks handed to the stateful slicer do not match the hunk.
    MaskLengthMismatch,
    /// A hunk with unsupported metadata cannot be fragmented.
    SliceUnsupported,
    /// A hunk header carried no readable start offsets.
    InvalidHunkHeader,
    /// A line range of a pick exceeds the hunk's line count.
    RangeExceedsHunk { id: String, start: usize, end: usize, len: usize },
    /// A line range of a pick is zero-based.
    RangeZeroBased { id: String, start: usize, end: usize },
    /// A line was already committed by an earlier pick group.
    AlreadyPicked { id: String, line: usize },
    /// A pick group selected no change line at all.
    NothingSelected,
    /// A pick group has no message.
    PickMissingMessage,
    /// A message was given without a preceding pick.
    MessageWithoutPick,
    /// A pick was given after the rest-message section started.
    PickAfterRestMessage,
    /// A message was given after the rest-message section started.
    MessageAfterRestMessage,
    /// A flag that needs a value stood last.
    MissingValue,
    /// A pick flag was given without any hunk id.
    PickNeedsIds,
    /// An argument fit no known flag.
    UnexpectedArgument { arg: String },
    /// No pick group at all was given.
    NoPickGroups,
}

} // verus!
