//! A clipboard for filesystem paths that persists between invocations:
//! paths are queued by one command and later copied or moved into a
//! directory by another.
//!
//! This crate holds the decisions of that tool: the text format of the
//! clipboard file, which paths an add queues, where each queued path lands,
//! the plan of a recursive copy, and which paths stay queued after a batch.
//! The filesystem work around those decisions is done by the caller.

pub mod app;
pub mod clipboard;
pub mod path_text;
pub mod store;
pub mod transfer;

pub use app::{App, Command, Task};
pub use clipboard::{Clipboard, ClipboardError};
pub use path_text::{file_name, join};
pub use store::{append_text, lock_result, read_all, render, ClipboardFileError, LockStatus};
pub use transfer::{
    copy_plan, finish_batch, retained, target_in, CopyStep, EntryKind, ExecError, ExecErrorKind,
    TreeEntry,
};
