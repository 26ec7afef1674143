//! A model of an in-process function-hooking engine: code pages with
//! page-level protection, an absolute redirect written over a function's
//! entry, a hook site that saves and restores the bytes it overwrites, the
//! register save/restore primitives, and the trampolines that run when a
//! hooked function is called. Beside it stand the plain types that the
//! scripting bridge hands to scripts.

pub mod error;
pub mod memory;
pub mod patch;
pub mod regs;
pub mod script;
pub mod trampoline;

pub use error::HookError;
pub use memory::{CodeMemory, PAGE_SIZE};
pub use patch::{decode_redirect, redirect_bytes, HookSite, REDIRECT_LEN};
pub use regs::{pop_all, push_all, RegisterFile, FRAME_LEN};
pub use script::{Event, IfaceError};
pub use trampoline::{CallEvent, Machine, Policy};

