use vstd::prelude::*;

verus! {

/// Why an install or an uninstall was refused. In every case no byte of
/// code has been changed.
#[derive(Clone, Copy, Debug, PartialEq, Eq, Structural)]
pub enum HookError {
    /// The protection of the pages under the range could not be changed:
    /// the range is empty or runs past the mapped code.
    ProtectionChangeFailed,
    /// The site is already hooked; patching again would lose the saved
    /// original bytes.
    DoubleInstall,
    /// The site is not hooked, so there is nothing to restore.
    DoubleUninstall,
}

} // verus!
