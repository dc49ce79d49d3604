use vstd::prelude::*;

verus! {

/// Every failure an installation step can report.
#[derive(Debug, PartialEq, Eq)]
pub enum InstallError {
    /// The installation name is empty or could escape the drive root.
    InvalidName,
    /// The archive bytes could not be read as an archive.
    OpenFailed,
    /// Creating, writing or copying the named path failed.
    IoFailure(String),
    /// The application executable is not present in any known layout.
    NotFound,
    /// The desktop directory of the current user cannot be determined.
    DesktopUnavailable,
    /// The shortcut batch failed; carries the diagnostic text.
    ShortcutError(String),
    /// The executable could not be started.
    LaunchError(String),
}

} // verus!
