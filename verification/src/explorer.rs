//! How the desktop application shows a scanned path in the system's file
//! browser.
use vstd::prelude::*;
use crate::error::AppError;
use crate::text::chars_of;

verus! {

/// What the file browser is asked to do with a path.
#[derive(Debug, Clone, Copy, PartialEq, Eq, Structural)]
pub enum RevealAction {
    /// Open the path itself: a drive root on Windows.
    OpenDrive,
    /// Open the folder holding the path with the path selected (Windows).
    SelectItem,
    /// Open the path when it is a directory, else its parent (other systems).
    OpenFolder,
}

/// Whether `s` ends with a drive letter's `:\`.
pub open spec fn ends_with_drive_root(s: Seq<char>) -> bool {
    s.len() >= 2 && s[s.len() - 2] == ':' && s[s.len() - 1] == '\\'
}

/// The text of the error for a path outside the scanned volume.
pub open spec fn outside_text() -> Seq<char> {
    "路径不在当前扫描卷范围内"@
}

/// The text of the error before any scan.
pub open spec fn not_scanned_text() -> Seq<char> {
    "尚未扫描"@
}

/// Decides how to show `path`: nothing before a scan, nothing for a path that
/// (once resolved) is not under the scanned root, else on Windows a drive root
/// is opened and any other path selected in its folder, and elsewhere the
/// path's folder is opened.
pub fn reveal_action(scanned: bool, inside_root: bool, path: &str, windows: bool) -> (r: Result<RevealAction, AppError>)
    ensures
        !scanned ==> (r matches Err(AppError::Internal(m)) && m@ == not_scanned_text()),
        scanned && !inside_root ==> (r matches Err(AppError::Win(m)) && m@ == outside_text()),
        scanned && inside_root ==> r == Ok::<RevealAction, AppError>(
            if !windows {
                RevealAction::OpenFolder
            } else if ends_with_drive_root(path@) {
                RevealAction::OpenDrive
            } else {
                RevealAction::SelectItem
            },
        ),
{
    if !scanned {
        return Err(AppError::Internal("尚未扫描".to_owned()));
    }
    if !inside_root {
        return Err(AppError::Win("路径不在当前扫描卷范围内".to_owned()));
    }
    if !windows {
        return Ok(RevealAction::OpenFolder);
    }
    let cs = chars_of(path);
    let n = cs.len();
    if n >= 2 && cs[n - 2] == ':' && cs[n - 1] == '\\' {
        Ok(RevealAction::OpenDrive)
    } else {
        Ok(RevealAction::SelectItem)
    }
}

} // verus!
