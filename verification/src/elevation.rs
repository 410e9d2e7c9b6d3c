//! Administrator rights of the desktop application: the answers on platforms
//! without Windows token elevation, and the outcome of restarting elevated on
//! Windows.
use vstd::prelude::*;
use crate::error::{push_signed_decimal, push_text, signed_decimal};
use crate::text::string_from_chars;

verus! {

/// Whether the desktop application runs elevated; outside Windows it
/// reports that it does not.
pub fn is_elevated() -> (r: bool)
    ensures
        !r,
{
    false
}

/// The message given where a restart as administrator is asked for outside Windows.
pub open spec fn unsupported_os_message() -> Seq<char> {
    "不支持的操作系统"@
}

/// Restarting as administrator is a Windows feature; elsewhere it fails.
pub fn restart_elevated() -> (r: Result<(), String>)
    ensures
        r matches Err(m) && m@ == unsupported_os_message(),
{
    Err("不支持的操作系统".to_owned())
}

/// The text reported when the restart as administrator fails with the
/// shell's code.
pub open spec fn restart_failed_message(code: int) -> Seq<char> {
    "提权失败 (错误码: "@ + signed_decimal(code) + ")"@
}

/// The outcome of the restart as administrator from the code the shell
/// returned: a code above 32 means it started; any other is reported as a
/// failure.
pub fn restart_outcome(code: isize) -> (r: Result<(), String>)
    ensures
        code > 32 ==> r is Ok,
        code <= 32 ==> (r matches Err(m) && m@ == restart_failed_message(code as int)),
{
    if code > 32 {
        return Ok(());
    }
    let mut v: Vec<char> = Vec::new();
    push_text(&mut v, "提权失败 (错误码: ");
    push_signed_decimal(&mut v, code as i64);
    push_text(&mut v, ")");
    Err(string_from_chars(&v))
}

} // verus!
