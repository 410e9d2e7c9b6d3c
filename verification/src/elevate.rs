//! Administrator rights of the MCP server process: the answers on platforms
//! without Windows token elevation, and the rules of restarting elevated on
//! Windows.
use vstd::prelude::*;
use crate::error::{digits, push_digits, push_signed_decimal, push_text, signed_decimal};
use crate::text::string_from_chars;

verus! {

/// Whether the process may read raw volumes; outside Windows no elevation
/// is needed, so this always holds.
pub fn is_elevated() -> (r: bool)
    ensures
        r,
{
    true
}

/// The message given where elevation is asked for outside Windows.
pub open spec fn windows_only_message() -> Seq<char> {
    "此功能仅支持 Windows 平台"@
}

/// Restarting elevated on `port` is a Windows feature; elsewhere it fails.
pub fn elevate_self(port: u16) -> (r: Result<(), String>)
    ensures
        r matches Err(m) && m@ == windows_only_message(),
{
    Err("此功能仅支持 Windows 平台".to_owned())
}

/// The arguments of the elevated restart: the same port.
pub fn elevation_params(port: u16) -> (r: String)
    ensures
        r@ == "--port "@ + digits(port as nat, 10),
{
    let mut v: Vec<char> = Vec::new();
    push_text(&mut v, "--port ");
    push_digits(&mut v, port as u64, 10);
    string_from_chars(&v)
}

/// The text reported when the elevated restart fails with the shell's code.
pub open spec fn launch_failed_message(code: int) -> Seq<char> {
    "提权启动失败 (ShellExecute 返回 "@ + signed_decimal(code) + ")"@
}

/// The outcome of the elevated restart from the code the shell returned:
/// a code above 32 means it started; any other is reported as a failure.
pub fn elevation_outcome(code: isize) -> (r: Result<(), String>)
    ensures
        code > 32 ==> r is Ok,
        code <= 32 ==> (r matches Err(m) && m@ == launch_failed_message(code as int)),
{
    if code > 32 {
        return Ok(());
    }
    let mut v: Vec<char> = Vec::new();
    push_text(&mut v, "提权启动失败 (ShellExecute 返回 ");
    push_signed_decimal(&mut v, code as i64);
    push_text(&mut v, ")");
    Err(string_from_chars(&v))
}

} // verus!
