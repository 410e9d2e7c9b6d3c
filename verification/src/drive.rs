//! Drive roots typed by the user: trimming, recognising `X:` roots and the
//! raw device paths that NTFS scanning opens, and the choice of scanner.
use vstd::prelude::*;
use crate::models::{ScanMode, ScanResult};
use crate::text::{chars_of, string_from_chars};

verus! {

/// The Unicode `White_Space` characters, which `str::trim` removes.
pub open spec fn is_white_space(c: char) -> bool {
    let v = c as u32;
    ||| 0x09 <= v <= 0x0D
    ||| v == 0x20
    ||| v == 0x85
    ||| v == 0xA0
    ||| v == 0x1680
    ||| 0x2000 <= v <= 0x200A
    ||| v == 0x2028
    ||| v == 0x2029
    ||| v == 0x202F
    ||| v == 0x205F
    ||| v == 0x3000
}

pub fn is_white_space_exec(c: char) -> (r: bool)
    ensures
        r == is_white_space(c),
{
    let v = c as u32;
    (0x09 <= v && v <= 0x0D) || v == 0x20 || v == 0x85 || v == 0xA0 || v == 0x1680
        || (0x2000 <= v && v <= 0x200A) || v == 0x2028 || v == 0x2029 || v == 0x202F
        || v == 0x205F || v == 0x3000
}

/// `s` without its leading white space.
pub open spec fn trim_start(s: Seq<char>) -> Seq<char>
    decreases s.len(),
{
    if s.len() > 0 && is_white_space(s[0]) { trim_start(s.drop_first()) } else { s }
}

/// `s` without its trailing white space.
pub open spec fn trim_end(s: Seq<char>) -> Seq<char>
    decreases s.len(),
{
    if s.len() > 0 && is_white_space(s.last()) { trim_end(s.drop_last()) } else { s }
}

/// `s` without leading and trailing white space.
pub open spec fn trim(s: Seq<char>) -> Seq<char> {
    trim_end(trim_start(s))
}

/// The characters of `s` without leading and trailing white space.
pub fn trim_chars(s: &str) -> (r: Vec<char>)
    ensures
        r@ == trim(s@),
{
    let cs = chars_of(s);
    let mut start: usize = 0;
    assert(cs@.skip(0) =~= cs@);
    while start < cs.len() && is_white_space_exec(cs[start])
        invariant
            start <= cs@.len(),
            cs@ == s@,
            trim_start(s@) == trim_start(cs@.skip(start as int)),
        decreases cs@.len() - start,
    {
        assert(cs@.skip(start as int).drop_first() =~= cs@.skip(start + 1));
        start += 1;
    }
    assert(trim_start(cs@.skip(start as int)) == cs@.skip(start as int));
    let mut end: usize = cs.len();
    assert(cs@.subrange(start as int, end as int) =~= cs@.skip(start as int));
    while end > start && is_white_space_exec(cs[end - 1])
        invariant
            start <= end <= cs@.len(),
            cs@ == s@,
            trim(s@) == trim_end(cs@.subrange(start as int, end as int)),
        decreases end,
    {
        assert(cs@.subrange(start as int, end as int).drop_last() =~= cs@.subrange(start as int, end - 1));
        end -= 1;
    }
    let mut r: Vec<char> = Vec::new();
    let mut i: usize = start;
    while i < end
        invariant
            start <= i <= end <= cs@.len(),
            r@ == cs@.subrange(start as int, i as int),
        decreases end - i,
    {
        r.push(cs[i]);
        i += 1;
        assert(r@ =~= cs@.subrange(start as int, i as int));
    }
    r
}

/// ASCII uppercase of one character; other characters are kept.
pub open spec fn upper_char(c: char) -> char {
    if 'a' <= c && c <= 'z' { ((c as u32) - 32) as char } else { c }
}

pub fn upper_char_exec(c: char) -> (r: char)
    ensures
        r == upper_char(c),
{
    if 'a' <= c && c <= 'z' {
        ((c as u8) - 32) as char
    } else {
        c
    }
}

/// Whether the text names a drive: its second byte is `:`. In UTF-8 that is
/// the case exactly when the first character is ASCII and the second is `:`
/// (a multi-byte character puts a continuation byte, never `:`, second).
pub open spec fn names_drive(t: Seq<char>) -> bool {
    t.len() >= 2 && (t[0] as u32) < 128 && t[1] == ':'
}

fn names_drive_exec(t: &Vec<char>) -> (r: bool)
    ensures
        r == names_drive(t@),
{
    t.len() >= 2 && (t[0] as u32) < 128 && t[1] == ':'
}

/// The root `X:\` of the drive that `t` names, with its letter uppercased.
pub open spec fn drive_root(t: Seq<char>) -> Seq<char> {
    seq![upper_char(t[0]), ':', '\\']
}

fn drive_root_exec(t: &Vec<char>) -> (r: String)
    requires
        t@.len() >= 1,
    ensures
        r@ == drive_root(t@),
{
    let mut v: Vec<char> = Vec::new();
    v.push(upper_char_exec(t[0]));
    v.push(':');
    v.push('\\');
    assert(v@ =~= drive_root(t@));
    string_from_chars(&v)
}

/// Whether `root` looks like a Windows drive root such as `C:\`.
pub fn looks_like_windows_drive_root(root: &str) -> (r: bool)
    ensures
        r == names_drive(trim(root@)),
{
    let t = trim_chars(root);
    names_drive_exec(&t)
}

/// The trimmed root, as `X:\` with an uppercase letter where it names a drive.
pub fn normalize_windows_root(root: &str) -> (r: String)
    ensures
        r@ == (if names_drive(trim(root@)) { drive_root(trim(root@)) } else { trim(root@) }),
{
    let t = trim_chars(root);
    if names_drive_exec(&t) {
        drive_root_exec(&t)
    } else {
        string_from_chars(&t)
    }
}

/// The prefix `\\.\` of a raw device path.
pub open spec fn device_prefix() -> Seq<char> {
    seq!['\\', '\\', '.', '\\']
}

fn has_device_prefix(t: &Vec<char>) -> (r: bool)
    ensures
        r == (t@.len() >= 4 && t@.take(4) == device_prefix()),
{
    if t.len() >= 4 && t[0] == '\\' && t[1] == '\\' && t[2] == '.' && t[3] == '\\' {
        assert(t@.take(4) =~= device_prefix());
        true
    } else {
        if t.len() >= 4 {
            assert(t@.take(4)[0] == t@[0]);
            assert(t@.take(4)[1] == t@[1]);
            assert(t@.take(4)[2] == t@[2]);
            assert(t@.take(4)[3] == t@[3]);
        }
        false
    }
}

fn skip_chars(t: &Vec<char>, n: usize) -> (r: Vec<char>)
    requires
        n <= t@.len(),
    ensures
        r@ == t@.skip(n as int),
{
    let mut r: Vec<char> = Vec::new();
    let mut i: usize = n;
    while i < t.len()
        invariant
            n <= i <= t@.len(),
            r@ == t@.subrange(n as int, i as int),
        decreases t@.len() - i,
    {
        r.push(t[i]);
        i += 1;
        assert(r@ =~= t@.subrange(n as int, i as int));
    }
    r
}

/// The message given for a root that names no drive.
pub open spec fn not_a_drive_root_message() -> Seq<char> {
    "NTFS MFT 模式只支持 Windows 盘符根路径，例如 C:\\"@
}

/// The drive root `X:\` of a user's input: a trimmed `X:...`, or a raw device
/// path `\\.\X:...`; any other input is refused.
pub fn drive_root_from_input(root: &str) -> (r: Result<String, String>)
    ensures
        ({
            let t = trim(root@);
            if t.len() >= 4 && t.take(4) == device_prefix() && names_drive(t.skip(4)) {
                r matches Ok(s) && s@ == drive_root(t.skip(4))
            } else if names_drive(t) {
                r matches Ok(s) && s@ == drive_root(t)
            } else {
                r matches Err(m) && m@ == not_a_drive_root_message()
            }
        }),
{
    let t = trim_chars(root);
    if has_device_prefix(&t) {
        let rest = skip_chars(&t, 4);
        if names_drive_exec(&rest) {
            return Ok(drive_root_exec(&rest));
        }
    }
    if names_drive_exec(&t) {
        return Ok(drive_root_exec(&t));
    }
    Err("NTFS MFT 模式只支持 Windows 盘符根路径，例如 C:\\".to_owned())
}

/// The raw device path `\\.\X:` of the drive root `root`.
pub fn volume_device_path(root: &str) -> (r: Result<String, String>)
    ensures
        names_drive(root@) ==> (r matches Ok(s) && s@ == device_prefix() + seq![upper_char(root@[0]), ':']),
        !names_drive(root@) ==> (r matches Err(m) && m@ == "invalid Windows drive root: "@ + root@),
{
    let cs = chars_of(root);
    if names_drive_exec(&cs) {
        let mut v: Vec<char> = Vec::new();
        v.push('\\');
        v.push('\\');
        v.push('.');
        v.push('\\');
        v.push(upper_char_exec(cs[0]));
        v.push(':');
        assert(v@ =~= device_prefix() + seq![upper_char(root@[0]), ':']);
        Ok(string_from_chars(&v))
    } else {
        let mut v = chars_of("invalid Windows drive root: ");
        let ghost head = v@;
        let mut i: usize = 0;
        while i < cs.len()
            invariant
                i <= cs@.len(),
                head == "invalid Windows drive root: "@,
                v@ == head + cs@.take(i as int),
            decreases cs@.len() - i,
        {
            v.push(cs[i]);
            i += 1;
            assert(v@ =~= head + cs@.take(i as int));
        }
        assert(cs@.take(i as int) =~= root@);
        Err(string_from_chars(&v))
    }
}

/// Which scanner a scan runs.
#[derive(Debug, Clone, Copy, PartialEq, Eq, Structural)]
pub enum ScanPlan {
    /// The recursive directory walk.
    Walk,
    /// The raw NTFS MFT reader, whose failure is the scan's failure.
    Ntfs,
    /// The raw NTFS MFT reader, falling back to the walk when it fails.
    NtfsThenWalk,
}

/// The scanner for `mode` on `root`: automatic mode reads the MFT of a
/// Windows drive root (walking when that fails) and walks anything else.
pub fn plan_scan(mode: ScanMode, root: &str, on_windows: bool) -> (r: ScanPlan)
    ensures
        mode == ScanMode::Walk ==> r == ScanPlan::Walk,
        mode == ScanMode::NtfsMft ==> r == ScanPlan::Ntfs,
        mode == ScanMode::Auto ==> r == (if on_windows && names_drive(trim(root@)) {
            ScanPlan::NtfsThenWalk
        } else {
            ScanPlan::Walk
        }),
{
    match mode {
        ScanMode::Walk => ScanPlan::Walk,
        ScanMode::NtfsMft => ScanPlan::Ntfs,
        ScanMode::Auto => {
            if on_windows && looks_like_windows_drive_root(root) {
                ScanPlan::NtfsThenWalk
            } else {
                ScanPlan::Walk
            }
        },
    }
}

/// The warning put first when the walk stands in for a failed MFT read.
pub open spec fn fallback_warning(reason: Seq<char>) -> Seq<char> {
    "NTFS MFT 快速模式不可用，已回退到兼容递归扫描。原因: "@ + reason
}

/// Puts the fallback warning for `reason` before the walk's own warnings.
pub fn add_fallback_warning(result: &mut ScanResult, reason: &str)
    ensures
        final(result).warnings@.len() == old(result).warnings@.len() + 1,
        final(result).warnings@[0]@ == fallback_warning(reason@),
        final(result).warnings@.skip(1) == old(result).warnings@,
        final(result).root == old(result).root,
        final(result).scanner == old(result).scanner,
        final(result).elapsed_ms == old(result).elapsed_ms,
        final(result).node_count == old(result).node_count,
        final(result).file_count == old(result).file_count,
        final(result).dir_count == old(result).dir_count,
        final(result).total_size == old(result).total_size,
        final(result).total_allocated == old(result).total_allocated,
        final(result).nodes == old(result).nodes,
{
    let mut v = chars_of("NTFS MFT 快速模式不可用，已回退到兼容递归扫描。原因: ");
    let ghost head = v@;
    let rs = chars_of(reason);
    let mut i: usize = 0;
    while i < rs.len()
        invariant
            i <= rs@.len(),
            head == "NTFS MFT 快速模式不可用，已回退到兼容递归扫描。原因: "@,
            v@ == head + rs@.take(i as int),
        decreases rs@.len() - i,
    {
        v.push(rs[i]);
        i += 1;
        assert(v@ =~= head + rs@.take(i as int));
    }
    assert(rs@.take(i as int) =~= reason@);
    let msg = string_from_chars(&v);
    result.warnings.insert(0, msg);
    assert(result.warnings@.skip(1) =~= old(result).warnings@);
}

} // verus!
