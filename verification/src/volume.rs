//! Disk volumes as listed to the user.
use vstd::prelude::*;
use crate::models::VolumeInfo;
use crate::text::{chars_of, decode_utf16_lossy, lower, lower_chars, string_from_chars, utf16_lossy};

verus! {

/// The cluster size assumed where the system reports none.
pub const DEFAULT_CLUSTER_SIZE: u64 = 4096;

/// The volumes of a system without drive letters: its root `/`, with the
/// capacity the file system reports for it.
pub fn list_volumes(total_bytes: u64, available_bytes: u64) -> (r: Vec<VolumeInfo>)
    ensures
        r@.len() == 1,
        r@[0].root@ == "/"@,
        r@[0].display_name@ == "/"@,
        r@[0].fs_name@ == Seq::<char>::empty(),
        r@[0].drive_type@ == "Root"@,
        r@[0].total_bytes == total_bytes,
        r@[0].available_bytes == available_bytes,
        r@[0].cluster_size == DEFAULT_CLUSTER_SIZE,
        !r@[0].ntfs_candidate,
{
    let mut r: Vec<VolumeInfo> = Vec::new();
    r.push(VolumeInfo {
        root: "/".to_owned(),
        display_name: "/".to_owned(),
        fs_name: String::new(),
        drive_type: "Root".to_owned(),
        total_bytes,
        available_bytes,
        cluster_size: DEFAULT_CLUSTER_SIZE,
        ntfs_candidate: false,
    });
    r
}

/// The cluster size of a volume whose geometry query gave `geometry`
/// (sectors per cluster, bytes per sector), or `None` where it failed:
/// their product where it is positive, else the default.
pub fn cluster_size_for_root(geometry: Option<(u32, u32)>) -> (r: u64)
    ensures
        r == (match geometry {
            Some((s, b)) if s * b > 0 => (s * b) as u64,
            _ => DEFAULT_CLUSTER_SIZE,
        }),
{
    match geometry {
        Some((s, b)) => {
            assert((s as u64) * (b as u64) <= u64::MAX) by (nonlinear_arith)
                requires s <= u32::MAX, b <= u32::MAX;
            let c = (s as u64) * (b as u64);
            if c > 0 { c } else { DEFAULT_CLUSTER_SIZE }
        },
        None => DEFAULT_CLUSTER_SIZE,
    }
}

/// The name of a Windows drive type code.
pub fn drive_type_name(raw: u32) -> (r: &'static str)
    ensures
        r@ == (if raw == 3 {
            "Fixed"@
        } else if raw == 2 {
            "Removable"@
        } else if raw == 4 {
            "Network"@
        } else if raw == 5 {
            "CdRom"@
        } else if raw == 6 {
            "RamDisk"@
        } else {
            "Unknown"@
        }),
{
    if raw == 3 {
        "Fixed"
    } else if raw == 2 {
        "Removable"
    } else if raw == 4 {
        "Network"
    } else if raw == 5 {
        "CdRom"
    } else if raw == 6 {
        "RamDisk"
    } else {
        "Unknown"
    }
}

/// The number of code units before the first NUL (all of them where there is none).
pub open spec fn nul_end(s: Seq<u16>) -> int
    decreases s.len(),
{
    if s.len() == 0 || s[0] == 0 { 0 } else { 1 + nul_end(s.drop_first()) }
}

proof fn lemma_nul_end_bounds(s: Seq<u16>)
    ensures
        0 <= nul_end(s) <= s.len(),
    decreases s.len(),
{
    if s.len() > 0 && s[0] != 0 {
        lemma_nul_end_bounds(s.drop_first());
    }
}

/// Decodes a NUL-terminated UTF-16 buffer: the code units before the first
/// NUL (all of them where there is none), invalid data replaced.
pub fn utf16z_to_string(buf: &[u16]) -> (r: String)
    ensures
        r@ == utf16_lossy(buf@.take(nul_end(buf@))),
{
    let mut i: usize = 0;
    assert(buf@.skip(0) =~= buf@);
    while i < buf.len() && buf[i] != 0
        invariant
            i <= buf@.len(),
            nul_end(buf@) == i + nul_end(buf@.skip(i as int)),
        decreases buf@.len() - i,
    {
        assert(buf@.skip(i as int).drop_first() =~= buf@.skip(i + 1));
        i += 1;
    }
    let mut units: Vec<u16> = Vec::new();
    let mut k: usize = 0;
    while k < i
        invariant
            k <= i <= buf@.len(),
            units@ == buf@.take(k as int),
        decreases i - k,
    {
        units.push(buf[k]);
        k += 1;
        assert(units@ =~= buf@.take(k as int));
    }
    decode_utf16_lossy(&units)
}

/// `s` without its trailing backslashes.
pub open spec fn trim_trailing_backslashes(s: Seq<char>) -> Seq<char>
    decreases s.len(),
{
    if s.len() > 0 && s.last() == '\\' { trim_trailing_backslashes(s.drop_last()) } else { s }
}

/// The name a drive is shown under: its root, or `label (X:)` where it has a label.
pub open spec fn volume_display_name(label: Seq<char>, root: Seq<char>) -> Seq<char> {
    if label.len() == 0 { root } else { label + " ("@ + trim_trailing_backslashes(root) + ")"@ }
}

fn push_all(v: &mut Vec<char>, s: &Vec<char>)
    ensures
        final(v)@ == old(v)@ + s@,
{
    let ghost start = v@;
    let mut i: usize = 0;
    while i < s.len()
        invariant
            i <= s@.len(),
            v@ == start + s@.take(i as int),
        decreases s@.len() - i,
    {
        v.push(s[i]);
        i += 1;
        assert(v@ =~= start + s@.take(i as int));
    }
    assert(s@.take(i as int) =~= s@);
}

fn display_name_of(label: &str, root: &str) -> (r: String)
    ensures
        r@ == volume_display_name(label@, root@),
{
    let lc = chars_of(label);
    if lc.len() == 0 {
        return root.to_owned();
    }
    let rc = chars_of(root);
    let mut end: usize = rc.len();
    assert(rc@.take(end as int) =~= rc@);
    while end > 0 && rc[end - 1] == '\\'
        invariant
            end <= rc@.len(),
            rc@ == root@,
            trim_trailing_backslashes(root@) == trim_trailing_backslashes(rc@.take(end as int)),
        decreases end,
    {
        assert(rc@.take(end as int).drop_last() =~= rc@.take(end - 1));
        end -= 1;
    }
    let ghost kept = rc@.take(end as int);
    assert(trim_trailing_backslashes(kept) == kept);
    let mut v: Vec<char> = Vec::new();
    push_all(&mut v, &lc);
    let open = chars_of(" (");
    push_all(&mut v, &open);
    let mut i: usize = 0;
    let ghost head = v@;
    while i < end
        invariant
            i <= end <= rc@.len(),
            kept == rc@.take(end as int),
            v@ == head + rc@.take(i as int),
        decreases end - i,
    {
        v.push(rc[i]);
        i += 1;
        assert(v@ =~= head + rc@.take(i as int));
    }
    assert(rc@.take(i as int) =~= kept);
    let close = chars_of(")");
    push_all(&mut v, &close);
    string_from_chars(&v)
}

/// Whether a file system name is `NTFS`, ignoring ASCII case.
pub open spec fn is_ntfs_name(fs: Seq<char>) -> bool {
    lower(fs) == "ntfs"@
}

fn is_ntfs_name_exec(fs: &str) -> (r: bool)
    ensures
        r == is_ntfs_name(fs@),
{
    let l = lower_chars(fs);
    let n = chars_of("ntfs");
    if l.len() != n.len() {
        return false;
    }
    let mut i: usize = 0;
    while i < l.len()
        invariant
            i <= l@.len(),
            l@.len() == n@.len(),
            l@ == lower(fs@),
            n@ == "ntfs"@,
            forall|j: int| 0 <= j < i ==> l@[j] == n@[j],
        decreases l@.len() - i,
    {
        if l[i] != n[i] {
            return false;
        }
        i += 1;
    }
    assert(l@ =~= n@);
    true
}

/// The label and file-system name buffers a volume-information query filled.
pub struct VolumeNames {
    pub label: Vec<u16>,
    pub fs_name: Vec<u16>,
}

/// The label a volume-information query reported, empty where it failed.
pub open spec fn label_text(names: Option<&VolumeNames>) -> Seq<char> {
    match names { Some(n) => utf16_lossy(n.label@.take(nul_end(n.label@))), None => Seq::empty() }
}

/// The file-system name a volume-information query reported, empty where it failed.
pub open spec fn fs_text(names: Option<&VolumeNames>) -> Seq<char> {
    match names { Some(n) => utf16_lossy(n.fs_name@.take(nul_end(n.fs_name@))), None => Seq::empty() }
}

/// Whether `v` is the entry of the drive root `root` with that drive type
/// code, sizes, label, file-system name and cluster size.
pub open spec fn volume_described(
    v: VolumeInfo, root: Seq<char>, drive_type_raw: u32, total_bytes: u64, available_bytes: u64,
    label: Seq<char>, fs: Seq<char>, cluster_size: u64,
) -> bool {
    &&& v.root@ == root
    &&& v.display_name@ == volume_display_name(label, root)
    &&& v.fs_name@ == fs
    &&& v.drive_type@ == drive_type_name_spec(drive_type_raw)
    &&& v.total_bytes == total_bytes
    &&& v.available_bytes == available_bytes
    &&& v.cluster_size == cluster_size
    &&& v.ntfs_candidate == is_ntfs_name(fs)
}

/// The entry for drive root `root` from what the system reports of it: none
/// for a drive type code of 0 (unknown) or 1 (no root directory); the label
/// and file-system name empty where the volume-information query failed.
pub fn describe_windows_volume(
    root: &str,
    drive_type_raw: u32,
    total_bytes: u64,
    available_bytes: u64,
    names: Option<&VolumeNames>,
    cluster_size: u64,
) -> (r: Option<VolumeInfo>)
    ensures
        (drive_type_raw == 0 || drive_type_raw == 1) <==> r is None,
        r matches Some(v) ==> volume_described(v, root@, drive_type_raw, total_bytes, available_bytes,
            label_text(names), fs_text(names), cluster_size),
{
    if drive_type_raw == 1 || drive_type_raw == 0 {
        return None;
    }
    let (label, fs_name) = match names {
        Some(n) => (utf16z_to_string(n.label.as_slice()), utf16z_to_string(n.fs_name.as_slice())),
        None => (String::new(), String::new()),
    };
    let drive_type = drive_type_name(drive_type_raw).to_owned();
    let ntfs_candidate = is_ntfs_name_exec(fs_name.as_str());
    let display_name = display_name_of(label.as_str(), root);
    Some(VolumeInfo {
        root: root.to_owned(),
        display_name,
        fs_name,
        drive_type,
        total_bytes,
        available_bytes,
        cluster_size,
        ntfs_candidate,
    })
}

/// The name [`drive_type_name`] gives a drive type code.
pub open spec fn drive_type_name_spec(raw: u32) -> Seq<char> {
    if raw == 3 {
        "Fixed"@
    } else if raw == 2 {
        "Removable"@
    } else if raw == 4 {
        "Network"@
    } else if raw == 5 {
        "CdRom"@
    } else if raw == 6 {
        "RamDisk"@
    } else {
        "Unknown"@
    }
}

/// The root `X:\` of the drive with letter `letter`.
pub fn drive_letter_root(letter: char) -> (r: String)
    ensures
        r@ == seq![letter, ':', '\\'],
{
    let mut v: Vec<char> = Vec::new();
    v.push(letter);
    v.push(':');
    v.push('\\');
    assert(v@ =~= seq![letter, ':', '\\']);
    string_from_chars(&v)
}

/// What the system reports of the drive with one letter: its drive type
/// code, total and available bytes, the names a volume-information query
/// filled (none where it failed), and its cluster size.
pub struct DriveReading {
    pub drive_type: u32,
    pub total_bytes: u64,
    pub available_bytes: u64,
    pub names: Option<VolumeNames>,
    pub cluster_size: u64,
}

/// The letter of drive `k`, counting from `A`.
pub open spec fn letter_of(k: int) -> char {
    (65 + k) as char
}

/// The drives among the first `k` readings that are listed: those whose
/// drive type code is neither 0 (unknown) nor 1 (no root directory).
pub open spec fn listed_drives(readings: Seq<DriveReading>, k: int) -> Seq<int>
    decreases k,
{
    if k <= 0 {
        seq![]
    } else {
        let prev = listed_drives(readings, k - 1);
        let t = readings[k - 1].drive_type;
        if t == 0 || t == 1 { prev } else { prev.push(k - 1) }
    }
}

/// The volumes of a Windows system from what it reports of the drives `A:`
/// to `Z:`, in letter order (see [`describe_windows_volume`]): one entry per
/// listed drive, rooted at its letter.
pub fn list_windows_volumes(readings: &Vec<DriveReading>) -> (r: Vec<VolumeInfo>)
    requires
        readings@.len() == 26,
    ensures
        r@.len() == listed_drives(readings@, 26).len(),
        forall|j: int| 0 <= j < r@.len() ==> {
            let k = #[trigger] listed_drives(readings@, 26)[j];
            let rd = readings@[k];
            volume_described(r@[j], seq![letter_of(k), ':', '\\'], rd.drive_type, rd.total_bytes,
                rd.available_bytes, label_text(match rd.names { Some(n) => Some(&n), None => None }),
                fs_text(match rd.names { Some(n) => Some(&n), None => None }), rd.cluster_size)
        },
{
    let mut r: Vec<VolumeInfo> = Vec::new();
    let mut k: usize = 0;
    while k < 26
        invariant
            k <= 26,
            readings@.len() == 26,
            r@.len() == listed_drives(readings@, k as int).len(),
            forall|j: int| 0 <= j < r@.len() ==> {
                let x = #[trigger] listed_drives(readings@, k as int)[j];
                let rd = readings@[x];
                0 <= x < k && volume_described(r@[j], seq![letter_of(x), ':', '\\'], rd.drive_type, rd.total_bytes,
                    rd.available_bytes, label_text(match rd.names { Some(n) => Some(&n), None => None }),
                    fs_text(match rd.names { Some(n) => Some(&n), None => None }), rd.cluster_size)
            },
        decreases 26 - k,
    {
        let rd = &readings[k];
        let letter = (65u8 + k as u8) as char;
        assert(letter == letter_of(k as int));
        let root = drive_letter_root(letter);
        let names = match &rd.names { Some(n) => Some(n), None => None };
        let v = describe_windows_volume(root.as_str(), rd.drive_type, rd.total_bytes, rd.available_bytes,
            names, rd.cluster_size);
        let ghost prev = listed_drives(readings@, k as int);
        match v {
            Some(v) => {
                let ghost before = r@;
                r.push(v);
                assert(listed_drives(readings@, k + 1) == prev.push(k as int));
                assert forall|j: int| 0 <= j < r@.len() implies {
                    let x = #[trigger] listed_drives(readings@, k + 1)[j];
                    let rd = readings@[x];
                    0 <= x < k + 1 && volume_described(r@[j], seq![letter_of(x), ':', '\\'], rd.drive_type, rd.total_bytes,
                        rd.available_bytes, label_text(match rd.names { Some(n) => Some(&n), None => None }),
                        fs_text(match rd.names { Some(n) => Some(&n), None => None }), rd.cluster_size)
                } by {
                    if j < before.len() {
                        assert(listed_drives(readings@, k + 1)[j] == prev[j]);
                        assert(r@[j] == before[j]);
                    }
                }
            },
            None => {
                assert(listed_drives(readings@, k + 1) == prev);
            },
        }
        k += 1;
    }
    r
}

} // verus!
