//! Error types of the library.
use vstd::prelude::*;
use crate::text::{chars_of, string_from_chars};

verus! {

/// Why a raw NTFS structure was rejected.
#[derive(Debug, Clone, Copy, PartialEq, Eq, Structural)]
pub enum NtfsError {
    /// The mapping-pairs array ran off the end of its buffer before the 0 terminator.
    MappingUnterminated,
    /// A mapping-pair header byte with a zero or oversized length field or an oversized offset field.
    MappingInvalidHeader(u8),
    /// The run length of a mapping pair does not fit in the buffer.
    MappingInvalidLength,
    /// The LCN delta of a mapping pair does not fit in the buffer.
    MappingInvalidDelta,
    /// Adding an LCN delta overflowed `i64`.
    LcnOverflow,
    /// The sector size is below 2 or larger than the FILE record.
    InvalidSectorSize,
    /// The record does not start with the `FILE` signature.
    NotFileRecord,
    /// The update sequence array offset cannot be read.
    InvalidUsaOffset,
    /// The update sequence array entry count cannot be read.
    InvalidUsaCount,
    /// The update sequence array is empty or extends past the record.
    InvalidUsaRange,
    /// The update sequence array has fewer entries than sectors plus one.
    UsaCountTooSmall,
    /// A sector trailer differs from the update sequence number.
    UpdateSequenceMismatch,
    /// The offset of the first attribute cannot be read.
    InvalidFirstAttributeOffset,
    /// An attribute is shorter than its header or extends past the record.
    CorruptedAttribute,
    /// The mapping-pairs offset of the $MFT data attribute cannot be read.
    InvalidMappingOffset,
    /// The allocated size of the $MFT data attribute cannot be read.
    InvalidAllocatedSize,
    /// The data size of the $MFT data attribute cannot be read.
    InvalidDataSize,
    /// The mapping pairs of the $MFT data attribute start past the attribute.
    MappingOutOfBounds,
    /// The $MFT data attribute has no data runs.
    NoDataRuns,
    /// No non-resident unnamed $DATA attribute was found in $MFT record 0.
    MftDataNotFound,
    /// The boot sector buffer is shorter than 512 bytes.
    BootSectorTooSmall,
    /// The boot sector does not carry the `NTFS    ` OEM id.
    NotNtfs,
    /// Zero bytes per sector or sectors per cluster.
    InvalidClusterGeometry,
    /// The clusters-per-FILE-record byte is zero.
    InvalidClustersPerRecord,
    /// The FILE record size overflows `u64`.
    RecordSizeOverflow,
    /// The FILE record size exponent is 64 or more.
    RecordSizeShiftOverflow,
    /// The FILE record size lies outside 512 bytes ..= 1 MiB.
    UnsupportedRecordSize(u64),
    /// A data run's disk offset overflows `u64`.
    RunOffsetOverflow,
    /// A data run of the $MFT starts past the end of the volume.
    RunOutsideVolume,
    /// The byte offset of $MFT record 0 overflows `u64`.
    MftOffsetOverflow,
}

/// Errors reported to the users of the analyser.
#[derive(Debug, Clone, PartialEq, Eq)]
pub enum AppError {
    Unsupported,
    NeedAdmin,
    Win(String),
    Ntfs(String),
    NotNtfs(String),
    Internal(String),
}


/// The character of the digit `d` (below 16), lowercase for 10 and above.
pub open spec fn digit_char(d: nat) -> char {
    if d < 10 { (48 + d) as char } else { (87 + d) as char }
}

/// The digits of `n` in base `b`, most significant first, without leading zeros.
pub open spec fn digits(n: nat, b: nat) -> Seq<char>
    decreases n,
{
    if b < 2 || n < b {
        seq![digit_char(n % 16)]
    } else {
        proof {
            assert(n / b < n) by (nonlinear_arith)
                requires b >= 2, n >= b;
        }
        digits(n / b, b).push(digit_char(n % b))
    }
}

fn digit_exec(d: u64) -> (c: char)
    requires
        d < 16,
    ensures
        c == digit_char(d as nat),
{
    if d < 10 { ((d as u8) + 48) as char } else { ((d as u8) + 87) as char }
}

pub(crate) fn push_digits(v: &mut Vec<char>, n: u64, b: u64)
    requires
        b == 10 || b == 16,
    ensures
        final(v)@ == old(v)@ + digits(n as nat, b as nat),
    decreases n,
{
    if n >= b {
        push_digits(v, n / b, b);
    }
    let ghost mid = v@;
    v.push(digit_exec(n % b));
    assert(n < b ==> n % 16 == n % b);
}

/// The decimal text of `n`, with a leading `-` when it is negative.
pub open spec fn signed_decimal(n: int) -> Seq<char> {
    if n < 0 { seq!['-'] + digits((-n) as nat, 10) } else { digits(n as nat, 10) }
}

/// Appends the decimal text of `n` (see [`signed_decimal`]).
pub(crate) fn push_signed_decimal(v: &mut Vec<char>, n: i64)
    ensures
        final(v)@ == old(v)@ + signed_decimal(n as int),
{
    if n < 0 {
        v.push('-');
        let m: u64 = if n == i64::MIN { 0x8000_0000_0000_0000u64 } else { (-n) as u64 };
        push_digits(v, m, 10);
        assert(v@ =~= old(v)@ + signed_decimal(n as int));
    } else {
        push_digits(v, n as u64, 10);
    }
}

pub(crate) fn push_text(v: &mut Vec<char>, s: &str)
    ensures
        final(v)@ == old(v)@ + s@,
{
    let cs = chars_of(s);
    let ghost start = v@;
    let mut i: usize = 0;
    while i < cs.len()
        invariant
            i <= cs@.len(),
            cs@ == s@,
            v@ == start + cs@.take(i as int),
        decreases cs@.len() - i,
    {
        v.push(cs[i]);
        i += 1;
        assert(v@ =~= start + cs@.take(i as int));
    }
    assert(cs@.take(i as int) =~= s@);
}

impl NtfsError {
    /// The text the error is reported with.
    pub open spec fn spec_message(self) -> Seq<char> {
        match self {
            NtfsError::MappingUnterminated => "unterminated NTFS mapping pairs"@,
            NtfsError::MappingInvalidHeader(h) => "invalid NTFS mapping pair header: 0x"@ + digits(h as nat, 16),
            NtfsError::MappingInvalidLength => "invalid mapping pair length"@,
            NtfsError::MappingInvalidDelta => "invalid mapping pair LCN delta"@,
            NtfsError::LcnOverflow => "LCN overflow"@,
            NtfsError::InvalidSectorSize => "invalid sector size for FILE record"@,
            NtfsError::NotFileRecord => "not an NTFS FILE record"@,
            NtfsError::InvalidUsaOffset => "invalid USA offset"@,
            NtfsError::InvalidUsaCount => "invalid USA count"@,
            NtfsError::InvalidUsaRange => "invalid USA range"@,
            NtfsError::UsaCountTooSmall => "USA count smaller than sector count"@,
            NtfsError::UpdateSequenceMismatch => "FILE record update sequence mismatch"@,
            NtfsError::InvalidFirstAttributeOffset => "invalid first attribute offset"@,
            NtfsError::CorruptedAttribute => "corrupted MFT attribute"@,
            NtfsError::InvalidMappingOffset => "invalid mapping pairs offset"@,
            NtfsError::InvalidAllocatedSize => "invalid MFT allocated size"@,
            NtfsError::InvalidDataSize => "invalid MFT data size"@,
            NtfsError::MappingOutOfBounds => "mapping pairs out of bounds"@,
            NtfsError::NoDataRuns => "MFT DATA attribute has no data runs"@,
            NtfsError::MftDataNotFound => "未找到 $MFT 的非驻留 unnamed $DATA 属性"@,
            NtfsError::BootSectorTooSmall => "boot sector buffer too small"@,
            NtfsError::NotNtfs => "目标卷不是 NTFS 文件系统"@,
            NtfsError::InvalidClusterGeometry => "invalid NTFS cluster geometry"@,
            NtfsError::InvalidClustersPerRecord => "invalid clusters per file record"@,
            NtfsError::RecordSizeOverflow => "file record size overflow"@,
            NtfsError::RecordSizeShiftOverflow => "file record size shift overflow"@,
            NtfsError::UnsupportedRecordSize(n) => "unsupported NTFS FILE record size: "@ + digits(n as nat, 10),
            NtfsError::RunOffsetOverflow => "MFT data run disk offset overflow"@,
            NtfsError::RunOutsideVolume => "MFT data run starts past the end of the volume"@,
            NtfsError::MftOffsetOverflow => "MFT offset overflow"@,
        }
    }

    /// The text the error is reported with.
    pub fn message(&self) -> (r: String)
        ensures
            r@ == self.spec_message(),
    {
        let mut v: Vec<char> = Vec::new();
        match self {
            NtfsError::MappingUnterminated => push_text(&mut v, "unterminated NTFS mapping pairs"),
            NtfsError::MappingInvalidHeader(h) => {
                push_text(&mut v, "invalid NTFS mapping pair header: 0x");
                push_digits(&mut v, *h as u64, 16);
            },
            NtfsError::MappingInvalidLength => push_text(&mut v, "invalid mapping pair length"),
            NtfsError::MappingInvalidDelta => push_text(&mut v, "invalid mapping pair LCN delta"),
            NtfsError::LcnOverflow => push_text(&mut v, "LCN overflow"),
            NtfsError::InvalidSectorSize => push_text(&mut v, "invalid sector size for FILE record"),
            NtfsError::NotFileRecord => push_text(&mut v, "not an NTFS FILE record"),
            NtfsError::InvalidUsaOffset => push_text(&mut v, "invalid USA offset"),
            NtfsError::InvalidUsaCount => push_text(&mut v, "invalid USA count"),
            NtfsError::InvalidUsaRange => push_text(&mut v, "invalid USA range"),
            NtfsError::UsaCountTooSmall => push_text(&mut v, "USA count smaller than sector count"),
            NtfsError::UpdateSequenceMismatch => push_text(&mut v, "FILE record update sequence mismatch"),
            NtfsError::InvalidFirstAttributeOffset => push_text(&mut v, "invalid first attribute offset"),
            NtfsError::CorruptedAttribute => push_text(&mut v, "corrupted MFT attribute"),
            NtfsError::InvalidMappingOffset => push_text(&mut v, "invalid mapping pairs offset"),
            NtfsError::InvalidAllocatedSize => push_text(&mut v, "invalid MFT allocated size"),
            NtfsError::InvalidDataSize => push_text(&mut v, "invalid MFT data size"),
            NtfsError::MappingOutOfBounds => push_text(&mut v, "mapping pairs out of bounds"),
            NtfsError::NoDataRuns => push_text(&mut v, "MFT DATA attribute has no data runs"),
            NtfsError::MftDataNotFound => push_text(&mut v, "未找到 $MFT 的非驻留 unnamed $DATA 属性"),
            NtfsError::BootSectorTooSmall => push_text(&mut v, "boot sector buffer too small"),
            NtfsError::NotNtfs => push_text(&mut v, "目标卷不是 NTFS 文件系统"),
            NtfsError::InvalidClusterGeometry => push_text(&mut v, "invalid NTFS cluster geometry"),
            NtfsError::InvalidClustersPerRecord => push_text(&mut v, "invalid clusters per file record"),
            NtfsError::RecordSizeOverflow => push_text(&mut v, "file record size overflow"),
            NtfsError::RecordSizeShiftOverflow => push_text(&mut v, "file record size shift overflow"),
            NtfsError::UnsupportedRecordSize(n) => {
                push_text(&mut v, "unsupported NTFS FILE record size: ");
                push_digits(&mut v, *n, 10);
            },
            NtfsError::RunOffsetOverflow => push_text(&mut v, "MFT data run disk offset overflow"),
            NtfsError::RunOutsideVolume => push_text(&mut v, "MFT data run starts past the end of the volume"),
            NtfsError::MftOffsetOverflow => push_text(&mut v, "MFT offset overflow"),
        }
        string_from_chars(&v)
    }
}

impl AppError {
    /// The text the error is reported with.
    pub open spec fn spec_message(self) -> Seq<char> {
        match self {
            AppError::Unsupported => "此功能仅支持 Windows 平台"@,
            AppError::NeedAdmin => "需要管理员权限才能读取卷 MFT"@,
            AppError::Win(s) => "Windows API 错误: "@ + s@,
            AppError::Ntfs(s) => "NTFS 解析错误: "@ + s@,
            AppError::NotNtfs(s) => "卷 "@ + s@ + " 不是 NTFS 文件系统"@,
            AppError::Internal(s) => "内部错误: "@ + s@,
        }
    }

    /// The text the error is reported with.
    pub fn message(&self) -> (r: String)
        ensures
            r@ == self.spec_message(),
    {
        let mut v: Vec<char> = Vec::new();
        match self {
            AppError::Unsupported => push_text(&mut v, "此功能仅支持 Windows 平台"),
            AppError::NeedAdmin => push_text(&mut v, "需要管理员权限才能读取卷 MFT"),
            AppError::Win(s) => {
                push_text(&mut v, "Windows API 错误: ");
                push_text(&mut v, s.as_str());
            },
            AppError::Ntfs(s) => {
                push_text(&mut v, "NTFS 解析错误: ");
                push_text(&mut v, s.as_str());
            },
            AppError::NotNtfs(s) => {
                push_text(&mut v, "卷 ");
                push_text(&mut v, s.as_str());
                push_text(&mut v, " 不是 NTFS 文件系统");
            },
            AppError::Internal(s) => {
                push_text(&mut v, "内部错误: ");
                push_text(&mut v, s.as_str());
            },
        }
        string_from_chars(&v)
    }
}

} // verus!
