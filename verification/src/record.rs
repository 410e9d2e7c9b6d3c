//! NTFS FILE records: update sequence fix-ups, the $MFT data stream, and the
//! name, sizes and times of user files.
use vstd::prelude::*;
use vstd::slice::slice_subrange;
use vstd::utf8::encode_utf8;
use crate::bytes::{le16, le32, le64, in_bounds, spec_read_u16, spec_read_u32, spec_read_u64,
    read_u16, read_u32, read_u64, lemma_le16_bound, lemma_le32_bound, lemma_le64_bound};
use crate::error::NtfsError;
use crate::runs::{DataRun, parse_mapping_pairs, spec_mapping_pairs};
use crate::text::{lower, lex_less, lower_chars, lex_less_exec, is_dot, utf16_lossy, decode_utf16_lossy};

verus! {

pub const ATTR_TYPE_FILE_NAME: u32 = 0x30;
pub const ATTR_TYPE_DATA: u32 = 0x80;
pub const ATTR_TYPE_END: u32 = 0xffff_ffff;
/// File reference numbers keep their low 48 bits; the rest is a sequence number.
pub const FRN_MODULUS: u64 = 0x1_0000_0000_0000;

/// The location and sizes of the $MFT data stream.
#[derive(Debug, Clone)]
pub struct MftStream {
    pub runs: Vec<DataRun>,
    pub allocated_size: u64,
    pub data_size: u64,
}

/// The mathematical content of an [`MftStream`].
pub struct MftStreamView {
    pub runs: Seq<DataRun>,
    pub allocated_size: u64,
    pub data_size: u64,
}

impl View for MftStream {
    type V = MftStreamView;

    open spec fn view(&self) -> MftStreamView {
        MftStreamView { runs: self.runs@, allocated_size: self.allocated_size, data_size: self.data_size }
    }
}

/// A user file or directory read from its base FILE record.
#[derive(Debug, Clone)]
pub struct ParsedRecord {
    pub record_number: u64,
    pub parent_record: u64,
    pub name: String,
    pub is_dir: bool,
    pub size: u64,
    pub allocated: u64,
    pub created: i64,
    pub modified: i64,
    pub accessed: i64,
}

/// The mathematical content of a [`ParsedRecord`].
pub struct ParsedRecordView {
    pub record_number: u64,
    pub parent_record: u64,
    pub name: Seq<char>,
    pub is_dir: bool,
    pub size: u64,
    pub allocated: u64,
    pub created: i64,
    pub modified: i64,
    pub accessed: i64,
}

impl View for ParsedRecord {
    type V = ParsedRecordView;

    open spec fn view(&self) -> ParsedRecordView {
        ParsedRecordView {
            record_number: self.record_number,
            parent_record: self.parent_record,
            name: self.name@,
            is_dir: self.is_dir,
            size: self.size,
            allocated: self.allocated,
            created: self.created,
            modified: self.modified,
            accessed: self.accessed,
        }
    }
}

/// One $FILE_NAME attribute of a record.
#[derive(Debug, Clone)]
pub struct NameCandidate {
    pub parent_record: u64,
    pub namespace: u8,
    pub name: String,
    pub created: i64,
    pub modified: i64,
    pub accessed: i64,
}

pub struct NameView {
    pub parent_record: u64,
    pub namespace: u8,
    pub name: Seq<char>,
    pub created: i64,
    pub modified: i64,
    pub accessed: i64,
}

impl View for NameCandidate {
    type V = NameView;

    open spec fn view(&self) -> NameView {
        NameView {
            parent_record: self.parent_record,
            namespace: self.namespace,
            name: self.name@,
            created: self.created,
            modified: self.modified,
            accessed: self.accessed,
        }
    }
}

// ---------------------------------------------------------------------------
// Update sequence array

/// Whether the record starts with the `FILE` signature.
pub open spec fn has_file_magic(rec: Seq<u8>) -> bool {
    rec.len() >= 4 && rec[0] == 0x46 && rec[1] == 0x49 && rec[2] == 0x4c && rec[3] == 0x45
}

/// Sector-by-sector fix-up of sectors `k..n`: each sector's last two bytes must
/// equal the update sequence number `usn`, and are replaced by the sector's
/// entry of the update sequence array at `usa_off`. Returns the record as it
/// stands when the pass ends and whether every trailer matched.
pub open spec fn usa_pass(rec: Seq<u8>, bps: int, usa_off: int, usn: int, k: int, n: int) -> (Seq<u8>, bool)
    decreases n - k,
{
    if k >= n {
        (rec, true)
    } else {
        let t = (k + 1) * bps - 2;
        if le16(rec, t) != usn {
            (rec, false)
        } else {
            let f = usa_off + 2 * (k + 1);
            usa_pass(rec.update(t, rec[f]).update(t + 1, rec[f + 1]), bps, usa_off, usn, k + 1, n)
        }
    }
}

/// The record after applying its update sequence array, and whether that succeeded.
pub open spec fn spec_apply_usa(rec: Seq<u8>, bps: int) -> (Seq<u8>, Result<(), NtfsError>) {
    if bps < 2 || rec.len() < bps {
        (rec, Err(NtfsError::InvalidSectorSize))
    } else if !has_file_magic(rec) {
        (rec, Err(NtfsError::NotFileRecord))
    } else if !in_bounds(rec, 4, 2) {
        (rec, Err(NtfsError::InvalidUsaOffset))
    } else if !in_bounds(rec, 6, 2) {
        (rec, Err(NtfsError::InvalidUsaCount))
    } else {
        let uo = le16(rec, 4);
        let uc = le16(rec, 6);
        let n = (rec.len() as int) / bps;
        if uc == 0 || uo + uc * 2 > rec.len() {
            (rec, Err(NtfsError::InvalidUsaRange))
        } else if uc < n + 1 {
            (rec, Err(NtfsError::UsaCountTooSmall))
        } else {
            let (r, ok) = usa_pass(rec, bps, uo, le16(rec, uo), 0, n);
            (r, if ok { Ok(()) } else { Err(NtfsError::UpdateSequenceMismatch) })
        }
    }
}

proof fn lemma_sector_end(i: int, n: int, bps: int)
    requires
        0 <= i < n,
        bps >= 2,
    ensures
        bps <= (i + 1) * bps <= n * bps,
{
    assert((i + 1) * bps <= n * bps) by (nonlinear_arith)
        requires i + 1 <= n, bps >= 0;
    assert((i + 1) * bps >= bps) by (nonlinear_arith)
        requires i + 1 >= 1, bps >= 0;
}

fn has_file_magic_exec(record: &[u8]) -> (r: bool)
    ensures
        r == has_file_magic(record@),
{
    record.len() >= 4 && record[0] == 0x46 && record[1] == 0x49 && record[2] == 0x4c && record[3] == 0x45
}

fn apply_update_sequence_array(record: &mut [u8], bytes_per_sector: usize) -> (res: Result<(), NtfsError>)
    ensures
        (final(record)@, res) == spec_apply_usa(old(record)@, bytes_per_sector as int),
        final(record)@.len() == old(record)@.len(),
{
    if bytes_per_sector < 2 || record.len() < bytes_per_sector {
        return Err(NtfsError::InvalidSectorSize);
    }
    if !has_file_magic_exec(record) {
        return Err(NtfsError::NotFileRecord);
    }
    let usa_offset = match read_u16(record, 4) {
        Some(v) => v as usize,
        None => return Err(NtfsError::InvalidUsaOffset),
    };
    let usa_count = match read_u16(record, 6) {
        Some(v) => v as usize,
        None => return Err(NtfsError::InvalidUsaCount),
    };
    proof {
        lemma_le16_bound(record@, 4);
        lemma_le16_bound(record@, 6);
    }
    if usa_count == 0 || usa_offset + usa_count * 2 > record.len() {
        return Err(NtfsError::InvalidUsaRange);
    }
    let sector_count = record.len() / bytes_per_sector;
    if usa_count <= sector_count {
        return Err(NtfsError::UsaCountTooSmall);
    }
    let usn = read_u16(record, usa_offset).unwrap();
    let ghost orig = record@;
    let ghost bps = bytes_per_sector as int;
    proof {
        let len = record@.len() as int;
        assert(sector_count * bps <= len) by (nonlinear_arith)
            requires sector_count == len / bps, bps > 0, len >= 0;
    }
    let mut i: usize = 0;
    while i < sector_count
        invariant
            bytes_per_sector >= 2,
            bps == bytes_per_sector as int,
            orig == old(record)@,
            record@.len() == orig.len(),
            sector_count * bps <= record.len(),
            usa_offset + usa_count * 2 <= record@.len(),
            usa_count >= sector_count + 1,
            i <= sector_count,
            spec_apply_usa(orig, bps) == ({
                let (r, ok) = usa_pass(record@, bps, usa_offset as int, usn as int, i as int, sector_count as int);
                (r, if ok { Ok(()) } else { Err(NtfsError::UpdateSequenceMismatch) })
            }),
        decreases sector_count - i,
    {
        proof { lemma_sector_end(i as int, sector_count as int, bps); }
        let trailer_offset = (i + 1) * bytes_per_sector - 2;
        let actual = read_u16(record, trailer_offset).unwrap();
        proof { lemma_le16_bound(record@, trailer_offset as int); }
        if actual != usn {
            assert(le16(record@, (i + 1) * bps - 2) != usn as int);
            assert(usa_pass(record@, bps, usa_offset as int, usn as int, i as int, sector_count as int).1 == false);
            return Err(NtfsError::UpdateSequenceMismatch);
        }
        let fixup_offset = usa_offset + 2 * (i + 1);
        let b0 = record[fixup_offset];
        let b1 = record[fixup_offset + 1];
        record[trailer_offset] = b0;
        record[trailer_offset + 1] = b1;
        i += 1;
    }
    Ok(())
}

// ---------------------------------------------------------------------------
// The $MFT data stream

/// The data stream described by a non-resident unnamed $DATA attribute `attr`.
pub open spec fn spec_mft_data(attr: Seq<u8>) -> Result<MftStreamView, NtfsError> {
    match spec_read_u16(attr, 32) {
        None => Err(NtfsError::InvalidMappingOffset),
        Some(mo) => match spec_read_u64(attr, 40) {
            None => Err(NtfsError::InvalidAllocatedSize),
            Some(al) => match spec_read_u64(attr, 48) {
                None => Err(NtfsError::InvalidDataSize),
                Some(ds) => if mo > attr.len() {
                    Err(NtfsError::MappingOutOfBounds)
                } else {
                    match spec_mapping_pairs(attr.subrange(mo as int, attr.len() as int)) {
                        Err(e) => Err(e),
                        Ok(runs) => if runs.len() == 0 {
                            Err(NtfsError::NoDataRuns)
                        } else {
                            Ok(MftStreamView { runs, allocated_size: al, data_size: ds })
                        },
                    }
                },
            },
        },
    }
}

/// The first attribute from `off` on that is a non-resident unnamed $DATA
/// attribute, walking attribute by attribute up to the end marker.
pub open spec fn spec_mft_attrs(rec: Seq<u8>, off: int) -> Result<MftStreamView, NtfsError>
    decreases rec.len() - off,
{
    if off < 0 || off + 16 > rec.len() {
        Err(NtfsError::MftDataNotFound)
    } else if le32(rec, off) == 0xffff_ffff {
        Err(NtfsError::MftDataNotFound)
    } else {
        let alen = le32(rec, off + 4);
        if alen < 16 || off + alen > rec.len() {
            Err(NtfsError::CorruptedAttribute)
        } else {
            let attr = rec.subrange(off, off + alen);
            if le32(rec, off) == 0x80 && attr[8] == 1 && attr[9] == 0 {
                spec_mft_data(attr)
            } else {
                spec_mft_attrs(rec, off + alen)
            }
        }
    }
}

/// Parse of $MFT record 0 after its fix-ups are applied: the record and the stream.
pub open spec fn spec_parse_mft_stream(rec: Seq<u8>, bps: int) -> (Seq<u8>, Result<MftStreamView, NtfsError>) {
    let (r, u) = spec_apply_usa(rec, bps);
    (r, match u {
        Err(e) => Err(e),
        Ok(_) => match spec_read_u16(r, 20) {
            None => Err(NtfsError::InvalidFirstAttributeOffset),
            Some(first) => spec_mft_attrs(r, first as int),
        },
    })
}

/// Whether an executable result carries the same content as a spec result.
pub open spec fn same_mft_result(res: Result<MftStream, NtfsError>, s: Result<MftStreamView, NtfsError>) -> bool {
    match res {
        Ok(m) => s == Ok::<MftStreamView, NtfsError>(m@),
        Err(e) => s == Err::<MftStreamView, NtfsError>(e),
    }
}

fn mft_data_attribute(attr: &[u8]) -> (res: Result<MftStream, NtfsError>)
    ensures
        same_mft_result(res, spec_mft_data(attr@)),
{
    let mapping_offset = match read_u16(attr, 32) {
        Some(v) => v as usize,
        None => return Err(NtfsError::InvalidMappingOffset),
    };
    let allocated_size = match read_u64(attr, 40) {
        Some(v) => v,
        None => return Err(NtfsError::InvalidAllocatedSize),
    };
    let data_size = match read_u64(attr, 48) {
        Some(v) => v,
        None => return Err(NtfsError::InvalidDataSize),
    };
    proof { lemma_le16_bound(attr@, 32); }
    if mapping_offset > attr.len() {
        return Err(NtfsError::MappingOutOfBounds);
    }
    let mapping_pairs = slice_subrange(attr, mapping_offset, attr.len());
    let runs = match parse_mapping_pairs(mapping_pairs) {
        Ok(r) => r,
        Err(e) => return Err(e),
    };
    if runs.len() == 0 {
        return Err(NtfsError::NoDataRuns);
    }
    Ok(MftStream { runs, allocated_size, data_size })
}

fn find_mft_data(record: &[u8]) -> (res: Result<MftStream, NtfsError>)
    ensures
        same_mft_result(res, match spec_read_u16(record@, 20) {
            None => Err(NtfsError::InvalidFirstAttributeOffset),
            Some(first) => spec_mft_attrs(record@, first as int),
        }),
{
    let first = match read_u16(record, 20) {
        Some(v) => v as usize,
        None => return Err(NtfsError::InvalidFirstAttributeOffset),
    };
    proof { lemma_le16_bound(record@, 20); }
    let mut offset = first;
    while offset <= record.len() && record.len() - offset >= 16
        invariant
            spec_read_u16(record@, 20) == Some(first as u16),
            first < 0x1_0000,
            spec_mft_attrs(record@, first as int) == spec_mft_attrs(record@, offset as int),
        decreases record@.len() - offset,
    {
        let attr_type = read_u32(record, offset).unwrap();
        proof { lemma_le32_bound(record@, offset as int); }
        if attr_type == ATTR_TYPE_END {
            return Err(NtfsError::MftDataNotFound);
        }
        let attr_len = read_u32(record, offset + 4).unwrap() as usize;
        proof { lemma_le32_bound(record@, offset + 4); }
        if attr_len < 16 || attr_len > record.len() - offset {
            return Err(NtfsError::CorruptedAttribute);
        }
        let attr = slice_subrange(record, offset, offset + attr_len);
        if attr_type == ATTR_TYPE_DATA && attr[8] == 1 && attr[9] == 0 {
            return mft_data_attribute(attr);
        }
        offset += attr_len;
    }
    Err(NtfsError::MftDataNotFound)
}

/// Reads the location of the $MFT data stream from $MFT record 0: applies the
/// record's update sequence array (in place), then returns the first
/// non-resident unnamed $DATA attribute's runs and sizes.
pub fn parse_mft_stream(record: &mut [u8], bytes_per_sector: usize) -> (res: Result<MftStream, NtfsError>)
    ensures
        final(record)@ == spec_parse_mft_stream(old(record)@, bytes_per_sector as int).0,
        same_mft_result(res, spec_parse_mft_stream(old(record)@, bytes_per_sector as int).1),
{
    match apply_update_sequence_array(record, bytes_per_sector) {
        Err(e) => return Err(e),
        Ok(()) => {},
    }
    find_mft_data(record)
}


// ---------------------------------------------------------------------------
// User file records

/// Unix seconds for an NTFS timestamp (100 ns ticks since 1601); 0 stays 0.
pub open spec fn ntfs_time(t: int) -> i64 {
    if t == 0 { 0 } else { (t / 10_000_000 - 11_644_473_600) as i64 }
}

/// `u64` addition that stops at `u64::MAX`.
pub open spec fn sat_add(a: u64, b: int) -> u64 {
    if a + b > u64::MAX { u64::MAX } else { (a + b) as u64 }
}

/// The `n` UTF-16 code units stored little-endian in `b`.
pub open spec fn utf16_units(b: Seq<u8>, n: int) -> Seq<u16> {
    Seq::new(n as nat, |i: int| le16(b, 2 * i) as u16)
}

/// The name candidate carried by a $FILE_NAME attribute, if it is resident and
/// well formed and its name is not empty.
pub open spec fn spec_file_name(attr: Seq<u8>) -> Option<NameView> {
    if attr.len() <= 8 || attr[8] != 0 {
        None
    } else {
        match spec_read_u32(attr, 16) {
            None => None,
            Some(vl) => match spec_read_u16(attr, 20) {
                None => None,
                Some(vo) => if vo + vl > attr.len() {
                    None
                } else {
                    let v = attr.subrange(vo as int, vo + vl);
                    if v.len() < 66 {
                        None
                    } else {
                        let nl = v[64] as int;
                        if 66 + 2 * nl > v.len() {
                            None
                        } else {
                            let name = utf16_lossy(utf16_units(v.subrange(66, 66 + 2 * nl), nl));
                            if name.len() == 0 {
                                None
                            } else {
                                Some(NameView {
                                    parent_record: (le64(v, 0) % (FRN_MODULUS as int)) as u64,
                                    namespace: v[65],
                                    name,
                                    created: ntfs_time(le64(v, 8)),
                                    modified: ntfs_time(le64(v, 16)),
                                    accessed: ntfs_time(le64(v, 32)),
                                })
                            }
                        }
                    }
                },
            },
        }
    }
}

pub open spec fn u64_or_zero(r: Option<u64>) -> u64 {
    match r { Some(v) => v, None => 0 }
}

/// The logical and allocated sizes after counting the $DATA attribute `attr`:
/// a resident value adds its length to the size; the first extent of a
/// non-resident stream adds its data size and, when compressed or sparse with a
/// nonzero compressed size, that size, else its allocated size.
pub open spec fn data_attr_sizes(attr: Seq<u8>, size: u64, allocated: u64) -> (u64, u64) {
    let non_resident = attr.len() > 8 && attr[8] != 0;
    if !non_resident {
        match spec_read_u32(attr, 16) {
            Some(v) => (sat_add(size, v as int), allocated),
            None => (size, allocated),
        }
    } else if u64_or_zero(spec_read_u64(attr, 16)) != 0 {
        (size, allocated)
    } else {
        let flags = match spec_read_u16(attr, 12) { Some(f) => f, None => 0 };
        let alloc_size = u64_or_zero(spec_read_u64(attr, 40));
        let data_size = u64_or_zero(spec_read_u64(attr, 48));
        let compressed = u64_or_zero(spec_read_u64(attr, 64));
        let physical = if (flags % 2 == 1 || flags >= 0x8000) && compressed > 0 { compressed } else { alloc_size };
        (sat_add(size, data_size as int), sat_add(allocated, physical as int))
    }
}

/// The names, size and allocated size gathered from the attributes from `off` on.
pub open spec fn user_attrs(rec: Seq<u8>, off: int, names: Seq<NameView>, size: u64, allocated: u64)
    -> (Seq<NameView>, u64, u64)
    decreases rec.len() - off,
{
    if off < 0 || off + 16 > rec.len() || le32(rec, off) == 0xffff_ffff {
        (names, size, allocated)
    } else {
        let alen = le32(rec, off + 4);
        if alen < 16 || off + alen > rec.len() {
            (names, size, allocated)
        } else {
            let attr = rec.subrange(off, off + alen);
            if le32(rec, off) == 0x30 {
                let next = match spec_file_name(attr) { Some(c) => names.push(c), None => names };
                user_attrs(rec, off + alen, next, size, allocated)
            } else if le32(rec, off) == 0x80 {
                let (s2, a2) = data_attr_sizes(attr, size, allocated);
                user_attrs(rec, off + alen, names, s2, a2)
            } else {
                user_attrs(rec, off + alen, names, size, allocated)
            }
        }
    }
}

/// Preference of a file-name namespace: Win32 names first, then POSIX, then DOS.
pub open spec fn rank(namespace: u8) -> int {
    if namespace == 1 || namespace == 3 { 0 } else if namespace == 0 { 1 } else if namespace == 2 { 2 } else { 3 }
}

/// UTF-8 length of a name in bytes.
pub open spec fn byte_len(name: Seq<char>) -> usize {
    encode_utf8(name).len() as usize
}

/// Whether `a` is preferred over `b`: by namespace, then shorter UTF-8 length,
/// then lowercase name.
pub open spec fn name_key_less(a: NameView, b: NameView) -> bool {
    rank(a.namespace) < rank(b.namespace) || (rank(a.namespace) == rank(b.namespace) && (
        byte_len(a.name) < byte_len(b.name) || (byte_len(a.name) == byte_len(b.name)
            && lex_less(lower(a.name), lower(b.name)))))
}

/// Index of the first most preferred name.
pub open spec fn best_index(s: Seq<NameView>) -> int
    decreases s.len(),
{
    if s.len() <= 1 {
        0
    } else {
        let b = best_index(s.drop_last());
        if name_key_less(s.last(), s[b]) { s.len() - 1 } else { b }
    }
}

pub proof fn lemma_best_index_range(s: Seq<NameView>)
    requires s.len() > 0,
    ensures 0 <= best_index(s) < s.len(),
    decreases s.len(),
{
    if s.len() > 1 {
        lemma_best_index_range(s.drop_last());
    }
}

/// The record that a fixed-up base FILE record `r` describes, if it is in use,
/// is a base record, has a name and is not the `.` entry.
#[verifier::opaque]
pub open spec fn spec_user_after_usa(record_number: u64, r: Seq<u8>) -> Option<ParsedRecordView> {
    let flags = le16(r, 22);
    if flags % 2 == 0 {
        None
    } else if le64(r, 32) % (FRN_MODULUS as int) != 0 {
        None
    } else {
        let (names, size, allocated) = user_attrs(r, le16(r, 20), seq![], 0, 0);
        if names.len() == 0 {
            None
        } else {
            let c = names[best_index(names)];
            if c.name == seq!['.'] {
                None
            } else {
                Some(ParsedRecordView {
                    record_number,
                    parent_record: c.parent_record,
                    name: c.name,
                    is_dir: (flags / 2) % 2 == 1,
                    size,
                    allocated,
                    created: c.created,
                    modified: c.modified,
                    accessed: c.accessed,
                })
            }
        }
    }
}

/// The record buffer after parsing, and the parsed user record.
pub open spec fn spec_parse_user(record_number: u64, rec: Seq<u8>, bps: int) -> (Seq<u8>, Option<ParsedRecordView>) {
    if rec.len() < 48 || !has_file_magic(rec) {
        (rec, None)
    } else {
        let (r, u) = spec_apply_usa(rec, bps);
        if u is Err {
            (r, None)
        } else {
            (r, spec_user_after_usa(record_number, r))
        }
    }
}

pub open spec fn name_views(names: Seq<NameCandidate>) -> Seq<NameView> {
    names.map_values(|c: NameCandidate| c@)
}

/// Unix seconds for an NTFS timestamp.
pub fn ntfs_time_to_unix(ntfs_time: u64) -> (r: i64)
    ensures
        r == self::ntfs_time(ntfs_time as int),
{
    if ntfs_time == 0 {
        return 0;
    }
    (ntfs_time / 10000 / 1000) as i64 - 11644473600i64
}

fn parse_file_name_attribute(attr: &[u8]) -> (r: Option<NameCandidate>)
    ensures
        match r {
            Some(c) => spec_file_name(attr@) == Some(c@),
            None => spec_file_name(attr@) is None,
        },
{
    if attr.len() <= 8 || attr[8] != 0 {
        return None;
    }
    let value_len = match read_u32(attr, 16) {
        Some(v) => v as usize,
        None => return None,
    };
    let value_offset = match read_u16(attr, 20) {
        Some(v) => v as usize,
        None => return None,
    };
    proof {
        lemma_le32_bound(attr@, 16);
        lemma_le16_bound(attr@, 20);
    }
    if value_offset > attr.len() || value_len > attr.len() - value_offset {
        return None;
    }
    let value = slice_subrange(attr, value_offset, value_offset + value_len);
    if value.len() < 66 {
        return None;
    }
    let parent_record = read_u64(value, 0).unwrap() % FRN_MODULUS;
    let created = ntfs_time_to_unix(read_u64(value, 8).unwrap());
    let modified = ntfs_time_to_unix(read_u64(value, 16).unwrap());
    let accessed = ntfs_time_to_unix(read_u64(value, 32).unwrap());
    proof {
        lemma_le64_bound(value@, 0);
        lemma_le64_bound(value@, 8);
        lemma_le64_bound(value@, 16);
        lemma_le64_bound(value@, 32);
    }
    let name_len = value[64] as usize;
    let namespace = value[65];
    if 2 * name_len > value.len() - 66 {
        return None;
    }
    let name_bytes = slice_subrange(value, 66, 66 + 2 * name_len);
    let mut utf16: Vec<u16> = Vec::new();
    let mut k: usize = 0;
    while k < name_len
        invariant
            k <= name_len <= 255,
            name_bytes@.len() == 2 * name_len,
            utf16@ == utf16_units(name_bytes@, name_len as int).take(k as int),
        decreases name_len - k,
    {
        let unit = read_u16(name_bytes, 2 * k).unwrap();
        proof { lemma_le16_bound(name_bytes@, 2 * k); }
        utf16.push(unit);
        k += 1;
        assert(utf16@ =~= utf16_units(name_bytes@, name_len as int).take(k as int));
    }
    assert(utf16@ =~= utf16_units(name_bytes@, name_len as int));
    let name = decode_utf16_lossy(&utf16);
    if name.as_str().is_empty() {
        return None;
    }
    Some(NameCandidate { parent_record, namespace, name, created, modified, accessed })
}

fn add_data_attribute_size(attr: &[u8], size: &mut u64, allocated: &mut u64)
    ensures
        (*final(size), *final(allocated)) == data_attr_sizes(attr@, *old(size), *old(allocated)),
{
    let non_resident = attr.len() > 8 && attr[8] != 0;
    if !non_resident {
        if let Some(value_len) = read_u32(attr, 16) {
            *size = size.saturating_add(value_len as u64);
        }
        return;
    }
    let lowest_vcn = match read_u64(attr, 16) { Some(v) => v, None => 0 };
    if lowest_vcn != 0 {
        return;
    }
    let attr_flags = match read_u16(attr, 12) { Some(v) => v, None => 0 };
    let allocated_size = match read_u64(attr, 40) { Some(v) => v, None => 0 };
    let data_size = match read_u64(attr, 48) { Some(v) => v, None => 0 };
    let compressed_size = match read_u64(attr, 64) { Some(v) => v, None => 0 };
    let physical_size = if (attr_flags % 2 == 1 || attr_flags >= 0x8000) && compressed_size > 0 {
        compressed_size
    } else {
        allocated_size
    };
    *size = size.saturating_add(data_size);
    *allocated = allocated.saturating_add(physical_size);
}

fn namespace_rank(namespace: u8) -> (r: u8)
    ensures
        r as int == rank(namespace),
{
    if namespace == 1 || namespace == 3 {
        0
    } else if namespace == 0 {
        1
    } else if namespace == 2 {
        2
    } else {
        3
    }
}

fn name_key_less_exec(a: &NameCandidate, b: &NameCandidate) -> (r: bool)
    ensures
        r == name_key_less(a@, b@),
{
    let ra = namespace_rank(a.namespace);
    let rb = namespace_rank(b.namespace);
    if ra != rb {
        return ra < rb;
    }
    let la = a.name.as_str().len();
    let lb = b.name.as_str().len();
    if la != lb {
        return la < lb;
    }
    let lower_a = lower_chars(a.name.as_str());
    let lower_b = lower_chars(b.name.as_str());
    lex_less_exec(&lower_a, &lower_b)
}

/// Index of the first most preferred name candidate, `None` when there is none.
fn choose_name(names: &Vec<NameCandidate>) -> (r: Option<usize>)
    ensures
        match r {
            Some(i) => names@.len() > 0 && i == best_index(name_views(names@)),
            None => names@.len() == 0,
        },
{
    if names.len() == 0 {
        return None;
    }
    let ghost views = name_views(names@);
    let mut best: usize = 0;
    let mut i: usize = 1;
    assert(views.take(1).len() == 1);
    while i < names.len()
        invariant
            1 <= i <= names@.len(),
            views == name_views(names@),
            best == best_index(views.take(i as int)),
            best < i,
        decreases names@.len() - i,
    {
        let ghost prefix = views.take(i as int);
        proof {
            lemma_best_index_range(prefix);
            assert(views.take(i + 1).drop_last() =~= prefix);
        }
        if name_key_less_exec(&names[i], &names[best]) {
            best = i;
        }
        i += 1;
    }
    assert(views.take(i as int) =~= views);
    Some(best)
}

proof fn lemma_walk_names_step(names: Seq<NameCandidate>, c: NameCandidate)
    ensures
        name_views(names.push(c)) == name_views(names).push(c@),
{
    assert(name_views(names.push(c)) =~= name_views(names).push(c@));
}

fn user_record_after_usa(record_number: u64, record: &[u8]) -> (r: Option<ParsedRecord>)
    requires
        record@.len() >= 48,
    ensures
        match r {
            Some(p) => spec_user_after_usa(record_number, record@) == Some(p@),
            None => spec_user_after_usa(record_number, record@) is None,
        },
{
    reveal(spec_user_after_usa);
    let flags = read_u16(record, 22).unwrap();
    proof {
        lemma_le16_bound(record@, 22);
        lemma_le16_bound(record@, 20);
        lemma_le64_bound(record@, 32);
    }
    if flags % 2 == 0 {
        return None;
    }
    let base_file_record = read_u64(record, 32).unwrap() % FRN_MODULUS;
    if base_file_record != 0 {
        return None;
    }
    let is_dir = (flags / 2) % 2 == 1;
    let first = read_u16(record, 20).unwrap() as usize;
    let mut offset = first;
    let mut names: Vec<NameCandidate> = Vec::new();
    let mut size: u64 = 0;
    let mut allocated: u64 = 0;
    assert(name_views(names@) =~= seq![]);
    while offset <= record.len() && record.len() - offset >= 16
        invariant_except_break
            user_attrs(record@, first as int, seq![], 0, 0)
                == user_attrs(record@, offset as int, name_views(names@), size, allocated),
        ensures
            user_attrs(record@, first as int, seq![], 0, 0) == (name_views(names@), size, allocated),
        decreases record@.len() - offset,
    {
        let attr_type = read_u32(record, offset).unwrap();
        proof { lemma_le32_bound(record@, offset as int); }
        if attr_type == ATTR_TYPE_END {
            break;
        }
        let attr_len = read_u32(record, offset + 4).unwrap() as usize;
        proof { lemma_le32_bound(record@, offset + 4); }
        if attr_len < 16 || attr_len > record.len() - offset {
            break;
        }
        let attr = slice_subrange(record, offset, offset + attr_len);
        if attr_type == ATTR_TYPE_FILE_NAME {
            if let Some(name) = parse_file_name_attribute(attr) {
                proof { lemma_walk_names_step(names@, name); }
                names.push(name);
            }
        } else if attr_type == ATTR_TYPE_DATA {
            add_data_attribute_size(attr, &mut size, &mut allocated);
        }
        offset += attr_len;
    }
    let ghost views = name_views(names@);
    assert(user_attrs(record@, first as int, seq![], 0, 0) == (views, size, allocated));
    let chosen = match choose_name(&names) {
        Some(i) => i,
        None => return None,
    };
    proof { lemma_best_index_range(views); }
    let selected = &names[chosen];
    if is_dot(selected.name.as_str()) {
        return None;
    }
    Some(ParsedRecord {
        record_number,
        parent_record: selected.parent_record,
        name: selected.name.clone(),
        is_dir,
        size,
        allocated,
        created: selected.created,
        modified: selected.modified,
        accessed: selected.accessed,
    })
}

/// Reads a user file or directory from its FILE record: the record is fixed up
/// in place, must be in use and a base record, and is named by its preferred
/// $FILE_NAME (Win32 namespace first, then the shortest, then the first in
/// lowercase order); sizes add up its unnamed and named $DATA attributes.
/// Records that fail any check, and the `.` entry, give `None`.
pub fn parse_user_file_record(record_number: u64, record: &mut [u8], bytes_per_sector: usize)
    -> (res: Option<ParsedRecord>)
    ensures
        final(record)@ == spec_parse_user(record_number, old(record)@, bytes_per_sector as int).0,
        match res {
            Some(p) => spec_parse_user(record_number, old(record)@, bytes_per_sector as int).1 == Some(p@),
            None => spec_parse_user(record_number, old(record)@, bytes_per_sector as int).1 is None,
        },
{
    if record.len() < 48 || !has_file_magic_exec(record) {
        return None;
    }
    if apply_update_sequence_array(record, bytes_per_sector).is_err() {
        return None;
    }
    user_record_after_usa(record_number, record)
}

// ---------------------------------------------------------------------------
// Laws of the $FILE_NAME layout and of NTFS times

/// Law: a name read from a $FILE_NAME attribute takes its fields from the
/// attribute's value, which starts at the offset in bytes 20..22 of the
/// attribute: the parent directory's record number is the low 48 bits of the
/// eight bytes at 0, the creation time the eight bytes at 8, the modification
/// time those at 16 and the access time those at 32 (NTFS ticks, as Unix
/// seconds), the namespace the byte at 65, and the name has as many UTF-16
/// units as byte 64 says.
pub proof fn law_file_name_fields(attr: Seq<u8>)
    ensures
        spec_file_name(attr) matches Some(c) ==> {
            let vo = le16(attr, 20);
            &&& c.parent_record as int == le64(attr, vo) % 0x1_0000_0000_0000
            &&& c.created == ntfs_time(le64(attr, vo + 8))
            &&& c.modified == ntfs_time(le64(attr, vo + 16))
            &&& c.accessed == ntfs_time(le64(attr, vo + 32))
            &&& c.namespace == attr[vo + 65]
            &&& c.name == utf16_lossy(Seq::new(attr[vo + 64] as nat, |i: int| le16(attr, vo + 66 + 2 * i) as u16))
        },
{
    if let Some(c) = spec_file_name(attr) {
        let vl = spec_read_u32(attr, 16).unwrap();
        let vo = spec_read_u16(attr, 20).unwrap();
        assert(vo as int == le16(attr, 20));
        let v = attr.subrange(vo as int, vo + vl);
        assert(le64(v, 0) == le64(attr, vo as int));
        assert(le64(v, 8) == le64(attr, vo + 8));
        assert(le64(v, 16) == le64(attr, vo + 16));
        assert(le64(v, 32) == le64(attr, vo + 32));
        let nl = v[64] as int;
        assert(utf16_units(v.subrange(66, 66 + 2 * nl), nl)
            =~= Seq::new(attr[vo + 64] as nat, |i: int| le16(attr, vo + 66 + 2 * i) as u16));
    }
}

/// Law: NTFS times count 100-nanosecond ticks from 1601: the tick count of
/// the Unix epoch reads as 0 seconds, ten million more ticks read as one
/// second more, ticks within one second read as that second, and 0 (no time)
/// reads as 0.
pub proof fn law_ntfs_time()
    ensures
        ntfs_time(0) == 0,
        ntfs_time(116_444_736_000_000_000) == 0,
        forall|t: int| 0 < t && t + 10_000_000 <= u64::MAX ==> #[trigger] ntfs_time(t + 10_000_000) == ntfs_time(t) + 1,
        forall|t: int| 10_000_000 <= t <= u64::MAX ==> #[trigger] ntfs_time(t) == ntfs_time(t - t % 10_000_000),
{
    assert forall|t: int| 0 < t && t + 10_000_000 <= u64::MAX implies #[trigger] ntfs_time(t + 10_000_000) == ntfs_time(t) + 1 by {
        assert((t + 10_000_000) / 10_000_000 == t / 10_000_000 + 1) by (nonlinear_arith) requires t > 0;
        assert(t / 10_000_000 <= u64::MAX / 10_000_000) by (nonlinear_arith) requires 0 < t <= u64::MAX;
    }
    assert forall|t: int| 10_000_000 <= t <= u64::MAX implies #[trigger] ntfs_time(t) == ntfs_time(t - t % 10_000_000) by {
        assert((t - t % 10_000_000) / 10_000_000 == t / 10_000_000 && t - t % 10_000_000 > 0) by (nonlinear_arith)
            requires t >= 10_000_000;
    }
}

/// Whether the record bytes `r` hold, at offset `o`, a $FILE_NAME attribute
/// (type 0x30) lying within `r` whose name reads as `c`.
#[verifier::opaque]
pub open spec fn file_name_at(r: Seq<u8>, o: int, c: NameView) -> bool {
    &&& 0 <= o
    &&& o + 16 <= r.len()
    &&& le32(r, o) == 0x30
    &&& 16 <= le32(r, o + 4)
    &&& o + le32(r, o + 4) <= r.len()
    &&& spec_file_name(r.subrange(o, o + le32(r, o + 4))) == Some(c)
}

proof fn lemma_user_attr_prefix(rec: Seq<u8>, off: int, names: Seq<NameView>, size: u64, allocated: u64)
    ensures
        user_attrs(rec, off, names, size, allocated).0.len() >= names.len(),
        forall|i: int| 0 <= i < names.len() ==> user_attrs(rec, off, names, size, allocated).0[i] == names[i],
    decreases rec.len() - off,
{
    if off < 0 || off + 16 > rec.len() || le32(rec, off) == 0xffff_ffff {
    } else {
        let alen = le32(rec, off + 4);
        if alen < 16 || off + alen > rec.len() {
        } else {
            let attr = rec.subrange(off, off + alen);
            if le32(rec, off) == 0x30 {
                let next = match spec_file_name(attr) { Some(c) => names.push(c), None => names };
                lemma_user_attr_prefix(rec, off + alen, next, size, allocated);
                assert forall|i: int| 0 <= i < names.len() implies user_attrs(rec, off, names, size, allocated).0[i] == names[i] by {
                    assert(next[i] == names[i]);
                }
            } else if le32(rec, off) == 0x80 {
                let (s2, a2) = data_attr_sizes(attr, size, allocated);
                lemma_user_attr_prefix(rec, off + alen, names, s2, a2);
            } else {
                lemma_user_attr_prefix(rec, off + alen, names, size, allocated);
            }
        }
    }
}

/// Each name that the attribute walk adds is that of a $FILE_NAME attribute
/// of the record: returns its offset.
proof fn lemma_user_attr_name_at(rec: Seq<u8>, off: int, names: Seq<NameView>, size: u64, allocated: u64, i: int) -> (o: int)
    requires
        names.len() <= i < user_attrs(rec, off, names, size, allocated).0.len(),
    ensures
        file_name_at(rec, o, user_attrs(rec, off, names, size, allocated).0[i]),
    decreases rec.len() - off,
{
    let res = user_attrs(rec, off, names, size, allocated).0;
    let alen = le32(rec, off + 4);
    let attr = rec.subrange(off, off + alen);
    if le32(rec, off) == 0x30 {
        let next = match spec_file_name(attr) { Some(c) => names.push(c), None => names };
        assert(res == user_attrs(rec, off + alen, next, size, allocated).0);
        if i < next.len() {
            lemma_user_attr_prefix(rec, off + alen, next, size, allocated);
            assert(res[i] == next[i]);
            reveal(file_name_at);
            off
        } else {
            lemma_user_attr_name_at(rec, off + alen, next, size, allocated, i)
        }
    } else if le32(rec, off) == 0x80 {
        let (s2, a2) = data_attr_sizes(attr, size, allocated);
        lemma_user_attr_name_at(rec, off + alen, names, s2, a2, i)
    } else {
        lemma_user_attr_name_at(rec, off + alen, names, size, allocated, i)
    }
}

/// Law: the user record parsed from a FILE record carries the name, parent
/// and times of one $FILE_NAME attribute at some offset `o` of the record
/// (after its update sequence fix-up). With `vo` the attribute's value offset
/// (bytes 20..22 of the attribute), the parent is the low 48 bits of the
/// value's bytes 0..8, the creation time is read from the value's bytes
/// 8..16, the modification time from bytes 16..24 and the access time from
/// bytes 32..40.
pub proof fn law_record_name_fields(record_number: u64, rec: Seq<u8>, bps: int)
    ensures
        ({
            let (r, p) = spec_parse_user(record_number, rec, bps);
            p matches Some(u) ==> exists|o: int, c: NameView| #[trigger] file_name_at(r, o, c)
                && u.name == c.name
                && u.record_number == record_number
                && u.parent_record == le64(r, o + le16(r, o + 20)) % 0x1_0000_0000_0000
                && u.created == ntfs_time(le64(r, o + le16(r, o + 20) + 8))
                && u.modified == ntfs_time(le64(r, o + le16(r, o + 20) + 16))
                && u.accessed == ntfs_time(le64(r, o + le16(r, o + 20) + 32))
        }),
{
    let (r, p) = spec_parse_user(record_number, rec, bps);
    if let Some(u) = p {
        reveal(spec_user_after_usa);
        let (names, size, allocated) = user_attrs(r, le16(r, 20), seq![], 0, 0);
        lemma_best_index_range(names);
        let b = best_index(names);
        let c = names[b];
        let o = lemma_user_attr_name_at(r, le16(r, 20), seq![], 0, 0, b);
        assert(file_name_at(r, o, c));
        reveal(file_name_at);
        let attr = r.subrange(o, o + le32(r, o + 4));
        law_file_name_fields(attr);
        let vo = le16(attr, 20);
        assert(le16(attr, 20) == le16(r, o + 20));
        assert(le64(attr, vo) == le64(r, o + vo));
        assert(le64(attr, vo + 8) == le64(r, o + vo + 8));
        assert(le64(attr, vo + 16) == le64(r, o + vo + 16));
        assert(le64(attr, vo + 32) == le64(r, o + vo + 32));
    }
}

} // verus!
