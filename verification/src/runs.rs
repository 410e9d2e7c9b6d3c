//! NTFS data runs: decoding of the mapping-pairs array of a non-resident attribute.
use vstd::prelude::*;
use crate::error::NtfsError;

verus! {

/// One extent of a non-resident stream: `clusters` clusters starting at logical
/// cluster `lcn`, or a sparse extent when `lcn` is -1.
#[derive(Debug, Clone, Copy, PartialEq, Eq, Structural)]
pub struct DataRun {
    pub lcn: i64,
    pub clusters: u64,
}

/// 256 to the power `n`.
pub open spec fn pow256(n: nat) -> nat
    decreases n,
{
    if n == 0 { 1 } else { 256 * pow256((n - 1) as nat) }
}

/// The unsigned little-endian number held in the `n` bytes at `off`.
pub open spec fn unsigned_le(b: Seq<u8>, off: int, n: nat) -> nat
    decreases n,
{
    if n == 0 { 0 } else { b[off] as nat + 256 * unsigned_le(b, off + 1, (n - 1) as nat) }
}

/// The two's-complement little-endian number held in the `n` bytes at `off`.
pub open spec fn signed_le(b: Seq<u8>, off: int, n: nat) -> int {
    let u = unsigned_le(b, off, n);
    if 2 * u >= pow256(n) { u - pow256(n) } else { u as int }
}

pub proof fn lemma_unsigned_le_bound(b: Seq<u8>, off: int, n: nat)
    ensures unsigned_le(b, off, n) < pow256(n),
    decreases n,
{
    if n > 0 {
        lemma_unsigned_le_bound(b, off + 1, (n - 1) as nat);
    }
}

pub proof fn lemma_pow256_le8(n: nat)
    requires n <= 8,
    ensures
        1 <= pow256(n) <= pow256(8),
        pow256(8) == 0x1_0000_0000_0000_0000,
    decreases 8 - n,
{
    reveal_with_fuel(pow256, 9);
    if n < 8 {
        lemma_pow256_le8(n + 1);
    }
}

pub proof fn lemma_signed_le_bound(b: Seq<u8>, off: int, n: nat)
    requires 1 <= n <= 8,
    ensures i64::MIN <= signed_le(b, off, n) <= i64::MAX,
{
    lemma_unsigned_le_bound(b, off, n);
    lemma_pow256_le8(n);
    lemma_pow256_le8((n - 1) as nat);
    assert(pow256(n) == 256 * pow256((n - 1) as nat));
}

/// The result of reading an unsigned field of `n` bytes at `off`.
pub open spec fn spec_read_unsigned(b: Seq<u8>, off: int, n: nat) -> Option<u64> {
    if n == 0 {
        Some(0)
    } else if off < 0 || off + n > b.len() {
        None
    } else {
        Some(unsigned_le(b, off, n) as u64)
    }
}

/// The result of reading a signed field of `n` bytes at `off`.
pub open spec fn spec_read_signed(b: Seq<u8>, off: int, n: nat) -> Option<i64> {
    if n == 0 || n > 8 || off < 0 || off + n > b.len() {
        None
    } else {
        Some(signed_le(b, off, n) as i64)
    }
}

fn read_unsigned(buf: &[u8], offset: usize, size: usize) -> (r: Option<u64>)
    requires
        size <= 8,
    ensures
        r == spec_read_unsigned(buf@, offset as int, size as nat),
        r matches Some(v) ==> v == unsigned_le(buf@, offset as int, size as nat),
{
    if size == 0 {
        return Some(0);
    }
    if offset > buf.len() || buf.len() - offset < size {
        return None;
    }
    let mut acc: u64 = 0;
    let mut i: usize = size;
    while i > 0
        invariant
            i <= size <= 8,
            offset + size <= buf.len(),
            acc == unsigned_le(buf@, offset + i, (size - i) as nat),
        decreases i,
    {
        i -= 1;
        proof {
            lemma_unsigned_le_bound(buf@, offset + i + 1, (size - i - 1) as nat);
            lemma_pow256_le8((size - i) as nat);
            assert(pow256((size - i) as nat) == 256 * pow256((size - i - 1) as nat));
        }
        assert(offset + i < buf@.len());
        acc = acc * 256 + buf[offset + i] as u64;
    }
    proof {
        lemma_unsigned_le_bound(buf@, offset as int, size as nat);
        lemma_pow256_le8(size as nat);
    }
    Some(acc)
}

/// The largest value of a `size`-byte unsigned field.
fn max_unsigned(size: usize) -> (m: u64)
    requires
        1 <= size <= 8,
    ensures
        m == pow256(size as nat) - 1,
{
    reveal_with_fuel(pow256, 9);
    if size == 1 {
        0xff
    } else if size == 2 {
        0xffff
    } else if size == 3 {
        0xff_ffff
    } else if size == 4 {
        0xffff_ffff
    } else if size == 5 {
        0xff_ffff_ffff
    } else if size == 6 {
        0xffff_ffff_ffff
    } else if size == 7 {
        0xff_ffff_ffff_ffff
    } else {
        0xffff_ffff_ffff_ffff
    }
}

fn read_signed(buf: &[u8], offset: usize, size: usize) -> (r: Option<i64>)
    ensures
        r == spec_read_signed(buf@, offset as int, size as nat),
{
    if size == 0 || size > 8 {
        return None;
    }
    let u = match read_unsigned(buf, offset, size) {
        Some(u) => u,
        None => return None,
    };
    let top = max_unsigned(size);
    proof {
        lemma_unsigned_le_bound(buf@, offset as int, size as nat);
        lemma_pow256_le8(size as nat);
        assert(pow256(size as nat) == 256 * pow256((size - 1) as nat));
    }
    if u > top / 2 {
        let m = top - u;
        Some(-(m as i64) - 1)
    } else {
        Some(u as i64)
    }
}

/// Prepends `prefix` to a successful decoding result and passes errors through.
pub open spec fn prepend_runs(prefix: Seq<DataRun>, r: Result<Seq<DataRun>, NtfsError>) -> Result<Seq<DataRun>, NtfsError> {
    match r {
        Ok(rest) => Ok(prefix + rest),
        Err(e) => Err(e),
    }
}

/// Keeps a run only when it covers at least one cluster.
pub open spec fn nonempty_run(lcn: int, clusters: nat) -> Seq<DataRun> {
    if clusters > 0 { seq![DataRun { lcn: lcn as i64, clusters: clusters as u64 }] } else { seq![] }
}

/// Decoding of the mapping pairs that start at `off`, where `lcn` is the LCN
/// reached by the pairs before them.
pub open spec fn spec_pairs_from(b: Seq<u8>, off: int, lcn: int) -> Result<Seq<DataRun>, NtfsError>
    decreases b.len() - off,
{
    if off < 0 || off >= b.len() {
        Err(NtfsError::MappingUnterminated)
    } else {
        let h = b[off];
        let off1 = off + 1;
        let ls = (h % 16) as nat;
        let os = (h / 16) as nat;
        if h == 0 {
            Ok(seq![])
        } else if ls == 0 || ls > 8 || os > 8 {
            Err(NtfsError::MappingInvalidHeader(h))
        } else if off1 + ls > b.len() {
            Err(NtfsError::MappingInvalidLength)
        } else {
            let length = unsigned_le(b, off1, ls);
            let off2 = off1 + ls;
            if os == 0 {
                prepend_runs(nonempty_run(-1, length), spec_pairs_from(b, off2, lcn))
            } else if off2 + os > b.len() {
                Err(NtfsError::MappingInvalidDelta)
            } else {
                let next = lcn + signed_le(b, off2, os);
                if next < i64::MIN || next > i64::MAX {
                    Err(NtfsError::LcnOverflow)
                } else {
                    prepend_runs(nonempty_run(next, length), spec_pairs_from(b, off2 + os, next))
                }
            }
        }
    }
}

/// Decoding of a whole mapping-pairs array.
pub open spec fn spec_mapping_pairs(b: Seq<u8>) -> Result<Seq<DataRun>, NtfsError> {
    spec_pairs_from(b, 0, 0)
}

/// Decodes an NTFS mapping-pairs array into its data runs. Each pair's LCN is
/// a signed delta from the previous one; a pair without an offset field is a
/// sparse run (LCN -1); runs of zero clusters are dropped; a zero header byte
/// ends the array.
pub fn parse_mapping_pairs(buf: &[u8]) -> (res: Result<Vec<DataRun>, NtfsError>)
    ensures
        match res {
            Ok(runs) => spec_mapping_pairs(buf@) == Ok::<Seq<DataRun>, NtfsError>(runs@),
            Err(e) => spec_mapping_pairs(buf@) == Err::<Seq<DataRun>, NtfsError>(e),
        },
{
    let mut runs: Vec<DataRun> = Vec::new();
    let mut offset: usize = 0;
    let mut current_lcn: i64 = 0;
    loop
        invariant_except_break
            offset <= buf@.len(),
            spec_mapping_pairs(buf@) == prepend_runs(runs@, spec_pairs_from(buf@, offset as int, current_lcn as int)),
        ensures
            spec_mapping_pairs(buf@) == Ok::<Seq<DataRun>, NtfsError>(runs@),
        decreases buf@.len() - offset,
    {
        if offset >= buf.len() {
            return Err(NtfsError::MappingUnterminated);
        }
        let header = buf[offset];
        let ghost old_offset = offset as int;
        let ghost old_lcn = current_lcn as int;
        let ghost old_runs = runs@;
        offset += 1;
        if header == 0 {
            assert(runs@ + seq![] =~= runs@);
            break;
        }
        let length_size = (header % 16) as usize;
        let offset_size = (header / 16) as usize;
        if length_size == 0 || length_size > 8 || offset_size > 8 {
            return Err(NtfsError::MappingInvalidHeader(header));
        }
        let length = match read_unsigned(buf, offset, length_size) {
            Some(v) => v,
            None => return Err(NtfsError::MappingInvalidLength),
        };
        offset += length_size;
        let lcn = if offset_size == 0 {
            -1i64
        } else {
            let delta = match read_signed(buf, offset, offset_size) {
                Some(d) => d,
                None => return Err(NtfsError::MappingInvalidDelta),
            };
            proof { lemma_signed_le_bound(buf@, offset as int, offset_size as nat); }
            offset += offset_size;
            current_lcn = match current_lcn.checked_add(delta) {
                Some(v) => v,
                None => return Err(NtfsError::LcnOverflow),
            };
            current_lcn
        };
        if length > 0 {
            runs.push(DataRun { lcn, clusters: length });
        }
        proof {
            let r = spec_pairs_from(buf@, offset as int, current_lcn as int);
            assert(spec_pairs_from(buf@, old_offset, old_lcn)
                == prepend_runs(nonempty_run(lcn as int, length as nat), r));
            match r {
                Ok(rest) => {
                    assert(old_runs + (nonempty_run(lcn as int, length as nat) + rest) =~= runs@ + rest);
                }
                Err(e) => {}
            }
        }
    }
    Ok(runs)
}

} // verus!
