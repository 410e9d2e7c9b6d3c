//! The NTFS boot sector: volume geometry and the location of the MFT.
use vstd::prelude::*;
use vstd::arithmetic::power2::{pow2, lemma_pow2_unfold, lemma_pow2_strictly_increases, lemma2_to64};
use crate::bytes::{le16, le64, read_u16, read_u64, lemma_le16_bound, lemma_le64_bound};
use crate::error::NtfsError;

verus! {

/// Geometry read from an NTFS boot sector.
#[derive(Debug, Clone, Copy, PartialEq, Eq, Structural)]
pub struct NtfsBoot {
    pub bytes_per_sector: u16,
    pub sectors_per_cluster: u8,
    pub cluster_size: u64,
    pub total_sectors: u64,
    pub mft_lcn: u64,
    pub file_record_size: usize,
}

/// Whether bytes 3..11 hold the OEM id `NTFS    `.
pub open spec fn has_ntfs_oem_id(b: Seq<u8>) -> bool {
    b.subrange(3, 11) == seq![0x4eu8, 0x54u8, 0x46u8, 0x53u8, 0x20u8, 0x20u8, 0x20u8, 0x20u8]
}

/// The FILE record size that the clusters-per-record byte `c` encodes for
/// clusters of `cluster` bytes: `c` clusters when `c` read as `i8` is positive,
/// else `2^-c` bytes.
pub open spec fn spec_record_size(cluster: int, c: u8) -> Result<int, NtfsError> {
    if c < 128 {
        if cluster * c > u64::MAX { Err(NtfsError::RecordSizeOverflow) } else { Ok(cluster * c) }
    } else {
        let e = 256 - c;
        if e >= 64 { Err(NtfsError::RecordSizeShiftOverflow) } else { Ok(pow2(e as nat) as int) }
    }
}

/// The boot sector parse of `b`.
pub open spec fn spec_parse_boot(b: Seq<u8>) -> Result<NtfsBoot, NtfsError> {
    if b.len() < 512 {
        Err(NtfsError::BootSectorTooSmall)
    } else if !has_ntfs_oem_id(b) {
        Err(NtfsError::NotNtfs)
    } else {
        let bps = le16(b, 11);
        let spc = b[13];
        let cluster = bps * spc;
        if bps == 0 || spc == 0 {
            Err(NtfsError::InvalidClusterGeometry)
        } else if b[64] == 0 {
            Err(NtfsError::InvalidClustersPerRecord)
        } else {
            match spec_record_size(cluster, b[64]) {
                Err(e) => Err(e),
                Ok(size) => if size < 512 || size > 1024 * 1024 {
                    Err(NtfsError::UnsupportedRecordSize(size as u64))
                } else {
                    Ok(NtfsBoot {
                        bytes_per_sector: bps as u16,
                        sectors_per_cluster: spc,
                        cluster_size: cluster as u64,
                        total_sectors: le64(b, 40) as u64,
                        mft_lcn: le64(b, 48) as u64,
                        file_record_size: size as usize,
                    })
                },
            }
        }
    }
}

fn power_of_two(e: u32) -> (r: u64)
    requires
        e < 64,
    ensures
        r == pow2(e as nat),
{
    proof { lemma2_to64(); }
    let mut r: u64 = 1;
    let mut k: u32 = 0;
    while k < e
        invariant
            k <= e < 64,
            r == pow2(k as nat),
            pow2(64) == 0x1_0000_0000_0000_0000,
        decreases e - k,
    {
        proof {
            lemma_pow2_unfold((k + 1) as nat);
            if k + 1 < 64 {
                lemma_pow2_strictly_increases((k + 1) as nat, 64);
            }
        }
        r = r * 2;
        k = k + 1;
    }
    r
}

/// Parses an NTFS boot sector: checks the OEM id and the cluster geometry and
/// derives the FILE record size, which must lie within 512 bytes ..= 1 MiB.
pub fn parse_boot_sector(buf: &[u8]) -> (res: Result<NtfsBoot, NtfsError>)
    ensures
        res == spec_parse_boot(buf@),
{
    if buf.len() < 512 {
        return Err(NtfsError::BootSectorTooSmall);
    }
    if !(buf[3] == 0x4e && buf[4] == 0x54 && buf[5] == 0x46 && buf[6] == 0x53 && buf[7] == 0x20
        && buf[8] == 0x20 && buf[9] == 0x20 && buf[10] == 0x20) {
        proof {
            let want = seq![0x4eu8, 0x54u8, 0x46u8, 0x53u8, 0x20u8, 0x20u8, 0x20u8, 0x20u8];
            if buf@.subrange(3, 11) == want {
                assert(buf@.subrange(3, 11)[0] == buf@[3]);
                assert(buf@.subrange(3, 11)[7] == buf@[10]);
                assert(false);
            }
        }
        return Err(NtfsError::NotNtfs);
    }
    assert(buf@.subrange(3, 11) =~= seq![0x4eu8, 0x54u8, 0x46u8, 0x53u8, 0x20u8, 0x20u8, 0x20u8, 0x20u8]);
    let bytes_per_sector = read_u16(buf, 11).unwrap();
    let sectors_per_cluster = buf[13];
    proof {
        lemma_le16_bound(buf@, 11);
        let a = bytes_per_sector as int;
        let c = sectors_per_cluster as int;
        assert(0 <= a * c <= 65535 * 255) by (nonlinear_arith)
            requires 0 <= a <= 65535, 0 <= c <= 255;
        assert(a > 0 && c > 0 ==> a * c > 0) by (nonlinear_arith);
    }
    let cluster_size = bytes_per_sector as u64 * sectors_per_cluster as u64;
    if bytes_per_sector == 0 || sectors_per_cluster == 0 || cluster_size == 0 {
        return Err(NtfsError::InvalidClusterGeometry);
    }
    let total_sectors = read_u64(buf, 40).unwrap();
    let mft_lcn = read_u64(buf, 48).unwrap();
    proof {
        lemma_le64_bound(buf@, 40);
        lemma_le64_bound(buf@, 48);
    }
    let clusters_per_file_record = buf[64];
    if clusters_per_file_record == 0 {
        return Err(NtfsError::InvalidClustersPerRecord);
    }
    let file_record_size: u64 = if clusters_per_file_record < 128 {
        match cluster_size.checked_mul(clusters_per_file_record as u64) {
            Some(v) => v,
            None => return Err(NtfsError::RecordSizeOverflow),
        }
    } else {
        let exponent = 256 - clusters_per_file_record as u32;
        if exponent >= 64 {
            return Err(NtfsError::RecordSizeShiftOverflow);
        }
        power_of_two(exponent)
    };
    if file_record_size < 512 || file_record_size > 1024 * 1024 {
        return Err(NtfsError::UnsupportedRecordSize(file_record_size));
    }
    Ok(NtfsBoot {
        bytes_per_sector,
        sectors_per_cluster,
        cluster_size,
        total_sectors,
        mft_lcn,
        file_record_size: file_record_size as usize,
    })
}

} // verus!
