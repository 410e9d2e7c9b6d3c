use fastscan_mcp::boot::parse_boot_sector;
use fastscan_mcp::bytes::{read_u16, read_u32, read_u64};
use fastscan_mcp::error::NtfsError;
use fastscan_mcp::record::{ntfs_time_to_unix, parse_mft_stream, parse_user_file_record};
use fastscan_mcp::runs::{parse_mapping_pairs, DataRun};

fn put16(b: &mut [u8], at: usize, v: u16) {
    b[at..at + 2].copy_from_slice(&v.to_le_bytes());
}

fn put32(b: &mut [u8], at: usize, v: u32) {
    b[at..at + 4].copy_from_slice(&v.to_le_bytes());
}

fn put64(b: &mut [u8], at: usize, v: u64) {
    b[at..at + 8].copy_from_slice(&v.to_le_bytes());
}

/// A 1024-byte FILE record with two 512-byte sectors protected by an update
/// sequence array; attributes start at 56 and the trailers hold the USN 7.
fn file_record(flags: u16) -> Vec<u8> {
    let mut b = vec![0u8; 1024];
    b[0..4].copy_from_slice(b"FILE");
    put16(&mut b, 4, 48);
    put16(&mut b, 6, 3);
    put16(&mut b, 20, 56);
    put16(&mut b, 22, flags);
    put16(&mut b, 48, 7);
    put16(&mut b, 50, 0xAABB);
    put16(&mut b, 52, 0xCCDD);
    put16(&mut b, 510, 7);
    put16(&mut b, 1022, 7);
    b
}

/// Writes a resident $FILE_NAME attribute at `at`; returns where the next
/// attribute goes.
fn file_name_attr(b: &mut [u8], at: usize, parent: u64, namespace: u8, name: &str, times: u64) -> usize {
    let units: Vec<u16> = name.encode_utf16().collect();
    let value_len = 66 + 2 * units.len();
    let attr_len = (24 + value_len + 7) / 8 * 8;
    put32(b, at, 0x30);
    put32(b, at + 4, attr_len as u32);
    b[at + 8] = 0;
    put32(b, at + 16, value_len as u32);
    put16(b, at + 20, 24);
    let v = at + 24;
    put64(b, v, parent);
    put64(b, v + 8, times);
    put64(b, v + 16, times);
    put64(b, v + 32, times);
    b[v + 64] = units.len() as u8;
    b[v + 65] = namespace;
    for (i, u) in units.iter().enumerate() {
        put16(b, v + 66 + 2 * i, *u);
    }
    at + attr_len
}

fn resident_data_attr(b: &mut [u8], at: usize, value_len: u32) -> usize {
    put32(b, at, 0x80);
    put32(b, at + 4, 24);
    b[at + 8] = 0;
    put32(b, at + 16, value_len);
    at + 24
}

fn nonresident_data_attr(b: &mut [u8], at: usize, allocated: u64, data: u64, pairs: &[u8]) -> usize {
    let attr_len = (72 + pairs.len() + 7) / 8 * 8;
    put32(b, at, 0x80);
    put32(b, at + 4, attr_len as u32);
    b[at + 8] = 1;
    b[at + 9] = 0;
    put64(b, at + 16, 0);
    put16(b, at + 32, 72);
    put64(b, at + 40, allocated);
    put64(b, at + 48, data);
    b[at + 72..at + 72 + pairs.len()].copy_from_slice(pairs);
    at + attr_len
}

fn end_marker(b: &mut [u8], at: usize) {
    put32(b, at, 0xffff_ffff);
}

#[test]
fn reads_little_endian_integers() {
    let b = [0x01u8, 0x02, 0x03, 0x04, 0x05, 0x06, 0x07, 0x08, 0x09];
    assert_eq!(read_u16(&b, 0), Some(0x0201));
    assert_eq!(read_u32(&b, 1), Some(0x0504_0302));
    assert_eq!(read_u64(&b, 1), Some(0x0908_0706_0504_0302));
    assert_eq!(read_u16(&b, 8), None);
    assert_eq!(read_u32(&b, 6), None);
    assert_eq!(read_u64(&b, 2), None);
    assert_eq!(read_u16(&b, usize::MAX), None);
}

#[test]
fn mapping_pairs_accumulate_lcn_deltas() {
    // 16 clusters at 256, then 8 clusters 16 before (delta -16), then 4 sparse clusters.
    let pairs = [0x21u8, 0x10, 0x00, 0x01, 0x11, 0x08, 0xF0, 0x01, 0x04, 0x00];
    let runs = parse_mapping_pairs(&pairs).unwrap();
    assert_eq!(
        runs,
        vec![
            DataRun { lcn: 256, clusters: 16 },
            DataRun { lcn: 240, clusters: 8 },
            DataRun { lcn: -1, clusters: 4 },
        ]
    );
}

#[test]
fn mapping_pairs_eight_byte_deltas_are_twos_complement() {
    let pairs = [0x81u8, 0x01, 0xFE, 0xFF, 0xFF, 0xFF, 0xFF, 0xFF, 0xFF, 0xFF, 0x00];
    assert_eq!(parse_mapping_pairs(&pairs).unwrap(), vec![DataRun { lcn: -2, clusters: 1 }]);
    let below = [0x81u8, 0x01, 0, 0, 0, 0, 0, 0, 0, 0x80, 0x11, 0x01, 0xFF, 0x00];
    assert_eq!(parse_mapping_pairs(&below), Err(NtfsError::LcnOverflow));
    let pairs = [0x81u8, 0x01, 0x05, 0, 0, 0, 0, 0, 0, 0, 0x00];
    assert_eq!(parse_mapping_pairs(&pairs).unwrap(), vec![DataRun { lcn: 5, clusters: 1 }]);
}

#[test]
fn mapping_pairs_empty_array_has_no_runs() {
    assert_eq!(parse_mapping_pairs(&[0x00]).unwrap(), Vec::<DataRun>::new());
}

#[test]
fn mapping_pairs_errors() {
    assert_eq!(parse_mapping_pairs(&[]), Err(NtfsError::MappingUnterminated));
    assert_eq!(parse_mapping_pairs(&[0x21, 0x10, 0x00, 0x01]), Err(NtfsError::MappingUnterminated));
    assert_eq!(parse_mapping_pairs(&[0x20, 0x00]), Err(NtfsError::MappingInvalidHeader(0x20)));
    assert_eq!(parse_mapping_pairs(&[0x19, 0x00]), Err(NtfsError::MappingInvalidHeader(0x19)));
    assert_eq!(parse_mapping_pairs(&[0x91, 0x01, 0x00]), Err(NtfsError::MappingInvalidHeader(0x91)));
    assert_eq!(parse_mapping_pairs(&[0x02, 0x01]), Err(NtfsError::MappingInvalidLength));
    assert_eq!(parse_mapping_pairs(&[0x21, 0x01, 0x00]), Err(NtfsError::MappingInvalidDelta));
    let overflow = [
        0x81, 0x01, 0xff, 0xff, 0xff, 0xff, 0xff, 0xff, 0xff, 0x7f,
        0x81, 0x01, 0x01, 0x00, 0x00, 0x00, 0x00, 0x00, 0x00, 0x00, 0x00,
    ];
    assert_eq!(parse_mapping_pairs(&overflow), Err(NtfsError::LcnOverflow));
}

fn boot_sector() -> Vec<u8> {
    let mut b = vec![0u8; 512];
    b[3..11].copy_from_slice(b"NTFS    ");
    put16(&mut b, 11, 512);
    b[13] = 8;
    put64(&mut b, 40, 1_000_000);
    put64(&mut b, 48, 786_432);
    b[64] = 0xF6; // 2^10 = 1024-byte records
    b
}

#[test]
fn parses_boot_sector_geometry() {
    let boot = parse_boot_sector(&boot_sector()).unwrap();
    assert_eq!(boot.bytes_per_sector, 512);
    assert_eq!(boot.sectors_per_cluster, 8);
    assert_eq!(boot.cluster_size, 4096);
    assert_eq!(boot.total_sectors, 1_000_000);
    assert_eq!(boot.mft_lcn, 786_432);
    assert_eq!(boot.file_record_size, 1024);
}

#[test]
fn boot_sector_record_size_in_clusters() {
    let mut b = boot_sector();
    put16(&mut b, 11, 512);
    b[13] = 1;
    b[64] = 2;
    assert_eq!(parse_boot_sector(&b).unwrap().file_record_size, 1024);
}

#[test]
fn boot_sector_errors() {
    assert_eq!(parse_boot_sector(&[0u8; 511]), Err(NtfsError::BootSectorTooSmall));
    let mut b = boot_sector();
    b[3] = b'X';
    assert_eq!(parse_boot_sector(&b).err(), Some(NtfsError::NotNtfs));
    let mut b = boot_sector();
    b[13] = 0;
    assert_eq!(parse_boot_sector(&b).err(), Some(NtfsError::InvalidClusterGeometry));
    let mut b = boot_sector();
    put16(&mut b, 11, 0);
    assert_eq!(parse_boot_sector(&b).err(), Some(NtfsError::InvalidClusterGeometry));
    let mut b = boot_sector();
    b[64] = 0;
    assert_eq!(parse_boot_sector(&b).err(), Some(NtfsError::InvalidClustersPerRecord));
    let mut b = boot_sector();
    b[64] = 0x80; // 2^128
    assert_eq!(parse_boot_sector(&b).err(), Some(NtfsError::RecordSizeShiftOverflow));
    let mut b = boot_sector();
    b[64] = 0xF8; // 2^8 = 256 bytes
    assert_eq!(parse_boot_sector(&b).err(), Some(NtfsError::UnsupportedRecordSize(256)));
    let mut b = boot_sector();
    b[64] = 127;
    put16(&mut b, 11, 65535);
    b[13] = 255;
    assert_eq!(parse_boot_sector(&b).err(), Some(NtfsError::UnsupportedRecordSize(65535 * 255 * 127)));
}

#[test]
fn converts_ntfs_times() {
    assert_eq!(ntfs_time_to_unix(0), 0);
    assert_eq!(ntfs_time_to_unix(116_444_736_000_000_000), 0);
    assert_eq!(ntfs_time_to_unix(132_000_000_000_000_000), 1_555_526_400);
    assert_eq!(ntfs_time_to_unix(1), -11_644_473_600);
}

#[test]
fn parses_mft_stream_and_applies_fixups() {
    let mut b = file_record(1);
    let next = nonresident_data_attr(&mut b, 56, 65536, 40960, &[0x21, 0x10, 0x00, 0x01, 0x00]);
    end_marker(&mut b, next);
    let mft = parse_mft_stream(&mut b, 512).unwrap();
    assert_eq!(mft.runs, vec![DataRun { lcn: 256, clusters: 16 }]);
    assert_eq!(mft.allocated_size, 65536);
    assert_eq!(mft.data_size, 40960);
    // the sector trailers now hold the saved words
    assert_eq!(read_u16(&b, 510), Some(0xAABB));
    assert_eq!(read_u16(&b, 1022), Some(0xCCDD));
}

#[test]
fn mft_stream_errors() {
    let mut b = file_record(1);
    end_marker(&mut b, 56);
    assert_eq!(parse_mft_stream(&mut b, 512).err(), Some(NtfsError::MftDataNotFound));

    let mut b = file_record(1);
    let next = nonresident_data_attr(&mut b, 56, 0, 0, &[0x00]);
    end_marker(&mut b, next);
    assert_eq!(parse_mft_stream(&mut b, 512).err(), Some(NtfsError::NoDataRuns));

    let mut b = file_record(1);
    put32(&mut b, 56, 0x10);
    put32(&mut b, 60, 8);
    assert_eq!(parse_mft_stream(&mut b, 512).err(), Some(NtfsError::CorruptedAttribute));

    let mut b = file_record(1);
    put16(&mut b, 1022, 9);
    assert_eq!(parse_mft_stream(&mut b, 512).err(), Some(NtfsError::UpdateSequenceMismatch));

    let mut b = file_record(1);
    assert_eq!(parse_mft_stream(&mut b, 1).err(), Some(NtfsError::InvalidSectorSize));
    assert_eq!(parse_mft_stream(&mut b, 2048).err(), Some(NtfsError::InvalidSectorSize));

    let mut b = file_record(1);
    b[0] = b'B';
    assert_eq!(parse_mft_stream(&mut b, 512).err(), Some(NtfsError::NotFileRecord));

    let mut b = file_record(1);
    put16(&mut b, 6, 0);
    assert_eq!(parse_mft_stream(&mut b, 512).err(), Some(NtfsError::InvalidUsaRange));

    let mut b = file_record(1);
    put16(&mut b, 6, 2);
    assert_eq!(parse_mft_stream(&mut b, 512).err(), Some(NtfsError::UsaCountTooSmall));
}

#[test]
fn parses_user_record_with_preferred_name() {
    let mut b = file_record(1);
    let t = 132_000_000_000_000_000u64;
    // a DOS name and a Win32 name: the Win32 one is preferred
    let next = file_name_attr(&mut b, 56, 5 | (3u64 << 48), 2, "REPORT~1.TXT", t);
    let next = file_name_attr(&mut b, next, 5 | (3u64 << 48), 1, "Report.txt", t);
    let next = resident_data_attr(&mut b, next, 1234);
    end_marker(&mut b, next);
    let rec = parse_user_file_record(42, &mut b, 512).unwrap();
    assert_eq!(rec.record_number, 42);
    assert_eq!(rec.parent_record, 5);
    assert_eq!(rec.name, "Report.txt");
    assert!(!rec.is_dir);
    assert_eq!(rec.size, 1234);
    assert_eq!(rec.allocated, 0);
    assert_eq!(rec.created, 1_555_526_400);
    assert_eq!(rec.modified, 1_555_526_400);
    assert_eq!(rec.accessed, 1_555_526_400);
}

#[test]
fn user_record_directory_and_nonresident_sizes() {
    let mut b = file_record(3);
    let next = file_name_attr(&mut b, 56, 77, 3, "docs", 0);
    let next = nonresident_data_attr(&mut b, next, 8192, 5000, &[0x00]);
    end_marker(&mut b, next);
    let rec = parse_user_file_record(9, &mut b, 512).unwrap();
    assert!(rec.is_dir);
    assert_eq!(rec.name, "docs");
    assert_eq!(rec.parent_record, 77);
    assert_eq!(rec.size, 5000);
    assert_eq!(rec.allocated, 8192);
    assert_eq!(rec.created, 0);
}

#[test]
fn user_record_shorter_name_wins_within_namespace() {
    let mut b = file_record(1);
    let next = file_name_attr(&mut b, 56, 5, 0, "longer-name", 0);
    let next = file_name_attr(&mut b, next, 5, 0, "short", 0);
    end_marker(&mut b, next);
    assert_eq!(parse_user_file_record(1, &mut b, 512).unwrap().name, "short");
}

#[test]
fn user_record_rejections() {
    // not in use
    let mut b = file_record(0);
    let next = file_name_attr(&mut b, 56, 5, 1, "a", 0);
    end_marker(&mut b, next);
    assert!(parse_user_file_record(1, &mut b, 512).is_none());
    // an extension record of another base record
    let mut b = file_record(1);
    put64(&mut b, 32, 12);
    let next = file_name_attr(&mut b, 56, 5, 1, "a", 0);
    end_marker(&mut b, next);
    assert!(parse_user_file_record(1, &mut b, 512).is_none());
    // no name
    let mut b = file_record(1);
    end_marker(&mut b, 56);
    assert!(parse_user_file_record(1, &mut b, 512).is_none());
    // the "." entry
    let mut b = file_record(3);
    let next = file_name_attr(&mut b, 56, 5, 1, ".", 0);
    end_marker(&mut b, next);
    assert!(parse_user_file_record(5, &mut b, 512).is_none());
    // too short, wrong magic, broken fixups
    assert!(parse_user_file_record(1, &mut [0u8; 40], 512).is_none());
    let mut b = file_record(1);
    b[1] = b'X';
    assert!(parse_user_file_record(1, &mut b, 512).is_none());
    let mut b = file_record(1);
    put16(&mut b, 510, 8);
    assert!(parse_user_file_record(1, &mut b, 512).is_none());
}

#[test]
fn ntfs_error_messages() {
    assert_eq!(NtfsError::NotNtfs.message(), "目标卷不是 NTFS 文件系统");
    assert_eq!(NtfsError::MappingInvalidHeader(0x20).message(), "invalid NTFS mapping pair header: 0x20");
    assert_eq!(NtfsError::MappingInvalidHeader(0x0f).message(), "invalid NTFS mapping pair header: 0xf");
    assert_eq!(NtfsError::UnsupportedRecordSize(256).message(), "unsupported NTFS FILE record size: 256");
    assert_eq!(NtfsError::UnsupportedRecordSize(0).message(), "unsupported NTFS FILE record size: 0");
    assert_eq!(NtfsError::LcnOverflow.message(), "LCN overflow");
}
