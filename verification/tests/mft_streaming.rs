use fastscan_mcp::boot::NtfsBoot;
use fastscan_mcp::error::NtfsError;
use fastscan_mcp::mft_reader::{
    mft_geometry, mft_record0_offset, parse_record_region, plan_mapped_regions, MappedRegion, MftChunkReader,
    MftGeometry, ReadRequest,
};
use fastscan_mcp::record::MftStream;
use fastscan_mcp::runs::DataRun;

fn put16(b: &mut [u8], at: usize, v: u16) {
    b[at..at + 2].copy_from_slice(&v.to_le_bytes());
}

fn put32(b: &mut [u8], at: usize, v: u32) {
    b[at..at + 4].copy_from_slice(&v.to_le_bytes());
}

fn put64(b: &mut [u8], at: usize, v: u64) {
    b[at..at + 8].copy_from_slice(&v.to_le_bytes());
}

/// A 1024-byte in-use FILE record of a file named `name` under the root.
fn named_record(name: &str) -> Vec<u8> {
    let mut b = vec![0u8; 1024];
    b[0..4].copy_from_slice(b"FILE");
    put16(&mut b, 4, 48);
    put16(&mut b, 6, 3);
    put16(&mut b, 20, 56);
    put16(&mut b, 22, 1);
    put16(&mut b, 48, 1);
    put16(&mut b, 510, 1);
    put16(&mut b, 1022, 1);
    let units: Vec<u16> = name.encode_utf16().collect();
    let value_len = 66 + 2 * units.len();
    let attr_len = (24 + value_len + 7) / 8 * 8;
    let at = 56;
    put32(&mut b, at, 0x30);
    put32(&mut b, at + 4, attr_len as u32);
    put32(&mut b, at + 16, value_len as u32);
    put16(&mut b, at + 20, 24);
    let v = at + 24;
    put64(&mut b, v, 5);
    b[v + 64] = units.len() as u8;
    b[v + 65] = 1;
    for (i, u) in units.iter().enumerate() {
        put16(&mut b, v + 66 + 2 * i, *u);
    }
    put32(&mut b, at + attr_len, 0xffff_ffff);
    b
}

fn runs() -> Vec<DataRun> {
    vec![
        DataRun { lcn: 10, clusters: 2 },
        DataRun { lcn: -1, clusters: 1 },
        DataRun { lcn: 100, clusters: 3 },
    ]
}

fn geometry() -> MftGeometry {
    MftGeometry { data_size: 5 * 1024, cluster_size: 1024, record_size: 1024, record_count: 5 }
}

#[test]
fn chunked_reads_follow_the_runs() {
    let runs = runs();
    let g = geometry();
    let mut r = MftChunkReader::new();
    assert_eq!(r.next_read(&runs, g), Ok(Some(ReadRequest { offset: 10 * 1024, len: 2048 })));
    let mut data = named_record("one.txt");
    data.extend(vec![0u8; 1024]);
    let recs = r.take_chunk(&data, 1024, 512);
    assert_eq!(recs.len(), 1);
    assert_eq!(recs[0].record_number, 0);
    assert_eq!(recs[0].name, "one.txt");
    assert_eq!(r.records_seen, 2);
    // the sparse run counts one record, then the last run is read up to the stream's end
    assert_eq!(r.next_read(&runs, g), Ok(Some(ReadRequest { offset: 100 * 1024, len: 2048 })));
    assert_eq!(r.records_seen, 3);
    let mut data = vec![0u8; 1024];
    data.extend(named_record("five.bin"));
    let recs = r.take_chunk(&data, 1024, 512);
    assert_eq!(recs.len(), 1);
    assert_eq!(recs[0].record_number, 4);
    assert_eq!(r.next_read(&runs, g), Ok(None));
    assert_eq!(r.stream_bytes_read, 5120);
}

#[test]
fn chunked_reads_carry_a_cut_record() {
    let mut r = MftChunkReader::new();
    let rec = named_record("split");
    let recs = r.take_chunk(&rec[..600], 1024, 512);
    assert!(recs.is_empty());
    assert_eq!(r.pending.len(), 600);
    let recs = r.take_chunk(&rec[600..], 1024, 512);
    assert_eq!(recs.len(), 1);
    assert_eq!(recs[0].name, "split");
    assert!(r.pending.is_empty());
    assert_eq!(r.records_seen, 1);
}

#[test]
fn chunked_reads_stop_after_the_record_count() {
    let runs = vec![DataRun { lcn: 1, clusters: 8 }];
    let g = MftGeometry { data_size: 8192, cluster_size: 1024, record_size: 1024, record_count: 1 };
    let mut r = MftChunkReader::new();
    assert_eq!(r.next_read(&runs, g), Ok(Some(ReadRequest { offset: 1024, len: 8192 })));
    r.take_chunk(&vec![0u8; 8192], 1024, 512);
    assert_eq!(r.next_read(&runs, g), Ok(None));
}

#[test]
fn chunked_reads_reject_offsets_past_u64() {
    let runs = vec![DataRun { lcn: i64::MAX, clusters: 1 }];
    let g = MftGeometry { data_size: 4096, cluster_size: 4096, record_size: 1024, record_count: 4 };
    let mut r = MftChunkReader::new();
    assert_eq!(r.next_read(&runs, g), Err(NtfsError::RunOffsetOverflow));
}

#[test]
fn mapped_regions_of_the_runs() {
    let plan = plan_mapped_regions(&runs(), geometry(), 200_000).unwrap();
    assert_eq!(plan, vec![
        MappedRegion { offset: 10 * 1024, len: 2048, first_record: 0 },
        MappedRegion { offset: 100 * 1024, len: 2048, first_record: 3 },
    ]);
    let cut = plan_mapped_regions(&runs()[..1].to_vec(), geometry(), 11_000).unwrap();
    assert_eq!(cut, vec![MappedRegion { offset: 10 * 1024, len: 0, first_record: 0 }]);
    assert_eq!(plan_mapped_regions(&runs(), geometry(), 11_000), Err(NtfsError::RunOutsideVolume));
}

#[test]
fn records_of_a_region() {
    let mut data = named_record("a");
    data.extend(named_record("b"));
    data.extend(vec![0u8; 100]);
    let recs = parse_record_region(&data, 40, 1024, 512);
    let names: Vec<(u64, &str)> = recs.iter().map(|r| (r.record_number, r.name.as_str())).collect();
    assert_eq!(names, vec![(40, "a"), (41, "b")]);
}

#[test]
fn mft_location_and_geometry() {
    let boot = NtfsBoot { bytes_per_sector: 512, sectors_per_cluster: 8, cluster_size: 4096, total_sectors: 0, mft_lcn: 786_432, file_record_size: 1024 };
    assert_eq!(mft_record0_offset(&boot), Ok(786_432 * 4096));
    let far = NtfsBoot { mft_lcn: u64::MAX, ..boot };
    assert_eq!(mft_record0_offset(&far), Err(NtfsError::MftOffsetOverflow));
    let mft = MftStream { runs: Vec::new(), allocated_size: 0, data_size: 10_000 };
    let g = mft_geometry(&boot, &mft);
    assert_eq!(g, MftGeometry { data_size: 10_000, cluster_size: 4096, record_size: 1024, record_count: 9 });
}

#[test]
fn whole_read_parses_each_record_once_across_runs() {
    // 512-byte clusters, 1024-byte records: record 1 starts in the first run and ends in the second.
    let runs = vec![DataRun { lcn: 4, clusters: 3 }, DataRun { lcn: 20, clusters: 3 }];
    let g = MftGeometry { data_size: 3 * 1024, cluster_size: 512, record_size: 1024, record_count: 3 };
    let mut stream = named_record("a.txt");
    stream.extend(named_record("b.txt"));
    stream.extend(named_record("c.txt"));
    let mut disk = vec![0u8; 40 * 512];
    disk[4 * 512..7 * 512].copy_from_slice(&stream[..1536]);
    disk[20 * 512..23 * 512].copy_from_slice(&stream[1536..]);
    let mut r = MftChunkReader::new();
    let mut found = Vec::new();
    while let Ok(Some(req)) = r.next_read(&runs, g) {
        let data = &disk[req.offset as usize..req.offset as usize + req.len];
        found.extend(r.take_chunk(data, 1024, 512));
    }
    let got: Vec<(u64, &str)> = found.iter().map(|x| (x.record_number, x.name.as_str())).collect();
    assert_eq!(got, vec![(0, "a.txt"), (1, "b.txt"), (2, "c.txt")]);
}
