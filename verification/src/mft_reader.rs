//! Reading the $MFT stream of a volume run by run: where to read next, and
//! the user records found in what was read.
use vstd::prelude::*;
use crate::error::NtfsError;
use crate::boot::NtfsBoot;
use crate::record::{MftStream, ParsedRecord, ParsedRecordView, parse_user_file_record, spec_parse_user};
use crate::runs::DataRun;

verus! {

/// A read reaches at most this many bytes.
pub const MFT_CHUNK_BYTES: u64 = 0x400_0000;

/// A read of `len` bytes at byte `offset` of the volume.
#[derive(Debug, Clone, Copy, PartialEq, Eq, Structural)]
pub struct ReadRequest {
    pub offset: u64,
    pub len: usize,
}

/// The geometry a read of the $MFT stream follows.
#[derive(Debug, Clone, Copy, PartialEq, Eq, Structural)]
pub struct MftGeometry {
    pub data_size: u64,
    pub cluster_size: u64,
    pub record_size: usize,
    pub record_count: u64,
}

/// Where a streamed read of the $MFT stands: the run being read, how far,
/// how many records and stream bytes are behind, and the bytes of a record
/// that the last read cut off.
pub struct MftChunkReader {
    pub run_index: usize,
    pub in_run: bool,
    pub disk_base: u64,
    pub run_offset: u64,
    pub bytes_to_process: u64,
    pub records_seen: u64,
    pub stream_bytes_read: u64,
    pub pending: Vec<u8>,
}

/// The mathematical content of a reader.
pub struct ReaderView {
    pub run_index: int,
    pub in_run: bool,
    pub disk_base: u64,
    pub run_offset: u64,
    pub bytes_to_process: u64,
    pub records_seen: u64,
    pub stream_bytes_read: u64,
    pub pending: Seq<u8>,
}

impl View for MftChunkReader {
    type V = ReaderView;

    open spec fn view(&self) -> ReaderView {
        ReaderView {
            run_index: self.run_index as int,
            in_run: self.in_run,
            disk_base: self.disk_base,
            run_offset: self.run_offset,
            bytes_to_process: self.bytes_to_process,
            records_seen: self.records_seen,
            stream_bytes_read: self.stream_bytes_read,
            pending: self.pending@,
        }
    }
}

pub open spec fn sat_add(a: u64, b: int) -> u64 {
    if a + b > u64::MAX { u64::MAX } else { (a + b) as u64 }
}

pub open spec fn sat_sub(a: u64, b: u64) -> u64 {
    if a < b { 0 } else { (a - b) as u64 }
}

pub open spec fn sat_mul(a: u64, b: u64) -> u64 {
    if a * b > u64::MAX { u64::MAX } else { (a * b) as u64 }
}

pub open spec fn min_u64(a: u64, b: u64) -> u64 {
    if a <= b { a } else { b }
}

/// One step of finding the next read.
pub enum ReaderStep {
    /// The search ends with this answer.
    Answer(Result<Option<ReadRequest>, NtfsError>, ReaderView),
    /// The search goes on from this state.
    Next(ReaderView),
}

/// One step from state `s`: inside a run, the next chunk of it while bytes
/// and records are left, else the run is done; outside a run, the next run:
/// nothing once the runs or the stream's bytes are exhausted; a sparse run
/// counts its records and bytes as seen and drops a cut-off record; any other
/// run starts at its first cluster, which must lie within `u64`.
pub open spec fn reader_step(s: ReaderView, runs: Seq<DataRun>, g: MftGeometry) -> ReaderStep {
    if s.in_run {
        if s.run_offset < s.bytes_to_process && s.records_seen < g.record_count {
            if s.disk_base + s.run_offset > u64::MAX {
                ReaderStep::Answer(Err(NtfsError::RunOffsetOverflow), s)
            } else {
                let len = min_u64((s.bytes_to_process - s.run_offset) as u64, MFT_CHUNK_BYTES);
                ReaderStep::Answer(Ok(Some(ReadRequest { offset: (s.disk_base + s.run_offset) as u64, len: len as usize })), s)
            }
        } else {
            ReaderStep::Next(ReaderView { in_run: false, run_index: s.run_index + 1, ..s })
        }
    } else if s.run_index >= runs.len() {
        ReaderStep::Answer(Ok(None), s)
    } else {
        let run = runs[s.run_index];
        let run_bytes = sat_mul(run.clusters, g.cluster_size);
        let remaining = sat_sub(g.data_size, s.stream_bytes_read);
        if remaining == 0 {
            ReaderStep::Answer(Ok(None), s)
        } else {
            let btp = min_u64(run_bytes, remaining);
            if run.lcn < 0 {
                ReaderStep::Next(ReaderView {
                    run_index: s.run_index + 1,
                    records_seen: sat_add(s.records_seen, (btp / (g.record_size as u64)) as int),
                    stream_bytes_read: sat_add(s.stream_bytes_read, btp as int),
                    pending: seq![],
                    ..s
                })
            } else if run.lcn * g.cluster_size > u64::MAX {
                ReaderStep::Answer(Err(NtfsError::RunOffsetOverflow), s)
            } else {
                ReaderStep::Next(ReaderView {
                    in_run: true,
                    disk_base: (run.lcn * g.cluster_size) as u64,
                    run_offset: 0,
                    bytes_to_process: btp,
                    ..s
                })
            }
        }
    }
}

/// How many steps the search can still take from `s`.
pub open spec fn steps_left(s: ReaderView, runs: Seq<DataRun>) -> int {
    2 * (runs.len() - s.run_index) + if s.in_run { 1int } else { 2int }
}

/// The answer of the search for the next read from `s`, and the state it
/// leaves behind.
pub open spec fn next_read_from(s: ReaderView, runs: Seq<DataRun>, g: MftGeometry, fuel: nat)
    -> (Result<Option<ReadRequest>, NtfsError>, ReaderView)
    decreases fuel,
{
    if fuel == 0 {
        (Ok(None), s)
    } else {
        match reader_step(s, runs, g) {
            ReaderStep::Answer(r, s2) => (r, s2),
            ReaderStep::Next(s2) => next_read_from(s2, runs, g, (fuel - 1) as nat),
        }
    }
}

/// The user records read from `buf` cut into records of `rs` bytes, the
/// first numbered `first` and the others in turn; a short tail is left out.
pub open spec fn chunk_records(buf: Seq<u8>, first: u64, rs: int, bps: int) -> Seq<ParsedRecordView>
    decreases buf.len(),
{
    if rs <= 0 || buf.len() < rs {
        seq![]
    } else {
        let rest = chunk_records(buf.skip(rs), (first + 1) as u64, rs, bps);
        match spec_parse_user(first, buf.take(rs), bps).1 {
            Some(r) => seq![r] + rest,
            None => rest,
        }
    }
}

/// How many whole records of `rs` bytes `len` bytes hold.
pub open spec fn whole_records(len: int, rs: int) -> int
    decreases len,
{
    if rs <= 0 || len < rs { 0 } else { 1 + whole_records(len - rs, rs) }
}

/// The bytes of `buf` after its whole records of `rs` bytes.
pub open spec fn chunk_tail(buf: Seq<u8>, rs: int) -> Seq<u8>
    decreases buf.len(),
{
    if rs <= 0 || buf.len() < rs { buf } else { chunk_tail(buf.skip(rs), rs) }
}

pub open spec fn record_views(v: Seq<ParsedRecord>) -> Seq<ParsedRecordView> {
    v.map_values(|r: ParsedRecord| r@)
}

proof fn lemma_whole_records_bound(len: int, rs: int)
    requires
        rs > 0,
        len >= 0,
    ensures
        0 <= whole_records(len, rs) <= len,
    decreases len,
{
    if len >= rs {
        lemma_whole_records_bound(len - rs, rs);
    }
}

impl MftChunkReader {
    /// A reader at the start of the stream.
    pub fn new() -> (r: Self)
        ensures
            r@ == reader_start(),
    {
        let r = MftChunkReader {
            run_index: 0,
            in_run: false,
            disk_base: 0,
            run_offset: 0,
            bytes_to_process: 0,
            records_seen: 0,
            stream_bytes_read: 0,
            pending: Vec::new(),
        };
        assert(r@.pending =~= Seq::<u8>::empty());
        r
    }

    /// Finds the next read (see [`reader_step`]), or `None` once the stream
    /// has been read.
    pub fn next_read(&mut self, runs: &Vec<DataRun>, g: MftGeometry) -> (r: Result<Option<ReadRequest>, NtfsError>)
        requires
            g.record_size > 0,
            reader_wf(old(self)@, runs@),
        ensures
            (r, final(self)@) == next_read_from(old(self)@, runs@, g, steps_left(old(self)@, runs@) as nat),
            reader_wf(final(self)@, runs@),
    {
        let ghost fuel0 = steps_left(self@, runs@) as nat;
        let ghost s0 = self@;
        loop
            invariant
                g.record_size > 0,
                reader_wf(self@, runs@),
                s0 == old(self)@,
                fuel0 == steps_left(s0, runs@) as nat,
                next_read_from(s0, runs@, g, fuel0) == next_read_from(self@, runs@, g, steps_left(self@, runs@) as nat),
            decreases steps_left(self@, runs@),
        {
            let ghost before = self@;
            proof {
                assert(next_read_from(before, runs@, g, steps_left(before, runs@) as nat) == match reader_step(before, runs@, g) {
                    ReaderStep::Answer(r, s2) => (r, s2),
                    ReaderStep::Next(s2) => next_read_from(s2, runs@, g, (steps_left(before, runs@) - 1) as nat),
                });
            }
            if self.in_run {
                if self.run_offset < self.bytes_to_process && self.records_seen < g.record_count {
                    let offset = match self.disk_base.checked_add(self.run_offset) {
                        Some(o) => o,
                        None => return Err(NtfsError::RunOffsetOverflow),
                    };
                    let left = self.bytes_to_process - self.run_offset;
                    let len = if left <= MFT_CHUNK_BYTES { left } else { MFT_CHUNK_BYTES };
                    return Ok(Some(ReadRequest { offset, len: len as usize }));
                }
                assert(self.run_index < runs.len());
                self.in_run = false;
                self.run_index = self.run_index + 1;
                proof { lemma_fuel_enough(self@, runs@, g, (steps_left(before, runs@) - 1) as nat); }
            } else {
                if self.run_index >= runs.len() {
                    return Ok(None);
                }
                let run = runs[self.run_index];
                let run_bytes = match run.clusters.checked_mul(g.cluster_size) { Some(v) => v, None => u64::MAX };
                let remaining = g.data_size.saturating_sub(self.stream_bytes_read);
                if remaining == 0 {
                    return Ok(None);
                }
                let btp = if run_bytes <= remaining { run_bytes } else { remaining };
                if run.lcn < 0 {
                    self.records_seen = self.records_seen.saturating_add(btp / (g.record_size as u64));
                    self.stream_bytes_read = self.stream_bytes_read.saturating_add(btp);
                    self.pending = Vec::new();
                    self.run_index = self.run_index + 1;
                    proof {
                        assert(self@.pending =~= Seq::<u8>::empty());
                        lemma_fuel_enough(self@, runs@, g, (steps_left(before, runs@) - 1) as nat);
                    }
                } else {
                    let base = match (run.lcn as u64).checked_mul(g.cluster_size) {
                        Some(b) => b,
                        None => return Err(NtfsError::RunOffsetOverflow),
                    };
                    self.in_run = true;
                    self.disk_base = base;
                    self.run_offset = 0;
                    self.bytes_to_process = btp;
                    proof { lemma_fuel_enough(self@, runs@, g, (steps_left(before, runs@) - 1) as nat); }
                }
            }
        }
    }

    /// Takes in the bytes of the last read: with the bytes a previous read
    /// cut off in front, the whole records among them are parsed (numbered
    /// from the records seen so far), and the rest is kept for the next read.
    pub fn take_chunk(&mut self, data: &[u8], record_size: usize, bytes_per_sector: usize) -> (r: Vec<ParsedRecord>)
        requires
            record_size > 0,
            old(self).records_seen + old(self).pending@.len() + data@.len() <= u64::MAX,
            old(self).pending@.len() + data@.len() <= usize::MAX,
        ensures
            ({
                let buf = old(self).pending@ + data@;
                &&& record_views(r@) == chunk_records(buf, old(self).records_seen, record_size as int, bytes_per_sector as int)
                &&& final(self).pending@ == chunk_tail(buf, record_size as int)
                &&& final(self).records_seen == old(self).records_seen + whole_records(buf.len() as int, record_size as int)
                &&& final(self).run_offset == sat_add(old(self).run_offset, data@.len() as int)
                &&& final(self).stream_bytes_read == sat_add(old(self).stream_bytes_read, data@.len() as int)
                &&& final(self).run_index == old(self).run_index
                &&& final(self).in_run == old(self).in_run
                &&& final(self).disk_base == old(self).disk_base
                &&& final(self).bytes_to_process == old(self).bytes_to_process
            }),
    {
        let mut buf: Vec<u8> = Vec::new();
        let mut i: usize = 0;
        while i < self.pending.len()
            invariant
                i <= self.pending@.len(),
                buf@ == self.pending@.take(i as int),
            decreases self.pending@.len() - i,
        {
            buf.push(self.pending[i]);
            i += 1;
            assert(buf@ =~= self.pending@.take(i as int));
        }
        let mut j: usize = 0;
        let ghost head = buf@;
        assert(head =~= self.pending@);
        while j < data.len()
            invariant
                j <= data@.len(),
                buf@ == head + data@.take(j as int),
            decreases data@.len() - j,
        {
            buf.push(data[j]);
            j += 1;
            assert(buf@ =~= head + data@.take(j as int));
        }
        assert(data@.take(j as int) =~= data@);
        let ghost all = buf@;
        let first = self.records_seen;
        proof { lemma_whole_records_bound(all.len() as int, record_size as int); }
        let (out, pos, count) = parse_whole_records(&buf, first, record_size, bytes_per_sector);
        let mut tail: Vec<u8> = Vec::new();
        let mut t: usize = pos;
        while t < buf.len()
            invariant
                pos <= t <= buf@.len(),
                buf@ == all,
                tail@ == all.subrange(pos as int, t as int),
            decreases buf@.len() - t,
        {
            tail.push(buf[t]);
            t += 1;
            assert(tail@ =~= all.subrange(pos as int, t as int));
        }
        assert(tail@ =~= all.skip(pos as int));
        let n = data.len() as u64;
        self.pending = tail;
        self.records_seen = first + count;
        self.run_offset = self.run_offset.saturating_add(n);
        self.stream_bytes_read = self.stream_bytes_read.saturating_add(n);
        out
    }
}

/// Whether a reader's position fits the runs: its run index lies within
/// them, and strictly so while it is inside a run.
pub open spec fn reader_wf(s: ReaderView, runs: Seq<DataRun>) -> bool {
    &&& 0 <= s.run_index <= runs.len()
    &&& s.in_run ==> s.run_index < runs.len()
}

proof fn lemma_fuel_enough(s: ReaderView, runs: Seq<DataRun>, g: MftGeometry, fuel: nat)
    requires
        reader_wf(s, runs),
        fuel >= steps_left(s, runs),
    ensures
        next_read_from(s, runs, g, fuel) == next_read_from(s, runs, g, steps_left(s, runs) as nat),
    decreases fuel,
{
    match reader_step(s, runs, g) {
        ReaderStep::Answer(r, s2) => {},
        ReaderStep::Next(s2) => {
            assert(reader_wf(s2, runs));
            assert(steps_left(s2, runs) <= steps_left(s, runs) - 1);
            lemma_fuel_enough(s2, runs, g, (fuel - 1) as nat);
            lemma_fuel_enough(s2, runs, g, (steps_left(s, runs) - 1) as nat);
        },
    }
}

/// The user records among the whole records of `rs` bytes at the start of
/// `buf`, numbered from `first`; where its tail starts; and how many whole
/// records there are.
fn parse_whole_records(buf: &Vec<u8>, first: u64, record_size: usize, bytes_per_sector: usize)
    -> (r: (Vec<ParsedRecord>, usize, u64))
    requires
        record_size > 0,
        first + whole_records(buf@.len() as int, record_size as int) <= u64::MAX,
    ensures
        record_views(r.0@) == chunk_records(buf@, first, record_size as int, bytes_per_sector as int),
        r.1 <= buf@.len(),
        buf@.skip(r.1 as int) == chunk_tail(buf@, record_size as int),
        r.2 == whole_records(buf@.len() as int, record_size as int),
{
    let ghost all = buf@;
    let mut out: Vec<ParsedRecord> = Vec::new();
    let mut pos: usize = 0;
    let mut count: u64 = 0;
    assert(all.skip(0) =~= all);
    while buf.len() - pos >= record_size
        invariant
            pos <= buf@.len(),
            buf@ == all,
            record_size > 0,
            count + whole_records((all.len() - pos) as int, record_size as int) == whole_records(all.len() as int, record_size as int),
            first + whole_records(all.len() as int, record_size as int) <= u64::MAX,
            record_views(out@) + chunk_records(all.skip(pos as int), (first + count) as u64, record_size as int, bytes_per_sector as int)
                == chunk_records(all, first, record_size as int, bytes_per_sector as int),
            chunk_tail(all.skip(pos as int), record_size as int) == chunk_tail(all, record_size as int),
        decreases buf@.len() - pos,
    {
        let ghost rest = all.skip(pos as int);
        proof { lemma_whole_records_bound((all.len() - pos - record_size) as int, record_size as int); }
        assert(whole_records((all.len() - pos) as int, record_size as int)
            == 1 + whole_records((all.len() - pos - record_size) as int, record_size as int));
        let mut rec: Vec<u8> = Vec::new();
        let mut k: usize = 0;
        while k < record_size
            invariant
                k <= record_size,
                pos + record_size <= buf@.len(),
                buf@.len() == buf.len(),
                rec@ == buf@.subrange(pos as int, pos + k),
            decreases record_size - k,
        {
            rec.push(buf[pos + k]);
            k += 1;
            assert(rec@ =~= buf@.subrange(pos as int, pos + k));
        }
        assert(rec@ =~= rest.take(record_size as int));
        assert(rest.skip(record_size as int) =~= all.skip(pos + record_size));
        let parsed = parse_user_file_record(first + count, rec.as_mut_slice(), bytes_per_sector);
        let ghost before = out@;
        match parsed {
            Some(p) => {
                out.push(p);
                assert(record_views(out@) =~= record_views(before).push(p@));
                assert(record_views(before).push(p@) + chunk_records(all.skip(pos + record_size), (first + count + 1) as u64, record_size as int, bytes_per_sector as int)
                    =~= record_views(before) + (seq![p@] + chunk_records(all.skip(pos + record_size), (first + count + 1) as u64, record_size as int, bytes_per_sector as int)));
            },
            None => {},
        }
        pos = pos + record_size;
        count = count + 1;
    }
    assert(chunk_records(all.skip(pos as int), (first + count) as u64, record_size as int, bytes_per_sector as int) =~= Seq::<ParsedRecordView>::empty());
    assert(record_views(out@) + Seq::<ParsedRecordView>::empty() =~= record_views(out@));
    (out, pos, count)
}

/// The user records of a mapped region: whole records of `record_size`
/// bytes numbered from `first`; a short tail is left out.
pub fn parse_record_region(data: &[u8], first: u64, record_size: usize, bytes_per_sector: usize) -> (r: Vec<ParsedRecord>)
    requires
        record_size > 0,
        first + data@.len() <= u64::MAX,
    ensures
        record_views(r@) == chunk_records(data@, first, record_size as int, bytes_per_sector as int),
{
    let mut buf: Vec<u8> = Vec::new();
    let mut i: usize = 0;
    while i < data.len()
        invariant
            i <= data@.len(),
            buf@ == data@.take(i as int),
        decreases data@.len() - i,
    {
        buf.push(data[i]);
        i += 1;
        assert(buf@ =~= data@.take(i as int));
    }
    assert(buf@ =~= data@);
    proof { lemma_whole_records_bound(data@.len() as int, record_size as int); }
    let (out, _pos, _count) = parse_whole_records(&buf, first, record_size, bytes_per_sector);
    out
}

/// A stretch of a mapped volume holding whole $MFT records: `len` bytes at
/// byte `offset`, the first record numbered `first_record`.
#[derive(Debug, Clone, Copy, PartialEq, Eq, Structural)]
pub struct MappedRegion {
    pub offset: u64,
    pub len: u64,
    pub first_record: u64,
}

/// The regions of a mapped volume of `volume_len` bytes that hold the $MFT
/// records of runs `i..`, with `records_seen` records and `stream_read`
/// stream bytes behind: each run covers its clusters up to the end of the
/// stream; a sparse run only counts its records and bytes; any other run
/// gives the whole records that fit between its first cluster and the end of
/// the run or of the volume. A run whose start lies beyond `u64` or beyond
/// the volume is an error.
pub open spec fn mapped_plan(runs: Seq<DataRun>, g: MftGeometry, volume_len: u64, i: int, records_seen: u64, stream_read: u64)
    -> Result<Seq<MappedRegion>, NtfsError>
    decreases runs.len() - i,
{
    if i < 0 || i >= runs.len() {
        Ok(seq![])
    } else {
        let run = runs[i];
        let run_bytes = sat_mul(run.clusters, g.cluster_size);
        let remaining = sat_sub(g.data_size, stream_read);
        if remaining == 0 {
            Ok(seq![])
        } else {
            let btp = min_u64(run_bytes, remaining);
            if run.lcn < 0 {
                mapped_plan(runs, g, volume_len, i + 1,
                    sat_add(records_seen, (btp / (g.record_size as u64)) as int), sat_add(stream_read, btp as int))
            } else if run.lcn * g.cluster_size > u64::MAX {
                Err(NtfsError::RunOffsetOverflow)
            } else if run.lcn * g.cluster_size > volume_len {
                Err(NtfsError::RunOutsideVolume)
            } else {
                let off = (run.lcn * g.cluster_size) as u64;
                let end = if off + btp > volume_len { volume_len } else { (off + btp) as u64 };
                let n = ((end - off) as u64) / (g.record_size as u64);
                let region = MappedRegion { offset: off, len: (n * g.record_size) as u64, first_record: records_seen };
                match mapped_plan(runs, g, volume_len, i + 1, sat_add(records_seen, n as int), sat_add(stream_read, btp as int)) {
                    Ok(rest) => Ok(seq![region] + rest),
                    Err(e) => Err(e),
                }
            }
        }
    }
}

/// The regions of a mapped volume that hold the $MFT records (see [`mapped_plan`]).
pub fn plan_mapped_regions(runs: &Vec<DataRun>, g: MftGeometry, volume_len: u64) -> (r: Result<Vec<MappedRegion>, NtfsError>)
    requires
        g.record_size > 0,
    ensures
        match mapped_plan(runs@, g, volume_len, 0, 0, 0) {
            Ok(s) => r matches Ok(v) && v@ == s,
            Err(e) => r == Err::<Vec<MappedRegion>, NtfsError>(e),
        },
{
    let mut out: Vec<MappedRegion> = Vec::new();
    let mut records_seen: u64 = 0;
    let mut stream_read: u64 = 0;
    let mut i: usize = 0;
    let ghost whole = mapped_plan(runs@, g, volume_len, 0, 0, 0);
    while i < runs.len()
        invariant
            i <= runs@.len(),
            g.record_size > 0,
            whole == mapped_plan(runs@, g, volume_len, 0, 0, 0),
            whole == match mapped_plan(runs@, g, volume_len, i as int, records_seen, stream_read) {
                Ok(s) => Ok(out@ + s),
                Err(e) => Err(e),
            },
        ensures
            whole == Ok::<Seq<MappedRegion>, NtfsError>(out@),
        decreases runs@.len() - i,
    {
        let run = runs[i];
        let run_bytes = match run.clusters.checked_mul(g.cluster_size) { Some(v) => v, None => u64::MAX };
        let remaining = g.data_size.saturating_sub(stream_read);
        if remaining == 0 {
            assert(out@ + Seq::<MappedRegion>::empty() =~= out@);
            break;
        }
        let btp = if run_bytes <= remaining { run_bytes } else { remaining };
        if run.lcn < 0 {
            records_seen = records_seen.saturating_add(btp / (g.record_size as u64));
            stream_read = stream_read.saturating_add(btp);
        } else {
            let off = match (run.lcn as u64).checked_mul(g.cluster_size) {
                Some(o) => o,
                None => return Err(NtfsError::RunOffsetOverflow),
            };
            if off > volume_len {
                return Err(NtfsError::RunOutsideVolume);
            }
            let end = match off.checked_add(btp) {
                Some(e) => if e > volume_len { volume_len } else { e },
                None => volume_len,
            };
            let n = (end - off) / (g.record_size as u64);
            proof {
                let rs = g.record_size as int;
                let span = (end - off) as int;
                assert(n * rs <= span) by (nonlinear_arith)
                    requires rs > 0, n as int == span / rs, span >= 0;
            }
            let len = n * (g.record_size as u64);
            let region = MappedRegion { offset: off, len, first_record: records_seen };
            let ghost before = out@;
            out.push(region);
            proof {
                let rest = mapped_plan(runs@, g, volume_len, i + 1, sat_add(records_seen, n as int), sat_add(stream_read, btp as int));
                match rest {
                    Ok(s) => { assert(before + (seq![region] + s) =~= out@ + s); },
                    Err(e) => {},
                }
            }
            records_seen = records_seen.saturating_add(n);
            stream_read = stream_read.saturating_add(btp);
        }
        i += 1;
    }
    Ok(out)
}

/// The byte offset of $MFT record 0: the $MFT's first cluster times the
/// cluster size.
pub fn mft_record0_offset(boot: &NtfsBoot) -> (r: Result<u64, NtfsError>)
    ensures
        boot.mft_lcn * boot.cluster_size <= u64::MAX ==> r == Ok::<u64, NtfsError>((boot.mft_lcn * boot.cluster_size) as u64),
        boot.mft_lcn * boot.cluster_size > u64::MAX ==> r == Err::<u64, NtfsError>(NtfsError::MftOffsetOverflow),
{
    match boot.mft_lcn.checked_mul(boot.cluster_size) {
        Some(o) => Ok(o),
        None => Err(NtfsError::MftOffsetOverflow),
    }
}

/// The geometry of reading the $MFT stream `mft` of the volume `boot`
/// describes: as many records as whole records fit in its data size.
pub fn mft_geometry(boot: &NtfsBoot, mft: &MftStream) -> (g: MftGeometry)
    requires
        boot.file_record_size > 0,
    ensures
        g.data_size == mft.data_size,
        g.cluster_size == boot.cluster_size,
        g.record_size == boot.file_record_size,
        g.record_count == mft.data_size / (boot.file_record_size as u64),
{
    MftGeometry {
        data_size: mft.data_size,
        cluster_size: boot.cluster_size,
        record_size: boot.file_record_size,
        record_count: mft.data_size / (boot.file_record_size as u64),
    }
}

// ---------------------------------------------------------------------------
// Reading the whole stream

proof fn lemma_whole_mono(x: int, y: int, rs: int)
    requires
        rs > 0,
        0 <= x <= y,
    ensures
        whole_records(x, rs) <= whole_records(y, rs),
    decreases x,
{
    if x >= rs {
        lemma_whole_mono(x - rs, y - rs, rs);
    } else if y >= rs {
        lemma_whole_records_bound(y - rs, rs);
    }
}

/// Records cut across two reads: the records of `a + b` are those of `a`,
/// then those of the tail `a` leaves joined to `b`, numbered on.
pub proof fn lemma_chunk_split(a: Seq<u8>, b: Seq<u8>, first: u64, rs: int, bps: int)
    requires
        rs > 0,
        first + whole_records((a.len() + b.len()) as int, rs) <= u64::MAX,
    ensures
        chunk_records(a + b, first, rs, bps) == chunk_records(a, first, rs, bps)
            + chunk_records(chunk_tail(a, rs) + b, (first + whole_records(a.len() as int, rs)) as u64, rs, bps),
        chunk_tail(a + b, rs) == chunk_tail(chunk_tail(a, rs) + b, rs),
        whole_records((a.len() + b.len()) as int, rs)
            == whole_records(a.len() as int, rs) + whole_records((chunk_tail(a, rs) + b).len() as int, rs),
    decreases a.len(),
{
    if a.len() < rs {
        assert(chunk_records(a, first, rs, bps) =~= Seq::<ParsedRecordView>::empty());
        assert(chunk_records(a, first, rs, bps) + chunk_records(chunk_tail(a, rs) + b, first, rs, bps)
            =~= chunk_records(a + b, first, rs, bps));
    } else {
        let a2 = a.skip(rs);
        assert((a + b).take(rs) =~= a.take(rs));
        assert((a + b).skip(rs) =~= a2 + b);
        assert(whole_records((a.len() + b.len()) as int, rs) == 1 + whole_records((a2.len() + b.len()) as int, rs));
        lemma_chunk_split(a2, b, (first + 1) as u64, rs, bps);
        let head = match spec_parse_user(first, a.take(rs), bps).1 {
            Some(r) => seq![r],
            None => Seq::<ParsedRecordView>::empty(),
        };
        assert(chunk_records(a + b, first, rs, bps) =~= head + chunk_records(a2 + b, (first + 1) as u64, rs, bps));
        assert(chunk_records(a, first, rs, bps) =~= head + chunk_records(a2, (first + 1) as u64, rs, bps));
        assert(a2.len() == a.len() - rs);
        assert(whole_records(a.len() as int, rs) == 1 + whole_records(a2.len() as int, rs));
        lemma_whole_mono(a2.len() as int, (a2.len() + b.len()) as int, rs);
        lemma_whole_records_bound(a2.len() as int, rs);
        assert(((first + 1) as u64 + whole_records(a2.len() as int, rs)) as u64 == (first + whole_records(a.len() as int, rs)) as u64);
        assert(head + chunk_records(a2 + b, (first + 1) as u64, rs, bps) =~= head + (chunk_records(a2, (first + 1) as u64, rs, bps)
            + chunk_records(chunk_tail(a2, rs) + b, (first + whole_records(a.len() as int, rs)) as u64, rs, bps)));
    }
}

proof fn lemma_tail_short(buf: Seq<u8>, rs: int)
    requires
        rs > 0,
    ensures
        chunk_tail(buf, rs).len() < rs,
        whole_records(buf.len() as int, rs) + chunk_tail(buf, rs).len() <= buf.len(),
    decreases buf.len(),
{
    if buf.len() >= rs {
        lemma_tail_short(buf.skip(rs), rs);
    }
}

/// The bytes of run `i` that the stream holds when `read` stream bytes come
/// before it: as many as the run covers, no more than the stream has left.
pub open spec fn run_span(runs: Seq<DataRun>, g: MftGeometry, i: int, read: u64) -> u64 {
    min_u64(sat_mul(runs[i].clusters, g.cluster_size), sat_sub(g.data_size, read))
}

/// Where run `i` starts on the volume, in bytes.
pub open spec fn run_base(runs: Seq<DataRun>, g: MftGeometry, i: int) -> int {
    runs[i].lcn * g.cluster_size
}

/// Whether no run is sparse and every run starts within `u64`.
pub open spec fn runs_placed(runs: Seq<DataRun>, g: MftGeometry) -> bool {
    forall|j: int| 0 <= j < runs.len() ==> (#[trigger] runs[j]).lcn >= 0 && run_base(runs, g, j) <= u64::MAX
}

/// Whether the stream bytes of runs `i..`, after `read` stream bytes, lie
/// within the volume bytes `disk` and end within `u64`.
pub open spec fn runs_in_disk(runs: Seq<DataRun>, g: MftGeometry, disk: Seq<u8>, i: int, read: u64) -> bool
    decreases runs.len() - i,
{
    if i < 0 || i >= runs.len() || sat_sub(g.data_size, read) == 0 {
        true
    } else {
        let span = run_span(runs, g, i, read);
        &&& run_base(runs, g, i) + span <= disk.len()
        &&& run_base(runs, g, i) + span <= u64::MAX
        &&& runs_in_disk(runs, g, disk, i + 1, sat_add(read, span as int))
    }
}

/// The stream bytes of runs `i..` read from the volume bytes `disk`, after
/// `read` stream bytes: each run's bytes in turn, until the stream's size.
pub open spec fn stream_from(runs: Seq<DataRun>, g: MftGeometry, disk: Seq<u8>, i: int, read: u64) -> Seq<u8>
    decreases runs.len() - i,
{
    if i < 0 || i >= runs.len() || sat_sub(g.data_size, read) == 0 {
        seq![]
    } else {
        let span = run_span(runs, g, i, read);
        let base = run_base(runs, g, i);
        disk.subrange(base, base + span) + stream_from(runs, g, disk, i + 1, sat_add(read, span as int))
    }
}

/// The $MFT stream that the runs `runs` place on the volume bytes `disk`.
pub open spec fn mft_stream(runs: Seq<DataRun>, g: MftGeometry, disk: Seq<u8>) -> Seq<u8> {
    stream_from(runs, g, disk, 0, 0)
}

/// The stream bytes a reader in state `s` has still to read.
pub open spec fn left_to_read(s: ReaderView, runs: Seq<DataRun>, g: MftGeometry, disk: Seq<u8>) -> Seq<u8> {
    if s.in_run {
        let base = s.disk_base as int;
        disk.subrange(base + s.run_offset, base + s.bytes_to_process)
            + stream_from(runs, g, disk, s.run_index + 1, (s.stream_bytes_read + (s.bytes_to_process - s.run_offset)) as u64)
    } else {
        stream_from(runs, g, disk, s.run_index, s.stream_bytes_read)
    }
}

/// A reader reading the stream as it lies on `disk`: inside a run, its
/// position follows the run; the records it has seen, the bytes it keeps and
/// those left fit the record count and `u64`.
pub open spec fn reading_normally(s: ReaderView, runs: Seq<DataRun>, g: MftGeometry, disk: Seq<u8>) -> bool {
    let left = left_to_read(s, runs, g, disk);
    &&& if s.in_run {
        let i = s.run_index;
        let start = s.stream_bytes_read - s.run_offset;
        &&& s.run_offset <= s.bytes_to_process
        &&& s.run_offset <= s.stream_bytes_read
        &&& s.disk_base == run_base(runs, g, i)
        &&& s.bytes_to_process == run_span(runs, g, i, start as u64)
        &&& s.disk_base + s.bytes_to_process <= disk.len()
        &&& s.disk_base + s.bytes_to_process <= u64::MAX
        &&& start + s.bytes_to_process <= u64::MAX
        &&& runs_in_disk(runs, g, disk, i + 1, (start + s.bytes_to_process) as u64)
    } else {
        runs_in_disk(runs, g, disk, s.run_index, s.stream_bytes_read)
    }
    &&& s.records_seen + whole_records((s.pending.len() + left.len()) as int, g.record_size as int) <= g.record_count
    &&& s.records_seen + s.pending.len() + left.len() <= u64::MAX
}

/// What every reader state of a whole read keeps true.
pub open spec fn reader_ok(s: ReaderView, runs: Seq<DataRun>, g: MftGeometry) -> bool {
    &&& reader_wf(s, runs)
    &&& g.record_size > 0
    &&& s.pending.len() < g.record_size
    &&& runs_placed(runs, g)
}

/// The search for the next read from a reader reading normally finds either
/// the end, where nothing it still holds or has to read makes a record, or a
/// read at its position inside a run, with nothing lost on the way; from a
/// reader that has seen all records, it finds the end.
proof fn lemma_next_read_facts(s: ReaderView, runs: Seq<DataRun>, g: MftGeometry, disk: Seq<u8>, f: nat)
    requires
        reader_ok(s, runs, g),
        reading_normally(s, runs, g, disk) || s.records_seen >= g.record_count,
        f >= steps_left(s, runs),
    ensures
        ({
            let (r, s1) = next_read_from(s, runs, g, f);
            let rs = g.record_size as int;
            &&& r is Ok
            &&& s.records_seen >= g.record_count ==> r == Ok::<Option<ReadRequest>, NtfsError>(None)
            &&& (reading_normally(s, runs, g, disk) && r == Ok::<Option<ReadRequest>, NtfsError>(None)) ==>
                    (s.pending + left_to_read(s, runs, g, disk)).len() < rs
            &&& r matches Ok(Some(req)) ==> {
                &&& reader_ok(s1, runs, g)
                &&& reading_normally(s1, runs, g, disk)
                &&& s1.in_run
                &&& s1.run_offset < s1.bytes_to_process
                &&& req.offset == s1.disk_base + s1.run_offset
                &&& req.len as int == min_u64((s1.bytes_to_process - s1.run_offset) as u64, MFT_CHUNK_BYTES)
                &&& s1.pending == s.pending
                &&& s1.records_seen == s.records_seen
                &&& left_to_read(s1, runs, g, disk) == left_to_read(s, runs, g, disk)
            }
        }),
    decreases f,
{
    let rs = g.record_size as int;
    let normal = reading_normally(s, runs, g, disk);
    let left = left_to_read(s, runs, g, disk);
    if normal && s.records_seen >= g.record_count {
        lemma_whole_records_bound((s.pending.len() + left.len()) as int, rs);
        if (s.pending.len() + left.len()) as int >= rs {
            lemma_whole_records_bound((s.pending.len() + left.len()) as int - rs, rs);
            assert(whole_records((s.pending.len() + left.len()) as int, rs) >= 1);
        }
    }
    assert(f > 0);
    match reader_step(s, runs, g) {
        ReaderStep::Answer(r, s2) => {
            if s.in_run {
            } else if s.run_index >= runs.len() {
                if normal {
                    assert(left =~= Seq::<u8>::empty());
                    assert(s.pending + left =~= s.pending);
                }
            } else {
                let run = runs[s.run_index];
                assert(run.lcn >= 0 && run_base(runs, g, s.run_index) <= u64::MAX);
                if normal {
                    assert(left =~= Seq::<u8>::empty());
                    assert(s.pending + left =~= s.pending);
                }
            }
        },
        ReaderStep::Next(s2) => {
            assert(steps_left(s2, runs) <= steps_left(s, runs) - 1);
            if s.in_run {
                // the run is over, or all records are seen
                if normal && s.run_offset == s.bytes_to_process {
                    assert(disk.subrange(s.disk_base + s.run_offset, s.disk_base + s.bytes_to_process) =~= Seq::<u8>::empty());
                    assert(left_to_read(s2, runs, g, disk) =~= left);
                    lemma_next_read_facts(s2, runs, g, disk, (f - 1) as nat);
                } else {
                    assert(s.records_seen >= g.record_count);
                    assert(s2.records_seen >= g.record_count);
                    lemma_next_read_facts(s2, runs, g, disk, (f - 1) as nat);
                }
            } else {
                let i = s.run_index;
                let run = runs[i];
                assert(run.lcn >= 0 && run_base(runs, g, i) <= u64::MAX);
                if normal {
                    let read = s.stream_bytes_read;
                    let span = run_span(runs, g, i, read);
                    assert(s2.bytes_to_process == span);
                    assert(left_to_read(s2, runs, g, disk) =~= left);
                    assert(reading_normally(s2, runs, g, disk));
                }
                lemma_next_read_facts(s2, runs, g, disk, (f - 1) as nat);
            }
        },
    }
}

/// A reader at the start of the stream.
pub open spec fn reader_start() -> ReaderView {
    ReaderView {
        run_index: 0,
        in_run: false,
        disk_base: 0,
        run_offset: 0,
        bytes_to_process: 0,
        records_seen: 0,
        stream_bytes_read: 0,
        pending: seq![],
    }
}

/// The reader after [`MftChunkReader::take_chunk`] took in the read bytes
/// `data` (see its contract).
pub open spec fn chunk_after(s: ReaderView, data: Seq<u8>, rs: int) -> ReaderView {
    let buf = s.pending + data;
    ReaderView {
        pending: chunk_tail(buf, rs),
        records_seen: (s.records_seen + whole_records(buf.len() as int, rs)) as u64,
        run_offset: sat_add(s.run_offset, data.len() as int),
        stream_bytes_read: sat_add(s.stream_bytes_read, data.len() as int),
        ..s
    }
}

/// The records a whole read of the volume bytes `disk` gives from reader
/// state `s`, in at most `fuel` reads: the next read is found by
/// [`MftChunkReader::next_read`]; its bytes are taken from `disk` and handed
/// to [`MftChunkReader::take_chunk`], whose records come first; the read
/// ends when no read is left, and fails with the first error.
pub open spec fn read_all(s: ReaderView, runs: Seq<DataRun>, g: MftGeometry, disk: Seq<u8>, bps: int, fuel: nat)
    -> Result<Seq<ParsedRecordView>, NtfsError>
    decreases fuel,
{
    if fuel == 0 {
        Ok(seq![])
    } else {
        let (r, s1) = next_read_from(s, runs, g, steps_left(s, runs) as nat);
        match r {
            Err(e) => Err(e),
            Ok(None) => Ok(seq![]),
            Ok(Some(req)) => {
                let rs = g.record_size as int;
                let data = disk.subrange(req.offset as int, req.offset + req.len);
                let recs = chunk_records(s1.pending + data, s1.records_seen, rs, bps);
                match read_all(chunk_after(s1, data, rs), runs, g, disk, bps, (fuel - 1) as nat) {
                    Ok(rest) => Ok(recs + rest),
                    Err(e) => Err(e),
                }
            },
        }
    }
}

/// Whether, in at most `fuel` reads of a whole read from `s` (see
/// [`read_all`]), each call of [`MftChunkReader::next_read`] and
/// [`MftChunkReader::take_chunk`] meets its precondition.
pub open spec fn reads_fit(s: ReaderView, runs: Seq<DataRun>, g: MftGeometry, disk: Seq<u8>, fuel: nat) -> bool
    decreases fuel,
{
    if fuel == 0 {
        true
    } else {
        let (r, s1) = next_read_from(s, runs, g, steps_left(s, runs) as nat);
        &&& reader_wf(s, runs)
        &&& g.record_size > 0
        &&& match r {
            Ok(Some(req)) => {
                let data = disk.subrange(req.offset as int, req.offset + req.len);
                &&& s1.records_seen + s1.pending.len() + data.len() <= u64::MAX
                &&& s1.pending.len() + data.len() <= usize::MAX
                &&& reads_fit(chunk_after(s1, data, g.record_size as int), runs, g, disk, (fuel - 1) as nat)
            },
            _ => true,
        }
    }
}

proof fn lemma_read_all(s: ReaderView, runs: Seq<DataRun>, g: MftGeometry, disk: Seq<u8>, bps: int, fuel: nat)
    requires
        reader_ok(s, runs, g),
        reading_normally(s, runs, g, disk),
        fuel > left_to_read(s, runs, g, disk).len(),
    ensures
        read_all(s, runs, g, disk, bps, fuel)
            == Ok::<Seq<ParsedRecordView>, NtfsError>(chunk_records(s.pending + left_to_read(s, runs, g, disk),
                s.records_seen, g.record_size as int, bps)),
        s.pending.len() + left_to_read(s, runs, g, disk).len() <= usize::MAX ==> reads_fit(s, runs, g, disk, fuel),
    decreases fuel,
{
    let rs = g.record_size as int;
    let left = left_to_read(s, runs, g, disk);
    lemma_next_read_facts(s, runs, g, disk, steps_left(s, runs) as nat);
    let (r, s1) = next_read_from(s, runs, g, steps_left(s, runs) as nat);
    match r {
        Err(e) => {},
        Ok(None) => {
            assert(chunk_records(s.pending + left, s.records_seen, rs, bps) =~= Seq::<ParsedRecordView>::empty());
        },
        Ok(Some(req)) => {
            let off = s1.run_offset;
            let btp = s1.bytes_to_process;
            let base = s1.disk_base as int;
            let len = req.len as int;
            let data = disk.subrange(req.offset as int, req.offset + req.len);
            let s2 = chunk_after(s1, data, rs);
            let a = s1.pending + data;
            let rest = stream_from(runs, g, disk, s1.run_index + 1, (s1.stream_bytes_read + (btp - off)) as u64);
            assert(1 <= len <= btp - off);
            assert(data.len() == len);
            assert(s2.run_offset == off + len);
            assert(s2.stream_bytes_read == s1.stream_bytes_read + len);
            let left1 = left_to_read(s1, runs, g, disk);
            let left2 = left_to_read(s2, runs, g, disk);
            assert(left1 == disk.subrange(base + off, base + btp) + rest);
            assert(left2 =~= disk.subrange(base + off + len, base + btp) + rest);
            assert(left1 =~= data + left2);
            assert(s1.pending + left1 =~= a + left2);
            lemma_chunk_split(a, left2, s1.records_seen, rs, bps);
            lemma_tail_short(a, rs);
            let tb = chunk_tail(a, rs) + left2;
            lemma_whole_records_bound(tb.len() as int, rs);
            lemma_whole_records_bound(a.len() as int, rs);
            assert(a.len() + left2.len() == (s1.pending + left1).len());
            assert(s2.records_seen == s1.records_seen + whole_records(a.len() as int, rs));
            assert(s2.records_seen + whole_records(tb.len() as int, rs) <= g.record_count);
            assert(s2.pending.len() + left2.len() == tb.len());
            assert(reading_normally(s2, runs, g, disk));
            assert(reader_ok(s2, runs, g));
            lemma_read_all(s2, runs, g, disk, bps, (fuel - 1) as nat);
            assert(chunk_records(a, s1.records_seen, rs, bps) + chunk_records(s2.pending + left2, s2.records_seen, rs, bps)
                == chunk_records(s.pending + left, s.records_seen, rs, bps));
            assert(s1.records_seen + s1.pending.len() + data.len() <= u64::MAX);
        },
    }
}

proof fn lemma_stream_len(runs: Seq<DataRun>, g: MftGeometry, disk: Seq<u8>, i: int, read: u64)
    requires
        runs_placed(runs, g),
        runs_in_disk(runs, g, disk, i, read),
    ensures
        stream_from(runs, g, disk, i, read).len() <= sat_sub(g.data_size, read),
    decreases runs.len() - i,
{
    if !(i < 0 || i >= runs.len() || sat_sub(g.data_size, read) == 0) {
        let span = run_span(runs, g, i, read);
        assert(runs[i].lcn >= 0 && run_base(runs, g, i) <= u64::MAX);
        assert(run_base(runs, g, i) >= 0) by (nonlinear_arith)
            requires runs[i].lcn >= 0, g.cluster_size >= 0, run_base(runs, g, i) == runs[i].lcn * g.cluster_size;
        lemma_stream_len(runs, g, disk, i + 1, sat_add(read, span as int));
    }
}

/// Law: a whole read of an $MFT stream, asking [`MftChunkReader::next_read`]
/// for each read and handing its bytes to [`MftChunkReader::take_chunk`],
/// gives every user record among the stream's whole records exactly once, in
/// order, numbered by its position in the stream, also where a record is cut
/// across two reads or two runs. This holds where no run is sparse and every
/// run starts within `u64`, the stream lies within the volume bytes `disk`,
/// the record count covers the stream's whole records, and the read may take
/// more reads than the stream has bytes. Where the stream's length fits a
/// `usize`, every call on the way meets its precondition.
pub proof fn law_stream_records(runs: Seq<DataRun>, g: MftGeometry, disk: Seq<u8>, bps: int, fuel: nat)
    requires
        g.record_size > 0,
        runs_placed(runs, g),
        runs_in_disk(runs, g, disk, 0, 0),
        whole_records(mft_stream(runs, g, disk).len() as int, g.record_size as int) <= g.record_count,
        fuel > mft_stream(runs, g, disk).len(),
    ensures
        read_all(reader_start(), runs, g, disk, bps, fuel)
            == Ok::<Seq<ParsedRecordView>, NtfsError>(chunk_records(mft_stream(runs, g, disk), 0, g.record_size as int, bps)),
        mft_stream(runs, g, disk).len() <= usize::MAX ==> reads_fit(reader_start(), runs, g, disk, fuel),
{
    let s = reader_start();
    lemma_stream_len(runs, g, disk, 0, 0);
    assert(left_to_read(s, runs, g, disk) == mft_stream(runs, g, disk));
    assert(s.pending + mft_stream(runs, g, disk) =~= mft_stream(runs, g, disk));
    lemma_read_all(s, runs, g, disk, bps, fuel);
}

} // verus!
