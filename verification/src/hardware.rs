//! Hardware descriptions assembled from the rows a system-information query
//! returns.
use vstd::prelude::*;
use crate::models::{BiosInfo, CpuInfo, GpuInfo, MotherboardInfo};
use crate::text::{chars_of, string_from_chars};

verus! {

/// The name of a processor architecture code.
pub open spec fn arch_name(arch: u16) -> Seq<char> {
    if arch == 0 {
        "x86"@
    } else if arch == 1 {
        "MIPS"@
    } else if arch == 2 {
        "Alpha"@
    } else if arch == 3 {
        "PowerPC"@
    } else if arch == 5 {
        "ARM"@
    } else if arch == 6 {
        "Itanium"@
    } else if arch == 9 {
        "x64"@
    } else if arch == 12 {
        "ARM64"@
    } else {
        "未知"@
    }
}

/// The name of a processor architecture code.
pub fn arch_to_string(arch: u16) -> (r: &'static str)
    ensures
        r@ == arch_name(arch),
{
    match arch {
        0 => "x86",
        1 => "MIPS",
        2 => "Alpha",
        3 => "PowerPC",
        5 => "ARM",
        6 => "Itanium",
        9 => "x64",
        12 => "ARM64",
        _ => "未知",
    }
}

/// The name of a memory type code.
pub open spec fn mem_type_name(mt: u16) -> Seq<char> {
    if mt == 20 {
        "DDR"@
    } else if mt == 21 {
        "DDR2"@
    } else if mt == 24 {
        "DDR3"@
    } else if mt == 26 {
        "DDR4"@
    } else if mt == 34 {
        "DDR5"@
    } else {
        "Unknown"@
    }
}

/// The name of a memory type code.
pub fn mem_type_to_string(mt: u16) -> (r: &'static str)
    ensures
        r@ == mem_type_name(mt),
{
    match mt {
        20 => "DDR",
        21 => "DDR2",
        24 => "DDR3",
        26 => "DDR4",
        34 => "DDR5",
        _ => "Unknown",
    }
}

/// The separators of the parts of a date: `/`, `-` and space.
pub open spec fn is_date_separator(c: char) -> bool {
    c == '/' || c == '-' || c == ' '
}

/// The parts of `s` between separators, empty parts included (so one part
/// more than there are separators).
pub open spec fn date_parts(s: Seq<char>) -> Seq<Seq<char>>
    decreases s.len(),
{
    if s.len() == 0 {
        seq![Seq::<char>::empty()]
    } else {
        let r = date_parts(s.drop_last());
        if is_date_separator(s.last()) {
            r.push(Seq::<char>::empty())
        } else {
            r.update(r.len() - 1, r.last().push(s.last()))
        }
    }
}

proof fn lemma_date_parts_nonempty(s: Seq<char>)
    ensures
        date_parts(s).len() >= 1,
    decreases s.len(),
{
    if s.len() > 0 {
        lemma_date_parts_nonempty(s.drop_last());
    }
}

/// The date shown for a firmware release date: `未知` when it is empty, its
/// first three parts joined by `-` when it has three or more, else the text.
pub open spec fn spec_extract_date(s: Seq<char>) -> Seq<char> {
    let p = date_parts(s);
    if s.len() == 0 {
        "未知"@
    } else if p.len() >= 3 {
        p[0] + seq!['-'] + p[1] + seq!['-'] + p[2]
    } else {
        s
    }
}

pub open spec fn part_views(parts: Seq<Vec<char>>) -> Seq<Seq<char>> {
    parts.map_values(|p: Vec<char>| p@)
}

/// The date shown for a firmware release date (see [`spec_extract_date`]).
pub fn extract_date(date_str: &str) -> (r: String)
    ensures
        r@ == spec_extract_date(date_str@),
{
    let cs = chars_of(date_str);
    if cs.len() == 0 {
        return "未知".to_owned();
    }
    let mut parts: Vec<Vec<char>> = Vec::new();
    parts.push(Vec::new());
    assert(part_views(parts@) =~= date_parts(cs@.take(0)));
    let mut i: usize = 0;
    while i < cs.len()
        invariant
            i <= cs@.len(),
            cs@ == date_str@,
            parts@.len() >= 1,
            part_views(parts@) == date_parts(cs@.take(i as int)),
        decreases cs@.len() - i,
    {
        let c = cs[i];
        let ghost before = part_views(parts@);
        assert(cs@.take(i + 1).drop_last() =~= cs@.take(i as int));
        if c == '/' || c == '-' || c == ' ' {
            parts.push(Vec::new());
            assert(part_views(parts@) =~= before.push(Seq::<char>::empty()));
        } else {
            let mut last = parts.pop().unwrap();
            last.push(c);
            parts.push(last);
            assert(part_views(parts@) =~= before.update(before.len() - 1, before.last().push(c)));
        }
        i += 1;
    }
    assert(cs@.take(i as int) =~= date_str@);
    if parts.len() >= 3 {
        let mut v: Vec<char> = Vec::new();
        let mut k: usize = 0;
        let ghost p = part_views(parts@);
        assert(p[0] == parts@[0]@);
        assert(p[1] == parts@[1]@);
        assert(p[2] == parts@[2]@);
        while k < 3
            invariant
                k <= 3,
                parts@.len() >= 3,
                p == part_views(parts@),
                k == 0 ==> v@ == Seq::<char>::empty(),
                k == 1 ==> v@ == p[0] + seq!['-'],
                k == 2 ==> v@ == p[0] + seq!['-'] + p[1] + seq!['-'],
                k == 3 ==> v@ == p[0] + seq!['-'] + p[1] + seq!['-'] + p[2],
            decreases 3 - k,
        {
            let ghost start = v@;
            let part = &parts[k];
            let mut j: usize = 0;
            while j < part.len()
                invariant
                    j <= part@.len(),
                    v@ == start + part@.take(j as int),
                decreases part@.len() - j,
            {
                v.push(part[j]);
                j += 1;
                assert(v@ =~= start + part@.take(j as int));
            }
            assert(part@.take(j as int) =~= part@);
            if k < 2 {
                v.push('-');
            }
            k += 1;
        }
        string_from_chars(&v)
    } else {
        date_str.to_owned()
    }
}

/// The processor row of a system-information query.
pub struct ProcessorRow {
    pub name: Option<String>,
    pub cores: Option<u32>,
    pub logical_processors: Option<u32>,
    pub max_clock_mhz: Option<u32>,
    pub architecture: Option<u16>,
    pub l2_cache_kb: Option<u32>,
    pub l3_cache_kb: Option<u32>,
}

/// A processor cache row of a system-information query.
pub struct CacheRow {
    pub level: Option<u32>,
    pub max_size_kb: Option<u32>,
}

/// The summed size of the level-1 caches among `caches[..k]`.
pub open spec fn l1_total(caches: Seq<CacheRow>, k: int) -> int
    decreases k,
{
    if k <= 0 {
        0
    } else {
        l1_total(caches, k - 1) + match (caches[k - 1].level, caches[k - 1].max_size_kb) {
            (Some(1), Some(s)) => s as int,
            _ => 0,
        }
    }
}

proof fn lemma_l1_total_monotone(caches: Seq<CacheRow>, j: int, k: int)
    requires
        j <= k,
    ensures
        l1_total(caches, j) <= l1_total(caches, k),
    decreases k - j,
{
    if j < k {
        lemma_l1_total_monotone(caches, j, k - 1);
    }
}

/// The text a missing name is shown as.
pub open spec fn unknown_text() -> Seq<char> {
    "未知"@
}

pub open spec fn text_or_unknown(s: Option<String>) -> Seq<char> {
    match s { Some(t) => t@, None => unknown_text() }
}

fn text_or_unknown_exec(s: &Option<String>) -> (r: String)
    ensures
        r@ == text_or_unknown(*s),
{
    match s {
        Some(t) => t.clone(),
        None => "未知".to_owned(),
    }
}

/// The processor description from the first processor row (a row naming an
/// unknown x64 processor where there is none) and the cache rows.
pub fn cpu_info(first: Option<&ProcessorRow>, caches: &Vec<CacheRow>) -> (r: CpuInfo)
    requires
        l1_total(caches@, caches@.len() as int) <= u32::MAX,
    ensures
        ({
            let l1 = l1_total(caches@, caches@.len() as int);
            &&& match first {
                Some(p) => {
                    &&& r.name@ == text_or_unknown(p.name)
                    &&& r.architecture@ == arch_name(match p.architecture { Some(a) => a, None => 9 })
                    &&& r.physical_cores == (match p.cores { Some(c) => c, None => 0 })
                    &&& r.logical_threads == (match p.logical_processors { Some(c) => c, None => 0 })
                    &&& r.frequency_mhz == (match p.max_clock_mhz { Some(c) => c, None => 0 })
                    &&& r.l2_cache_kb == p.l2_cache_kb
                    &&& r.l3_cache_kb == p.l3_cache_kb
                },
                None => {
                    &&& r.name@ == unknown_text()
                    &&& r.architecture@ == arch_name(9)
                    &&& r.physical_cores == 0
                    &&& r.logical_threads == 0
                    &&& r.frequency_mhz == 0
                    &&& r.l2_cache_kb == None::<u32>
                    &&& r.l3_cache_kb == None::<u32>
                },
            }
            &&& r.l1_cache_kb == (if l1 > 0 { Some(l1 as u32) } else { None })
        }),
{
    let mut l1: u32 = 0;
    let mut i: usize = 0;
    while i < caches.len()
        invariant
            i <= caches@.len(),
            l1_total(caches@, caches@.len() as int) <= u32::MAX,
            l1 == l1_total(caches@, i as int),
        decreases caches@.len() - i,
    {
        proof { lemma_l1_total_monotone(caches@, i + 1, caches@.len() as int); }
        match (caches[i].level, caches[i].max_size_kb) {
            (Some(1), Some(s)) => {
                l1 = l1 + s;
            },
            _ => {},
        }
        i += 1;
    }
    let l1_cache_kb = if l1 > 0 { Some(l1) } else { None };
    match first {
        Some(p) => CpuInfo {
            name: text_or_unknown_exec(&p.name),
            architecture: arch_to_string(match p.architecture { Some(a) => a, None => 9 }).to_owned(),
            physical_cores: match p.cores { Some(c) => c, None => 0 },
            logical_threads: match p.logical_processors { Some(c) => c, None => 0 },
            frequency_mhz: match p.max_clock_mhz { Some(c) => c, None => 0 },
            l1_cache_kb,
            l2_cache_kb: p.l2_cache_kb,
            l3_cache_kb: p.l3_cache_kb,
        },
        None => CpuInfo {
            name: "未知".to_owned(),
            architecture: arch_to_string(9).to_owned(),
            physical_cores: 0,
            logical_threads: 0,
            frequency_mhz: 0,
            l1_cache_kb,
            l2_cache_kb: None,
            l3_cache_kb: None,
        },
    }
}

/// A video controller row of a system-information query.
pub struct VideoRow {
    pub name: Option<String>,
    pub adapter_ram: Option<u64>,
    pub driver_version: Option<String>,
}

/// The graphics adapter description of a video controller row, its memory
/// in whole MiB.
pub fn gpu_info(row: &VideoRow) -> (r: GpuInfo)
    ensures
        r.name@ == text_or_unknown(row.name),
        r.vram_mb == (match row.adapter_ram { Some(b) => b, None => 0 }) / 1_048_576,
        r.driver_version@ == text_or_unknown(row.driver_version),
{
    GpuInfo {
        name: text_or_unknown_exec(&row.name),
        vram_mb: match row.adapter_ram { Some(b) => b, None => 0 } / 1_048_576,
        driver_version: text_or_unknown_exec(&row.driver_version),
    }
}

/// A baseboard row of a system-information query.
pub struct BoardRow {
    pub manufacturer: Option<String>,
    pub product: Option<String>,
}

/// The mainboard description from the first baseboard row, if any.
pub fn motherboard_info(first: Option<&BoardRow>) -> (r: MotherboardInfo)
    ensures
        match first {
            Some(b) => r.manufacturer@ == text_or_unknown(b.manufacturer) && r.product@ == text_or_unknown(b.product),
            None => r.manufacturer@ == unknown_text() && r.product@ == unknown_text(),
        },
{
    match first {
        Some(b) => MotherboardInfo {
            manufacturer: text_or_unknown_exec(&b.manufacturer),
            product: text_or_unknown_exec(&b.product),
        },
        None => MotherboardInfo { manufacturer: "未知".to_owned(), product: "未知".to_owned() },
    }
}

/// A firmware row of a system-information query.
pub struct BiosRow {
    pub manufacturer: Option<String>,
    pub version: Option<String>,
    pub release_date: Option<String>,
}

/// The firmware description from the first firmware row, if any; its
/// release date shown by [`extract_date`].
pub fn bios_info(first: Option<&BiosRow>) -> (r: BiosInfo)
    ensures
        first matches Some(b) ==> {
            &&& r.manufacturer@ == text_or_unknown(b.manufacturer)
            &&& r.version@ == text_or_unknown(b.version)
            &&& r.release_date@ == spec_extract_date(match b.release_date {
                Some(d) => d@,
                None => Seq::<char>::empty(),
            })
        },
        first is None ==> {
            &&& r.manufacturer@ == unknown_text()
            &&& r.version@ == unknown_text()
            &&& r.release_date@ == spec_extract_date(Seq::<char>::empty())
        },
{
    match first {
        Some(b) => {
            let date = match &b.release_date {
                Some(d) => extract_date(d.as_str()),
                None => {
                    proof { reveal_strlit(""); }
                    extract_date("")
                },
            };
            BiosInfo {
                manufacturer: text_or_unknown_exec(&b.manufacturer),
                version: text_or_unknown_exec(&b.version),
                release_date: date,
            }
        },
        None => {
            proof { reveal_strlit(""); }
            BiosInfo {
                manufacturer: "未知".to_owned(),
                version: "未知".to_owned(),
                release_date: extract_date(""),
            }
        },
    }
}

/// A physical memory row of a system-information query.
pub struct MemoryRow {
    pub device_locator: Option<String>,
    pub capacity: Option<u64>,
    pub memory_type: Option<u16>,
    pub speed: Option<u32>,
    pub manufacturer: Option<String>,
    pub part_number: Option<String>,
}

/// What a memory slot is described by, its capacity in bytes (shown in
/// GiB where it is displayed).
pub struct SlotFacts {
    pub slot: String,
    pub capacity_bytes: u64,
    pub memory_type: String,
    pub speed_mhz: u32,
    pub manufacturer: String,
    pub part_number: String,
}

/// The description of a memory slot from its row: unknown texts read `未知`,
/// a missing part number is empty, missing numbers are 0, and the memory
/// type is named by [`mem_type_to_string`].
pub fn ram_slot(row: &MemoryRow) -> (r: SlotFacts)
    ensures
        r.slot@ == text_or_unknown(row.device_locator),
        r.capacity_bytes == (match row.capacity { Some(c) => c, None => 0 }),
        r.memory_type@ == mem_type_name(match row.memory_type { Some(t) => t, None => 0 }),
        r.speed_mhz == (match row.speed { Some(v) => v, None => 0 }),
        r.manufacturer@ == text_or_unknown(row.manufacturer),
        r.part_number@ == (match row.part_number { Some(p) => p@, None => Seq::<char>::empty() }),
{
    let part_number = match &row.part_number {
        Some(p) => p.clone(),
        None => String::new(),
    };
    SlotFacts {
        slot: text_or_unknown_exec(&row.device_locator),
        capacity_bytes: match row.capacity { Some(c) => c, None => 0 },
        memory_type: mem_type_to_string(match row.memory_type { Some(t) => t, None => 0 }).to_owned(),
        speed_mhz: match row.speed { Some(v) => v, None => 0 },
        manufacturer: text_or_unknown_exec(&row.manufacturer),
        part_number,
    }
}

/// A battery row of a system-information query.
#[derive(Debug, Clone, Copy, PartialEq, Eq, Structural)]
pub struct BatteryRow {
    pub design_capacity: Option<u32>,
    pub full_charge_capacity: Option<u32>,
    pub cycle_count: Option<u32>,
}

/// What a battery is described by: whether there is one, its capacities in
/// mWh and cycle count as reported, and the full-charge and design
/// capacities whose ratio is its health, where both are known and the
/// design capacity is not 0 (its health is 0 otherwise).
#[derive(Debug, Clone, Copy)]
pub struct BatteryFacts {
    pub present: bool,
    pub design_capacity_mwh: Option<u32>,
    pub full_charge_capacity_mwh: Option<u32>,
    pub cycle_count: Option<u32>,
    pub health_ratio: Option<(u32, u32)>,
}

/// The battery description from the first battery row, if any.
pub fn battery_facts(first: Option<BatteryRow>) -> (r: BatteryFacts)
    ensures
        r == (match first {
            Some(b) => BatteryFacts {
                present: true,
                design_capacity_mwh: b.design_capacity,
                full_charge_capacity_mwh: b.full_charge_capacity,
                cycle_count: b.cycle_count,
                health_ratio: match (b.design_capacity, b.full_charge_capacity) {
                    (Some(d), Some(f)) => if d > 0 { Some((f, d)) } else { None },
                    _ => None,
                },
            },
            None => BatteryFacts {
                present: false,
                design_capacity_mwh: None,
                full_charge_capacity_mwh: None,
                cycle_count: None,
                health_ratio: None,
            },
        }),
{
    match first {
        Some(b) => {
            let health_ratio = match (b.design_capacity, b.full_charge_capacity) {
                (Some(d), Some(f)) => if d > 0 { Some((f, d)) } else { None },
                _ => None,
            };
            BatteryFacts {
                present: true,
                design_capacity_mwh: b.design_capacity,
                full_charge_capacity_mwh: b.full_charge_capacity,
                cycle_count: b.cycle_count,
                health_ratio,
            }
        },
        None => BatteryFacts {
            present: false,
            design_capacity_mwh: None,
            full_charge_capacity_mwh: None,
            cycle_count: None,
            health_ratio: None,
        },
    }
}

} // verus!
