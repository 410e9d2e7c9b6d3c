use std::sync::Arc;

use fastscan_mcp::drive::{
    add_fallback_warning, drive_root_from_input, looks_like_windows_drive_root, normalize_windows_root, plan_scan,
    trim_chars, volume_device_path, ScanPlan,
};
use fastscan_mcp::error::AppError;
use fastscan_mcp::hardware::{
    arch_to_string, bios_info, cpu_info, extract_date, gpu_info, mem_type_to_string, motherboard_info, BiosRow,
    BoardRow, CacheRow, ProcessorRow, VideoRow,
};
use fastscan_mcp::models::{ScanMode, ScanResult};
use fastscan_mcp::progress::{NoopCallback, ProgressCallback, ScanContext};
use fastscan_mcp::volume::{
    cluster_size_for_root, describe_windows_volume, drive_letter_root, drive_type_name, list_volumes,
    utf16z_to_string, VolumeNames,
};
use fastscan_mcp::{elevate, elevation};

#[test]
fn trims_unicode_white_space() {
    let t: String = trim_chars(" \t\u{3000}C:\\ \n").into_iter().collect();
    assert_eq!(t, "C:\\");
    let t: String = trim_chars("   ").into_iter().collect();
    assert_eq!(t, "");
}

#[test]
fn recognises_drive_roots() {
    assert!(looks_like_windows_drive_root("  c:"));
    assert!(looks_like_windows_drive_root("D:\\Users"));
    assert!(!looks_like_windows_drive_root("/home"));
    assert!(!looks_like_windows_drive_root("é:"));
    assert!(!looks_like_windows_drive_root("c"));
}

#[test]
fn normalises_windows_roots() {
    assert_eq!(normalize_windows_root(" d:\\temp "), "D:\\");
    assert_eq!(normalize_windows_root("  /mnt/data "), "/mnt/data");
}

#[test]
fn drive_roots_from_user_input() {
    assert_eq!(drive_root_from_input("c:\\").unwrap(), "C:\\");
    assert_eq!(drive_root_from_input("  \\\\.\\e:  ").unwrap(), "E:\\");
    assert_eq!(drive_root_from_input("x:/some/dir").unwrap(), "X:\\");
    assert_eq!(drive_root_from_input("/home").unwrap_err(), "NTFS MFT 模式只支持 Windows 盘符根路径，例如 C:\\");
    assert!(drive_root_from_input("\\\\.\\").is_err());
}

#[test]
fn device_paths_of_drive_roots() {
    assert_eq!(volume_device_path("c:\\").unwrap(), "\\\\.\\C:");
    assert_eq!(volume_device_path("Q:").unwrap(), "\\\\.\\Q:");
    assert_eq!(volume_device_path("/").unwrap_err(), "invalid Windows drive root: /");
}

#[test]
fn chooses_the_scanner() {
    assert_eq!(plan_scan(ScanMode::Walk, "C:\\", true), ScanPlan::Walk);
    assert_eq!(plan_scan(ScanMode::NtfsMft, "/", false), ScanPlan::Ntfs);
    assert_eq!(plan_scan(ScanMode::Auto, "C:\\", true), ScanPlan::NtfsThenWalk);
    assert_eq!(plan_scan(ScanMode::Auto, "C:\\", false), ScanPlan::Walk);
    assert_eq!(plan_scan(ScanMode::Auto, "/data", true), ScanPlan::Walk);
    assert_eq!(ScanMode::default(), ScanMode::Auto);
}

#[test]
fn fallback_warning_goes_first() {
    let mut r = ScanResult {
        root: "C:\\".to_string(),
        scanner: "walk".to_string(),
        elapsed_ms: 3,
        node_count: 1,
        file_count: 0,
        dir_count: 0,
        total_size: 0,
        total_allocated: 0,
        nodes: Vec::new(),
        warnings: vec!["later".to_string()],
    };
    add_fallback_warning(&mut r, "access denied");
    assert_eq!(r.warnings, vec![
        "NTFS MFT 快速模式不可用，已回退到兼容递归扫描。原因: access denied".to_string(),
        "later".to_string(),
    ]);
    assert_eq!(r.elapsed_ms, 3);
}

#[test]
fn volumes_without_drive_letters() {
    let v = list_volumes(1000, 400);
    assert_eq!(v.len(), 1);
    assert_eq!(v[0].root, "/");
    assert_eq!(v[0].display_name, "/");
    assert_eq!(v[0].fs_name, "");
    assert_eq!(v[0].drive_type, "Root");
    assert_eq!((v[0].total_bytes, v[0].available_bytes, v[0].cluster_size), (1000, 400, 4096));
    assert!(!v[0].ntfs_candidate);
}

#[test]
fn cluster_sizes_and_drive_types() {
    assert_eq!(cluster_size_for_root(Some((8, 512))), 4096);
    assert_eq!(cluster_size_for_root(Some((0, 512))), 4096);
    assert_eq!(cluster_size_for_root(Some((128, 4096))), 524_288);
    assert_eq!(cluster_size_for_root(None), 4096);
    assert_eq!(drive_type_name(3), "Fixed");
    assert_eq!(drive_type_name(2), "Removable");
    assert_eq!(drive_type_name(4), "Network");
    assert_eq!(drive_type_name(5), "CdRom");
    assert_eq!(drive_type_name(6), "RamDisk");
    assert_eq!(drive_type_name(0), "Unknown");
    assert_eq!(drive_letter_root('E'), "E:\\");
}

fn utf16z(s: &str, len: usize) -> Vec<u16> {
    let mut v: Vec<u16> = s.encode_utf16().collect();
    v.resize(len, 0);
    v
}

#[test]
fn nul_terminated_utf16() {
    assert_eq!(utf16z_to_string(&utf16z("Data", 16)), "Data");
    assert_eq!(utf16z_to_string(&[0x41, 0x42]), "AB");
    assert_eq!(utf16z_to_string(&[0, 0x41]), "");
    assert_eq!(utf16z_to_string(&[0xD800, 0x41, 0]), "\u{FFFD}A");
    assert_eq!(utf16z_to_string(&[0x4F60, 0x597D, 0]), "你好");
}

#[test]
fn describes_windows_volumes() {
    let names = VolumeNames { label: utf16z("System", 260), fs_name: utf16z("ntfs", 64) };
    let v = describe_windows_volume("C:\\", 3, 500, 100, Some(&names), 4096).unwrap();
    assert_eq!(v.display_name, "System (C:)");
    assert_eq!(v.fs_name, "ntfs");
    assert!(v.ntfs_candidate);
    assert_eq!(v.drive_type, "Fixed");
    let v = describe_windows_volume("D:\\", 2, 0, 0, None, 512).unwrap();
    assert_eq!(v.display_name, "D:\\");
    assert!(!v.ntfs_candidate);
    assert!(describe_windows_volume("E:\\", 1, 0, 0, None, 4096).is_none());
    assert!(describe_windows_volume("F:\\", 0, 0, 0, None, 4096).is_none());
}

#[test]
fn hardware_names() {
    assert_eq!(arch_to_string(9), "x64");
    assert_eq!(arch_to_string(12), "ARM64");
    assert_eq!(arch_to_string(4), "未知");
    assert_eq!(mem_type_to_string(26), "DDR4");
    assert_eq!(mem_type_to_string(34), "DDR5");
    assert_eq!(mem_type_to_string(0), "Unknown");
}

#[test]
fn firmware_dates() {
    assert_eq!(extract_date(""), "未知");
    assert_eq!(extract_date("2023/04/05 00:00:00"), "2023-04-05");
    assert_eq!(extract_date("20230405000000.000000+000"), "20230405000000.000000+000");
    assert_eq!(extract_date("a--b"), "a--b");
    assert_eq!(extract_date("1-2"), "1-2");
}

#[test]
fn hardware_descriptions() {
    let cpu = ProcessorRow {
        name: Some("Ryzen".to_string()),
        cores: Some(8),
        logical_processors: Some(16),
        max_clock_mhz: None,
        architecture: None,
        l2_cache_kb: Some(4096),
        l3_cache_kb: None,
    };
    let caches = vec![
        CacheRow { level: Some(1), max_size_kb: Some(256) },
        CacheRow { level: Some(2), max_size_kb: Some(4096) },
        CacheRow { level: Some(1), max_size_kb: Some(256) },
    ];
    let info = cpu_info(Some(&cpu), &caches);
    assert_eq!(info.name, "Ryzen");
    assert_eq!(info.architecture, "x64");
    assert_eq!((info.physical_cores, info.logical_threads, info.frequency_mhz), (8, 16, 0));
    assert_eq!(info.l1_cache_kb, Some(512));
    assert_eq!(info.l2_cache_kb, Some(4096));
    let none = cpu_info(None, &Vec::new());
    assert_eq!(none.name, "未知");
    assert_eq!(none.l1_cache_kb, None);
    let gpu = gpu_info(&VideoRow { name: None, adapter_ram: Some(4 * 1_048_576 + 5), driver_version: Some("31.0".to_string()) });
    assert_eq!((gpu.name.as_str(), gpu.vram_mb, gpu.driver_version.as_str()), ("未知", 4, "31.0"));
    let mb = motherboard_info(Some(&BoardRow { manufacturer: Some("ASUS".to_string()), product: None }));
    assert_eq!((mb.manufacturer.as_str(), mb.product.as_str()), ("ASUS", "未知"));
    let bios = bios_info(Some(&BiosRow { manufacturer: None, version: Some("1.2".to_string()), release_date: Some("2020-01-31".to_string()) }));
    assert_eq!((bios.manufacturer.as_str(), bios.version.as_str(), bios.release_date.as_str()), ("未知", "1.2", "2020-01-31"));
    assert_eq!(bios_info(None).release_date, "未知");
}

#[test]
fn elevation_outside_windows() {
    assert!(elevate::is_elevated());
    assert_eq!(elevate::elevate_self(8080), Err("此功能仅支持 Windows 平台".to_string()));
    assert!(!elevation::is_elevated());
    assert_eq!(elevation::restart_elevated(), Err("不支持的操作系统".to_string()));
}

#[test]
fn app_error_messages() {
    assert_eq!(AppError::NeedAdmin.message(), "需要管理员权限才能读取卷 MFT");
    assert_eq!(AppError::NotNtfs("D:\\".to_string()).message(), "卷 D:\\ 不是 NTFS 文件系统");
    assert_eq!(AppError::Internal("尚未扫描".to_string()).message(), "内部错误: 尚未扫描");
    assert_eq!(AppError::Win("x".to_string()).message(), "Windows API 错误: x");
}

#[test]
fn scan_context_carries_its_parts() {
    let cb: Arc<dyn ProgressCallback> = Arc::new(NoopCallback);
    let ctx = ScanContext::new(cb, 8192);
    assert_eq!(ctx.cluster_size, 8192);
    ctx.progress.emit("ntfs.mft", 1, Some(2), "half");
}

#[test]
fn elevated_restart_arguments_and_outcomes() {
    assert_eq!(elevate::elevation_params(3721), "--port 3721");
    assert_eq!(elevate::elevation_params(0), "--port 0");
    assert_eq!(elevate::elevation_outcome(42), Ok(()));
    assert_eq!(elevate::elevation_outcome(33), Ok(()));
    assert_eq!(elevate::elevation_outcome(32), Err("提权启动失败 (ShellExecute 返回 32)".to_string()));
    assert_eq!(elevate::elevation_outcome(5), Err("提权启动失败 (ShellExecute 返回 5)".to_string()));
    assert_eq!(elevate::elevation_outcome(-7), Err("提权启动失败 (ShellExecute 返回 -7)".to_string()));
    assert_eq!(elevation::restart_outcome(0), Err("提权失败 (错误码: 0)".to_string()));
    assert_eq!(elevation::restart_outcome(1223), Ok(()));
    assert_eq!(
        elevation::restart_outcome(isize::MIN),
        Err(format!("提权失败 (错误码: {})", isize::MIN))
    );
}

use fastscan_mcp::hardware::{battery_facts, ram_slot, BatteryRow, MemoryRow};
use fastscan_mcp::volume::{list_windows_volumes, DriveReading};

#[test]
fn memory_slot_rows() {
    let row = MemoryRow {
        device_locator: Some("DIMM 0".to_string()),
        capacity: Some(17_179_869_184),
        memory_type: Some(26),
        speed: Some(3200),
        manufacturer: None,
        part_number: None,
    };
    let s = ram_slot(&row);
    assert_eq!((s.slot.as_str(), s.capacity_bytes, s.memory_type.as_str(), s.speed_mhz), ("DIMM 0", 17_179_869_184, "DDR4", 3200));
    assert_eq!((s.manufacturer.as_str(), s.part_number.as_str()), ("未知", ""));
    let empty = MemoryRow { device_locator: None, capacity: None, memory_type: None, speed: None, manufacturer: None, part_number: Some("X1".to_string()) };
    let s = ram_slot(&empty);
    assert_eq!((s.slot.as_str(), s.capacity_bytes, s.memory_type.as_str(), s.speed_mhz, s.part_number.as_str()), ("未知", 0, "Unknown", 0, "X1"));
}

#[test]
fn battery_rows() {
    let b = battery_facts(Some(BatteryRow { design_capacity: Some(50_000), full_charge_capacity: Some(45_000), cycle_count: Some(100) }));
    assert!(b.present);
    assert_eq!(b.health_ratio, Some((45_000, 50_000)));
    assert_eq!((b.design_capacity_mwh, b.full_charge_capacity_mwh, b.cycle_count), (Some(50_000), Some(45_000), Some(100)));
    let b = battery_facts(Some(BatteryRow { design_capacity: Some(0), full_charge_capacity: Some(1), cycle_count: None }));
    assert_eq!(b.health_ratio, None);
    let b = battery_facts(None);
    assert!(!b.present);
    assert_eq!((b.design_capacity_mwh, b.health_ratio), (None, None));
}

#[test]
fn volumes_listed_in_letter_order() {
    let mut readings: Vec<DriveReading> = (0..26)
        .map(|_| DriveReading { drive_type: 1, total_bytes: 0, available_bytes: 0, names: None, cluster_size: 4096 })
        .collect();
    readings[3] = DriveReading { drive_type: 2, total_bytes: 64, available_bytes: 32, names: None, cluster_size: 512 };
    readings[2] = DriveReading {
        drive_type: 3,
        total_bytes: 1000,
        available_bytes: 400,
        names: Some(VolumeNames { label: utf16z("System", 260), fs_name: utf16z("NTFS", 64) }),
        cluster_size: 4096,
    };
    readings[25].drive_type = 0;
    let v = list_windows_volumes(&readings);
    assert_eq!(v.len(), 2);
    assert_eq!((v[0].root.as_str(), v[0].display_name.as_str(), v[0].fs_name.as_str(), v[0].drive_type.as_str()), ("C:\\", "System (C:)", "NTFS", "Fixed"));
    assert!(v[0].ntfs_candidate);
    assert_eq!((v[0].total_bytes, v[0].available_bytes, v[0].cluster_size), (1000, 400, 4096));
    assert_eq!((v[1].root.as_str(), v[1].display_name.as_str(), v[1].drive_type.as_str(), v[1].cluster_size), ("D:\\", "D:\\", "Removable", 512));
    assert!(!v[1].ntfs_candidate);
}
