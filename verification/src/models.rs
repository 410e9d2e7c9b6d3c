//! Plain data exchanged with the users of the analyser.
use vstd::prelude::*;

verus! {

/// A disk volume as listed to the user.
#[derive(Debug, Clone)]
pub struct VolumeInfo {
    pub root: String,
    pub display_name: String,
    pub fs_name: String,
    pub drive_type: String,
    pub total_bytes: u64,
    pub available_bytes: u64,
    pub cluster_size: u64,
    pub ntfs_candidate: bool,
}

/// How a volume is scanned.
#[derive(Debug, Clone, Copy, PartialEq, Eq, Structural)]
pub enum ScanMode {
    Auto,
    NtfsMft,
    Walk,
}

impl Default for ScanMode {
    fn default() -> (r: Self)
        ensures
            r == ScanMode::Auto,
    {
        ScanMode::Auto
    }
}

/// What to scan and how.
#[derive(Debug, Clone)]
pub struct ScanOptions {
    pub root: String,
    pub mode: ScanMode,
}

/// One file or directory of a finished scan; `id` is its index.
#[derive(Debug, Clone)]
pub struct NodeDto {
    pub id: u32,
    pub parent: Option<u32>,
    pub name: String,
    pub is_dir: bool,
    pub size: u64,
    pub allocated: u64,
    pub total_size: u64,
    pub total_allocated: u64,
    pub child_count: u32,
    pub children: Vec<u32>,
    pub file_count: u64,
    pub dir_count: u64,
    pub extension: Option<String>,
    pub created: Option<i64>,
    pub modified: Option<i64>,
    pub accessed: Option<i64>,
}

/// A node as listed among the children or ancestors of another.
#[derive(Debug, Clone)]
pub struct ChildNode {
    pub id: u32,
    pub parent: Option<u32>,
    pub name: String,
    pub is_dir: bool,
    pub size: u64,
    pub allocated: u64,
    pub total_size: u64,
    pub total_allocated: u64,
    pub child_count: u32,
    pub file_count: u64,
    pub dir_count: u64,
    pub extension: Option<String>,
    pub created: Option<i64>,
    pub modified: Option<i64>,
    pub accessed: Option<i64>,
}

/// A node that matched a name search, with its full path.
#[derive(Debug, Clone)]
pub struct SearchResult {
    pub id: u32,
    pub name: String,
    pub path: String,
    pub is_dir: bool,
    pub size: u64,
    pub allocated: u64,
    pub total_size: u64,
    pub total_allocated: u64,
    pub extension: Option<String>,
    pub created: Option<i64>,
    pub modified: Option<i64>,
    pub accessed: Option<i64>,
}

/// One rectangle of a treemap and the rectangles nested in it.
#[derive(Debug)]
pub struct TreemapNode {
    pub id: u32,
    pub size: u64,
    pub name: String,
    pub is_dir: bool,
    pub extension: Option<String>,
    pub children: Vec<TreemapNode>,
}

/// The outcome of a scan.
#[derive(Debug, Clone)]
pub struct ScanResult {
    pub root: String,
    pub scanner: String,
    pub elapsed_ms: u64,
    pub node_count: u64,
    pub file_count: u64,
    pub dir_count: u64,
    pub total_size: u64,
    pub total_allocated: u64,
    pub nodes: Vec<NodeDto>,
    pub warnings: Vec<String>,
}

/// Space used by the files of one extension.
#[derive(Debug, Clone)]
pub struct ExtensionStat {
    pub extension: String,
    pub size: u64,
    pub allocated: u64,
    pub file_count: u64,
}

/// A file with its full path.
#[derive(Debug, Clone)]
pub struct FileInfo {
    pub id: u32,
    pub name: String,
    pub path: String,
    pub size: u64,
    pub allocated: u64,
    pub extension: Option<String>,
    pub created: Option<i64>,
    pub modified: Option<i64>,
    pub accessed: Option<i64>,
}

/// A directory with its full path and totals.
#[derive(Debug, Clone)]
pub struct DirInfo {
    pub id: u32,
    pub name: String,
    pub path: String,
    pub total_size: u64,
    pub total_allocated: u64,
    pub file_count: u64,
    pub dir_count: u64,
    pub child_count: u32,
}

/// Files that share a lowercase name and a size.
#[derive(Debug, Clone)]
pub struct DuplicateGroup {
    pub file_name: String,
    pub size: u64,
    pub file_count: usize,
    pub total_size: u64,
    pub files: Vec<FileInfo>,
    pub truncated: Option<bool>,
}

/// Summary of the last scan.
#[derive(Debug, Clone)]
pub struct ScanStatus {
    pub elapsed_ms: u64,
    pub node_count: u64,
    pub file_count: u64,
    pub dir_count: u64,
    pub total_size: u64,
    pub total_allocated: u64,
    pub scanner: String,
    pub warnings: Vec<String>,
}

/// A progress report of a running scan.
#[derive(Debug, Clone)]
pub struct ProgressEvent {
    pub phase: String,
    pub processed: u64,
    pub total: Option<u64>,
    pub message: String,
}

/// Whether the MCP server child process runs, and on which port.
#[derive(Debug, Clone, Copy, PartialEq, Eq, Structural)]
pub struct McpStatus {
    pub running: bool,
    pub port: u16,
}

/// Processor description.
#[derive(Debug, Clone)]
pub struct CpuInfo {
    pub name: String,
    pub architecture: String,
    pub physical_cores: u32,
    pub logical_threads: u32,
    pub frequency_mhz: u32,
    pub l1_cache_kb: Option<u32>,
    pub l2_cache_kb: Option<u32>,
    pub l3_cache_kb: Option<u32>,
}

/// Graphics adapter description.
#[derive(Debug, Clone)]
pub struct GpuInfo {
    pub name: String,
    pub vram_mb: u64,
    pub driver_version: String,
}

/// Mainboard description.
#[derive(Debug, Clone)]
pub struct MotherboardInfo {
    pub manufacturer: String,
    pub product: String,
}

/// Firmware description.
#[derive(Debug, Clone)]
pub struct BiosInfo {
    pub manufacturer: String,
    pub version: String,
    pub release_date: String,
}

} // verus!
