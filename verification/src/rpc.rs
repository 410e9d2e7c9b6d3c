//! The server's JSON-RPC rules: which request methods it answers, which tools
//! it offers, and the errors it replies with.
use vstd::prelude::*;
use crate::error::push_text;
use crate::models::ScanMode;
use crate::text::{chars_of, string_from_chars};

verus! {

/// Whether two texts are equal, character by character.
pub fn text_eq(a: &str, b: &str) -> (r: bool)
    ensures
        r == (a@ == b@),
{
    let x = chars_of(a);
    let y = chars_of(b);
    if x.len() != y.len() {
        return false;
    }
    let mut i: usize = 0;
    while i < x.len()
        invariant
            i <= x@.len(),
            x@ == a@,
            y@ == b@,
            x@.len() == y@.len(),
            forall|j: int| 0 <= j < i ==> x@[j] == y@[j],
        decreases x@.len() - i,
    {
        if x[i] != y[i] {
            assert(x@[i as int] != y@[i as int]);
            return false;
        }
        i += 1;
    }
    assert(x@ =~= y@);
    true
}

/// A request method of the protocol.
#[derive(Debug, Clone, Copy, PartialEq, Eq, Structural)]
pub enum RpcMethod {
    Initialize,
    Initialized,
    ListTools,
    CallTool,
    Unknown,
}

/// The method a request names: `initialize`, `notifications/initialized`,
/// `tools/list`, `tools/call`, or any other.
pub open spec fn spec_rpc_method(m: Seq<char>) -> RpcMethod {
    if m == "initialize"@ {
        RpcMethod::Initialize
    } else if m == "notifications/initialized"@ {
        RpcMethod::Initialized
    } else if m == "tools/list"@ {
        RpcMethod::ListTools
    } else if m == "tools/call"@ {
        RpcMethod::CallTool
    } else {
        RpcMethod::Unknown
    }
}

/// The method a request names (see [`spec_rpc_method`]).
pub fn rpc_method(method: &str) -> (r: RpcMethod)
    ensures
        r == spec_rpc_method(method@),
{
    if text_eq(method, "initialize") {
        RpcMethod::Initialize
    } else if text_eq(method, "notifications/initialized") {
        RpcMethod::Initialized
    } else if text_eq(method, "tools/list") {
        RpcMethod::ListTools
    } else if text_eq(method, "tools/call") {
        RpcMethod::CallTool
    } else {
        RpcMethod::Unknown
    }
}

/// A tool that the server offers.
#[derive(Debug, Clone, Copy, PartialEq, Eq, Structural)]
pub enum Tool {
    ListVolumes,
    ScanDisk,
    ScanStatus,
    BrowseDirectory,
    GetNodePath,
    GetNodeDetails,
    SearchFiles,
    GetExtensionStats,
    GetTreemap,
    GetLargestFiles,
    GetLargestDirectories,
    FindEmptyDirectories,
    FindDuplicateFiles,
    FindFilesByAge,
}

/// The name a tool is called by.
pub open spec fn spec_tool_name(t: Tool) -> Seq<char> {
    match t {
        Tool::ListVolumes => "list_volumes"@,
        Tool::ScanDisk => "scan_disk"@,
        Tool::ScanStatus => "scan_status"@,
        Tool::BrowseDirectory => "browse_directory"@,
        Tool::GetNodePath => "get_node_path"@,
        Tool::GetNodeDetails => "get_node_details"@,
        Tool::SearchFiles => "search_files"@,
        Tool::GetExtensionStats => "get_extension_stats"@,
        Tool::GetTreemap => "get_treemap"@,
        Tool::GetLargestFiles => "get_largest_files"@,
        Tool::GetLargestDirectories => "get_largest_directories"@,
        Tool::FindEmptyDirectories => "find_empty_directories"@,
        Tool::FindDuplicateFiles => "find_duplicate_files"@,
        Tool::FindFilesByAge => "find_files_by_age"@,
    }
}

/// The name a tool is called by.
pub fn tool_name(t: Tool) -> (r: &'static str)
    ensures
        r@ == spec_tool_name(t),
{
    match t {
        Tool::ListVolumes => "list_volumes",
        Tool::ScanDisk => "scan_disk",
        Tool::ScanStatus => "scan_status",
        Tool::BrowseDirectory => "browse_directory",
        Tool::GetNodePath => "get_node_path",
        Tool::GetNodeDetails => "get_node_details",
        Tool::SearchFiles => "search_files",
        Tool::GetExtensionStats => "get_extension_stats",
        Tool::GetTreemap => "get_treemap",
        Tool::GetLargestFiles => "get_largest_files",
        Tool::GetLargestDirectories => "get_largest_directories",
        Tool::FindEmptyDirectories => "find_empty_directories",
        Tool::FindDuplicateFiles => "find_duplicate_files",
        Tool::FindFilesByAge => "find_files_by_age",
    }
}

/// The tools in the order they are listed.
pub open spec fn tool_list() -> Seq<Tool> {
    seq![
        Tool::ListVolumes, Tool::ScanDisk, Tool::ScanStatus, Tool::BrowseDirectory, Tool::GetNodePath,
        Tool::GetNodeDetails, Tool::SearchFiles, Tool::GetExtensionStats, Tool::GetTreemap, Tool::GetLargestFiles,
        Tool::GetLargestDirectories, Tool::FindEmptyDirectories, Tool::FindDuplicateFiles, Tool::FindFilesByAge,
    ]
}

/// The tools in the order they are listed.
pub fn all_tools() -> (r: Vec<Tool>)
    ensures
        r@ == tool_list(),
{
    let r = vec![
        Tool::ListVolumes, Tool::ScanDisk, Tool::ScanStatus, Tool::BrowseDirectory, Tool::GetNodePath,
        Tool::GetNodeDetails, Tool::SearchFiles, Tool::GetExtensionStats, Tool::GetTreemap, Tool::GetLargestFiles,
        Tool::GetLargestDirectories, Tool::FindEmptyDirectories, Tool::FindDuplicateFiles, Tool::FindFilesByAge,
    ];
    assert(r@ =~= tool_list());
    r
}

/// Law: every tool stands in the list of tools, so the names that calls
/// accept (see [`tool_by_name`]) are exactly the names of the listed tools.
pub proof fn law_listed_tools_accepted(name: Seq<char>)
    ensures
        forall|t: Tool| #[trigger] tool_list().contains(t),
        (exists|t: Tool| #[trigger] spec_tool_name(t) == name)
            <==> (exists|k: int| 0 <= k < tool_list().len() && #[trigger] spec_tool_name(tool_list()[k]) == name),
{
    let l = tool_list();
    assert forall|t: Tool| #[trigger] l.contains(t) by {
        let k: int = match t {
            Tool::ListVolumes => 0,
            Tool::ScanDisk => 1,
            Tool::ScanStatus => 2,
            Tool::BrowseDirectory => 3,
            Tool::GetNodePath => 4,
            Tool::GetNodeDetails => 5,
            Tool::SearchFiles => 6,
            Tool::GetExtensionStats => 7,
            Tool::GetTreemap => 8,
            Tool::GetLargestFiles => 9,
            Tool::GetLargestDirectories => 10,
            Tool::FindEmptyDirectories => 11,
            Tool::FindDuplicateFiles => 12,
            Tool::FindFilesByAge => 13,
        };
        assert(l[k] == t);
    }
    if exists|t: Tool| #[trigger] spec_tool_name(t) == name {
        let t = choose|t: Tool| #[trigger] spec_tool_name(t) == name;
        assert(l.contains(t));
        let k = choose|k: int| 0 <= k < l.len() && l[k] == t;
        assert(spec_tool_name(l[k]) == name);
    }
}

/// The tool called `name`, if any.
pub fn tool_by_name(name: &str) -> (r: Option<Tool>)
    ensures
        r matches Some(t) ==> spec_tool_name(t) == name@,
        r is None ==> forall|t: Tool| spec_tool_name(t) != name@,
{
    let tools = all_tools();
    let mut i: usize = 0;
    while i < tools.len()
        invariant
            i <= tools@.len(),
            tools@ == tool_list(),
            forall|j: int| 0 <= j < i ==> spec_tool_name(#[trigger] tools@[j]) != name@,
        decreases tools@.len() - i,
    {
        let t = tools[i];
        if text_eq(tool_name(t), name) {
            return Some(t);
        }
        i += 1;
    }
    assert forall|t: Tool| spec_tool_name(t) != name@ by {
        match t {
            Tool::ListVolumes => assert(tools@[0] == t),
            Tool::ScanDisk => assert(tools@[1] == t),
            Tool::ScanStatus => assert(tools@[2] == t),
            Tool::BrowseDirectory => assert(tools@[3] == t),
            Tool::GetNodePath => assert(tools@[4] == t),
            Tool::GetNodeDetails => assert(tools@[5] == t),
            Tool::SearchFiles => assert(tools@[6] == t),
            Tool::GetExtensionStats => assert(tools@[7] == t),
            Tool::GetTreemap => assert(tools@[8] == t),
            Tool::GetLargestFiles => assert(tools@[9] == t),
            Tool::GetLargestDirectories => assert(tools@[10] == t),
            Tool::FindEmptyDirectories => assert(tools@[11] == t),
            Tool::FindDuplicateFiles => assert(tools@[12] == t),
            Tool::FindFilesByAge => assert(tools@[13] == t),
        }
    }
    None
}

/// An error reply: a JSON-RPC error code and its message.
#[derive(Debug, Clone, PartialEq, Eq)]
pub struct RpcError {
    pub code: i64,
    pub message: String,
}

/// The code of a reply to a method the server does not know.
pub const METHOD_NOT_FOUND: i64 = -32601;

/// The code of a reply to a tool call that failed.
pub const INTERNAL_ERROR: i64 = -32603;

/// The reply to a request for an unknown method.
pub fn method_not_found(method: &str) -> (r: RpcError)
    ensures
        r.code == METHOD_NOT_FOUND,
        r.message@ == "Method not found: "@ + method@,
{
    let mut v: Vec<char> = Vec::new();
    push_text(&mut v, "Method not found: ");
    push_text(&mut v, method);
    RpcError { code: METHOD_NOT_FOUND, message: string_from_chars(&v) }
}

/// The reply to a tool call that failed with `message`.
pub fn tool_failed(message: String) -> (r: RpcError)
    ensures
        r.code == INTERNAL_ERROR,
        r.message@ == message@,
{
    RpcError { code: INTERNAL_ERROR, message }
}

/// The failure of a call to a tool that does not exist.
pub fn unknown_tool(name: &str) -> (r: String)
    ensures
        r@ == "Unknown tool: "@ + name@,
{
    let mut v: Vec<char> = Vec::new();
    push_text(&mut v, "Unknown tool: ");
    push_text(&mut v, name);
    string_from_chars(&v)
}

/// The scan mode a `scan_disk` call names: `ntfs` or `ntfsMft` read the
/// MFT, `walk` walks the directories, anything else lets the scanner choose.
pub open spec fn spec_scan_mode(name: Seq<char>) -> ScanMode {
    if name == "ntfs"@ || name == "ntfsMft"@ {
        ScanMode::NtfsMft
    } else if name == "walk"@ {
        ScanMode::Walk
    } else {
        ScanMode::Auto
    }
}

/// The scan mode a `scan_disk` call names (see [`spec_scan_mode`]).
pub fn scan_mode_named(name: &str) -> (r: ScanMode)
    ensures
        r == spec_scan_mode(name@),
{
    if text_eq(name, "ntfs") || text_eq(name, "ntfsMft") {
        ScanMode::NtfsMft
    } else if text_eq(name, "walk") {
        ScanMode::Walk
    } else {
        ScanMode::Auto
    }
}

} // verus!
