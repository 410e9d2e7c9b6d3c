use fastscan_mcp::launcher::{mcp_binary_candidates, mcp_binary_name, pick_mcp_binary};

fn strings(v: &[&str]) -> Vec<String> {
    v.iter().map(|s| s.to_string()).collect()
}

#[test]
fn binary_name_per_platform() {
    assert_eq!(mcp_binary_name(true), "fastscan-mcp.exe");
    assert_eq!(mcp_binary_name(false), "fastscan-mcp");
}

#[test]
fn candidates_next_to_executable_then_search_path() {
    let c = mcp_binary_candidates(Some("/opt/app".to_string()), &strings(&["/usr/bin", "/bin"]), false);
    assert_eq!(c.len(), 9);
    assert!(c[..7].iter().all(|x| x.base == "/opt/app"));
    assert_eq!(c[0].parts, strings(&["fastscan-mcp"]));
    assert_eq!(c[1].parts, strings(&["binaries", "fastscan-mcp"]));
    assert_eq!(c[2].parts, strings(&["bin", "fastscan-mcp"]));
    assert_eq!(c[3].parts, strings(&["..", "..", "target", "release", "fastscan-mcp"]));
    assert_eq!(c[4].parts, strings(&["..", "..", "target", "debug", "fastscan-mcp"]));
    assert_eq!(c[5].parts, strings(&["..", "..", "..", "crates", "fastscan-mcp", "target", "release", "fastscan-mcp"]));
    assert_eq!(c[6].parts, strings(&["..", "..", "..", "crates", "fastscan-mcp", "target", "debug", "fastscan-mcp"]));
    assert_eq!((c[7].base.as_str(), c[7].parts.clone()), ("/usr/bin", strings(&["fastscan-mcp"])));
    assert_eq!((c[8].base.as_str(), c[8].parts.clone()), ("/bin", strings(&["fastscan-mcp"])));
}

#[test]
fn candidates_without_executable_directory() {
    let c = mcp_binary_candidates(None, &strings(&["C:\\tools"]), true);
    assert_eq!(c.len(), 1);
    assert_eq!(c[0].base, "C:\\tools");
    assert_eq!(c[0].parts, strings(&["fastscan-mcp.exe"]));
}

#[test]
fn existing_override_wins() {
    let tried = strings(&["/a/fastscan-mcp"]);
    let r = pick_mcp_binary(Some("/env/fastscan-mcp".to_string()), true, &tried, &vec![true]);
    assert_eq!(r, Ok("/env/fastscan-mcp".to_string()));
}

#[test]
fn first_existing_candidate_is_taken() {
    let tried = strings(&["/a/x", "/b/x", "/c/x"]);
    let r = pick_mcp_binary(Some("/missing".to_string()), false, &tried, &vec![false, true, true]);
    assert_eq!(r, Ok("/b/x".to_string()));
}

#[test]
fn missing_binary_lists_every_path_tried() {
    let tried = strings(&["/a/x", "/b/x"]);
    let r = pick_mcp_binary(None, false, &tried, &vec![false, false]);
    assert_eq!(r, Err("找不到 fastscan-mcp 二进制文件。已尝试以下路径:\n  - /a/x\n  - /b/x".to_string()));
    let r = pick_mcp_binary(None, false, &Vec::new(), &Vec::new());
    assert_eq!(r, Err("找不到 fastscan-mcp 二进制文件。已尝试以下路径:\n".to_string()));
}

use fastscan_mcp::error::AppError;
use fastscan_mcp::explorer::{reveal_action, RevealAction};

#[test]
fn reveal_needs_a_scan_and_a_path_inside_it() {
    assert_eq!(reveal_action(false, true, "C:\\x", true), Err(AppError::Internal("尚未扫描".to_string())));
    assert_eq!(reveal_action(true, false, "C:\\x", true), Err(AppError::Win("路径不在当前扫描卷范围内".to_string())));
}

#[test]
fn reveal_opens_drive_roots_and_selects_other_paths() {
    assert_eq!(reveal_action(true, true, "D:\\", true), Ok(RevealAction::OpenDrive));
    assert_eq!(reveal_action(true, true, "D:\\games\\a.iso", true), Ok(RevealAction::SelectItem));
    assert_eq!(reveal_action(true, true, "/home/u/a.txt", false), Ok(RevealAction::OpenFolder));
}

use fastscan_mcp::rpc::{
    all_tools, method_not_found, rpc_method, text_eq, tool_by_name, tool_failed, tool_name, unknown_tool, RpcMethod,
    Tool, INTERNAL_ERROR, METHOD_NOT_FOUND,
};

#[test]
fn rpc_methods_are_routed_by_name() {
    assert_eq!(rpc_method("initialize"), RpcMethod::Initialize);
    assert_eq!(rpc_method("notifications/initialized"), RpcMethod::Initialized);
    assert_eq!(rpc_method("tools/list"), RpcMethod::ListTools);
    assert_eq!(rpc_method("tools/call"), RpcMethod::CallTool);
    assert_eq!(rpc_method("tools/lis"), RpcMethod::Unknown);
    assert_eq!(rpc_method(""), RpcMethod::Unknown);
}

#[test]
fn every_tool_is_found_by_its_name() {
    let tools = all_tools();
    assert_eq!(tools.len(), 14);
    for t in tools {
        assert_eq!(tool_by_name(tool_name(t)), Some(t));
    }
    assert_eq!(tool_by_name("get_treemap"), Some(Tool::GetTreemap));
    assert_eq!(tool_by_name("rm_rf"), None);
    assert!(text_eq("abc", "abc") && !text_eq("abc", "abd") && !text_eq("ab", "abc"));
}

#[test]
fn rpc_error_replies() {
    let e = method_not_found("foo/bar");
    assert_eq!((e.code, e.message.as_str()), (-32601, "Method not found: foo/bar"));
    assert_eq!(METHOD_NOT_FOUND, -32601);
    let e = tool_failed("尚未扫描".to_string());
    assert_eq!((e.code, e.message.as_str()), (INTERNAL_ERROR, "尚未扫描"));
    assert_eq!(unknown_tool("x"), "Unknown tool: x");
}

use fastscan_mcp::models::ScanMode;
use fastscan_mcp::rpc::scan_mode_named;

#[test]
fn scan_modes_by_name() {
    assert_eq!(scan_mode_named("ntfs"), ScanMode::NtfsMft);
    assert_eq!(scan_mode_named("ntfsMft"), ScanMode::NtfsMft);
    assert_eq!(scan_mode_named("walk"), ScanMode::Walk);
    assert_eq!(scan_mode_named("auto"), ScanMode::Auto);
    assert_eq!(scan_mode_named("NTFS"), ScanMode::Auto);
}
