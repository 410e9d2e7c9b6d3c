use fastscan_mcp::models::NodeDto;
use fastscan_mcp::ntfs_tree::build_tree_from_records;
use fastscan_mcp::order::key_order_exec;
use fastscan_mcp::record::ParsedRecord;
use fastscan_mcp::tree::{extension_of, finalize_tree, finalize_tree_in_place, TreeNode};
use fastscan_mcp::walk::{
    approximate_allocated, display_root, filetime_to_unix, push_warning, scan_result, WalkEntry, WalkTree,
    WARN_LIMIT,
};

fn file(id: u32, name: &str, parent: u32, size: u64, allocated: u64) -> TreeNode {
    TreeNode::new(id, name.to_string(), Some(parent), false, size, allocated, None, Some(100 + id as i64), None)
}

fn dir(id: u32, name: &str, parent: u32) -> TreeNode {
    TreeNode::new(id, name.to_string(), Some(parent), true, 0, 0, None, None, None)
}

fn link(nodes: &mut Vec<TreeNode>) {
    for i in 1..nodes.len() {
        let p = nodes[i].parent.unwrap() as usize;
        nodes[p].children.push(i as u32);
    }
}

/// root ─ a/ ─ x.TXT (10, alloc 4096), y.bin (20, 8192)
///      └ b/ ─ c/ ─ z (5, 4096)
///      └ top.log (7, 4096)
fn sample() -> Vec<TreeNode> {
    let mut nodes = vec![
        TreeNode::root("C:\\".to_string()),
        dir(1, "a", 0),
        file(2, "x.TXT", 1, 10, 4096),
        file(3, "y.bin", 1, 20, 8192),
        dir(4, "b", 0),
        dir(5, "c", 4),
        file(6, "z", 5, 5, 4096),
        file(7, "top.log", 0, 7, 4096),
    ];
    link(&mut nodes);
    nodes
}

fn find<'a>(nodes: &'a [NodeDto], name: &str) -> &'a NodeDto {
    nodes.iter().find(|n| n.name == name).unwrap()
}

#[test]
fn new_nodes_count_themselves() {
    let f = file(3, "Photo.JPG", 0, 10, 4096);
    assert_eq!(f.extension.as_deref(), Some("jpg"));
    assert_eq!((f.total_size, f.total_allocated, f.file_count, f.dir_count), (10, 4096, 1, 0));
    let d = dir(4, "dir.d", 0);
    assert_eq!(d.extension, None);
    assert_eq!((d.file_count, d.dir_count), (0, 1));
    let r = TreeNode::root("root".to_string());
    assert_eq!((r.id, r.parent, r.is_dir, r.dir_count), (0, None, true, 0));
}

#[test]
fn extensions_are_lowercase_and_nonempty() {
    assert_eq!(extension_of("a.TaR.GZ").as_deref(), Some("gz"));
    assert_eq!(extension_of("README"), None);
    assert_eq!(extension_of(".bashrc"), None);
    assert_eq!(extension_of("trailing."), None);
}

#[test]
fn directory_totals_add_up_children() {
    let out = finalize_tree(sample());
    let root = &out[0];
    assert_eq!(root.total_size, 42);
    assert_eq!(root.total_allocated, 4096 * 5);
    assert_eq!(root.file_count, 4);
    assert_eq!(root.dir_count, 3);
    let a = find(&out, "a");
    assert_eq!((a.total_size, a.total_allocated, a.file_count, a.dir_count), (30, 12288, 2, 1));
    let b = find(&out, "b");
    assert_eq!((b.total_size, b.total_allocated, b.file_count, b.dir_count), (5, 4096, 1, 2));
    // every reached node: own part plus its children's totals
    for (i, n) in out.iter().enumerate() {
        let own_dirs = if i == 0 || !n.is_dir { 0 } else { 1 };
        let own_files = if n.is_dir { 0 } else { 1 };
        let sum = |f: &dyn Fn(&NodeDto) -> u64| n.children.iter().map(|c| f(&out[*c as usize])).sum::<u64>();
        assert_eq!(n.total_size, n.size + sum(&|c| c.total_size));
        assert_eq!(n.total_allocated, n.allocated + sum(&|c| c.total_allocated));
        assert_eq!(n.file_count, own_files + sum(&|c| c.file_count));
        assert_eq!(n.dir_count, own_dirs + sum(&|c| c.dir_count));
        assert_eq!(n.child_count as usize, n.children.len());
    }
}

#[test]
fn children_listed_largest_first_then_by_name() {
    let out = finalize_tree(sample());
    let names: Vec<&str> = out[0].children.iter().map(|c| out[*c as usize].name.as_str()).collect();
    assert_eq!(names, vec!["a", "b", "top.log"]);
    let a = find(&out, "a");
    let names: Vec<&str> = a.children.iter().map(|c| out[*c as usize].name.as_str()).collect();
    assert_eq!(names, vec!["y.bin", "x.TXT"]);
}

#[test]
fn dangling_and_self_children_are_dropped() {
    let mut nodes = sample();
    nodes[1].children.push(99);
    nodes[1].children.push(1);
    let out = finalize_tree(nodes);
    assert_eq!(find(&out, "a").children.len(), 2);
}

#[test]
fn empty_tree_gets_a_root() {
    let mut nodes: Vec<TreeNode> = Vec::new();
    finalize_tree_in_place(&mut nodes);
    assert_eq!(nodes.len(), 1);
    assert_eq!(nodes[0].name, "root");
    assert!(nodes[0].is_dir);
}

#[test]
fn childless_root_counts_every_other_node() {
    let nodes = vec![
        TreeNode::root("r".to_string()),
        TreeNode::new(1, "f".to_string(), None, false, 3, 4096, None, None, None),
        TreeNode::new(2, "d".to_string(), None, true, 0, 0, None, None, None),
    ];
    let out = finalize_tree(nodes);
    assert_eq!((out[0].total_size, out[0].total_allocated, out[0].file_count, out[0].dir_count), (3, 4096, 1, 1));
}

#[test]
fn stable_key_order() {
    let order = key_order_exec(&vec![5, -1, 5, 0, -1]);
    assert_eq!(order, vec![1, 4, 3, 0, 2]);
}

#[test]
fn allocation_rounds_up_to_clusters() {
    assert_eq!(approximate_allocated(0, 4096), 0);
    assert_eq!(approximate_allocated(1, 4096), 4096);
    assert_eq!(approximate_allocated(4096, 4096), 4096);
    assert_eq!(approximate_allocated(4097, 4096), 8192);
    assert_eq!(approximate_allocated(u64::MAX, 1), u64::MAX);
}

#[test]
fn filetimes_and_display_roots() {
    assert_eq!(filetime_to_unix(0), 0);
    assert_eq!(filetime_to_unix(116_444_736_010_000_000), 1);
    assert_eq!(display_root(String::new()), "/");
    assert_eq!(display_root("D:\\".to_string()), "D:\\");
}

#[test]
fn warnings_are_capped() {
    let mut w: Vec<String> = Vec::new();
    for i in 0..(WARN_LIMIT + 5) {
        push_warning(&mut w, format!("w{i}"));
    }
    assert_eq!(w.len(), WARN_LIMIT);
    assert_eq!(w[0], "w0");
}

fn entry(depth: usize, name: &str, is_dir: bool, size: u64) -> WalkEntry {
    WalkEntry { depth, name: name.to_string(), is_dir, is_file: !is_dir, size, created: None, modified: Some(7), accessed: None }
}

#[test]
fn walk_entries_nest_under_last_directory() {
    let mut t = WalkTree::new("/data".to_string());
    t.add_entry(entry(0, "data", true, 0), 4096);
    t.add_entry(entry(1, "docs", true, 0), 4096);
    t.add_entry(entry(2, "a.txt", false, 100), 4096);
    t.add_entry(entry(2, "old", true, 0), 4096);
    t.add_entry(entry(3, "b.txt", false, 5000), 4096);
    t.add_entry(entry(1, "top.bin", false, 1), 4096);
    assert_eq!(t.nodes.len(), 6);
    assert_eq!(t.nodes[2].parent, Some(1));
    assert_eq!(t.nodes[4].parent, Some(3));
    assert_eq!(t.nodes[5].parent, Some(0));
    assert_eq!(t.nodes[4].allocated, 8192);
    let out = t.finish();
    assert_eq!(out[0].name, "/data");
    assert_eq!(out[0].total_size, 5101);
    assert_eq!(out[0].total_allocated, 4096 + 8192 + 4096);
    assert_eq!(out[0].file_count, 3);
    assert_eq!(out[0].dir_count, 2);
    let r = scan_result("/data".to_string(), "walk".to_string(), 12, out, vec!["w".to_string()]);
    assert_eq!((r.node_count, r.file_count, r.dir_count, r.total_size), (6, 3, 2, 5101));
    assert_eq!(r.warnings, vec!["w".to_string()]);
}

fn record(n: u64, parent: u64, name: &str, is_dir: bool, size: u64) -> ParsedRecord {
    ParsedRecord { record_number: n, parent_record: parent, name: name.to_string(), is_dir, size, allocated: size, created: 1, modified: 2, accessed: 3 }
}

#[test]
fn ntfs_records_become_a_tree() {
    let records = vec![
        record(5, 5, "root-dir", true, 0),
        record(4, 5, "$AttrDef", false, 100),
        record(40, 5, "Users", true, 0),
        record(41, 40, "me.txt", false, 10),
        record(42, 999, "orphan.dat", false, 20),
        record(43, 41, "under-file", false, 30),
        record(44, 44, "self", false, 40),
    ];
    let out = build_tree_from_records("C:\\", records);
    let names: Vec<&str> = out.iter().map(|n| n.name.as_str()).collect();
    assert_eq!(names, vec!["C:\\", "Users", "me.txt", "orphan.dat", "under-file", "self"]);
    assert_eq!(out[2].parent, Some(1));
    assert_eq!(out[3].parent, Some(0));
    assert_eq!(out[4].parent, Some(0));
    assert_eq!(out[5].parent, Some(0));
    assert_eq!(out[0].total_size, 100);
    assert_eq!(out[0].file_count, 4);
    assert_eq!(out[0].dir_count, 1);
    assert_eq!(out[2].modified, Some(2));
}

use fastscan_mcp::query::parents_all_end;
use fastscan_mcp::walk::allocation_fits;

#[test]
fn walk_trees_link_both_ways() {
    let mut t = WalkTree::new("/".to_string());
    t.add_entry(entry(1, "a", true, 0), 512);
    t.add_entry(entry(2, "b", true, 0), 512);
    t.add_entry(entry(3, "c.txt", false, 1), 512);
    t.add_entry(entry(1, "d.txt", false, 513), 512);
    for (i, n) in t.nodes.iter().enumerate() {
        assert_eq!(n.id as usize, i);
        for c in &n.children {
            assert!((*c as usize) > i);
            assert_eq!(t.nodes[*c as usize].parent, Some(i as u32));
        }
        if i > 0 {
            assert!((n.parent.unwrap() as usize) < i);
        }
    }
    let out = t.finish();
    assert!(parents_all_end(&out));
    assert_eq!(out[0].total_allocated, 512 + 1024);
}

#[test]
fn allocation_overflow_is_detected() {
    assert!(allocation_fits(0, 4096));
    assert!(allocation_fits(u64::MAX - 4095, 4096));
    assert!(!allocation_fits(u64::MAX - 100, 4096));
    assert!(allocation_fits(u64::MAX, 1));
}

#[test]
fn ntfs_trees_link_both_ways() {
    let records = vec![
        record(40, 5, "Users", true, 0),
        record(41, 40, "me", true, 0),
        record(42, 41, "a.txt", false, 10),
        record(43, 44, "loop-a", true, 0),
        record(44, 43, "loop-b", true, 0),
        record(45, 40, "b.txt", false, 5),
    ];
    let out = build_tree_from_records("C:\\", records);
    assert_eq!(out[0].parent, None);
    for (i, n) in out.iter().enumerate() {
        for c in &n.children {
            assert_eq!(out[*c as usize].parent, Some(i as u32));
        }
    }
    // the two directories naming each other are not reached from the root
    assert_eq!(out[0].total_size, 15);
    assert_eq!(out[0].dir_count, 2);
}

#[test]
fn extension_rule_on_plain_and_other_names() {
    assert_eq!(extension_of(".bash.RC").as_deref(), Some("rc"));
    assert_eq!(extension_of(".."), None);
    assert_eq!(extension_of("..."), None);
    assert_eq!(extension_of("a..b"), Some("b".to_string()));
    assert_eq!(extension_of("photo.JPEG").as_deref(), Some("jpeg"));
    for name in ["a.b\\c.TXT", "C:x.Txt", "dir/f.gz", "a.b\\c"] {
        let e = extension_of(name);
        assert!(e.map_or(true, |e| !e.is_empty() && !e.contains('.') && e == e.to_ascii_lowercase()));
    }
}

#[test]
fn ntfs_root_counts_only_what_it_reaches() {
    // two directories naming each other: nothing hangs under the root
    let records = vec![record(43, 44, "loop-a", true, 0), record(44, 43, "loop-b", true, 0), record(45, 43, "f", false, 7)];
    let out = build_tree_from_records("C:\\", records);
    assert!(out[0].children.is_empty());
    assert_eq!((out[0].total_size, out[0].file_count, out[0].dir_count), (0, 0, 0));
}

#[test]
fn walk_parents_are_directories() {
    let mut t = WalkTree::new("/".to_string());
    t.add_entry(entry(1, "f.txt", false, 3), 512);
    t.add_entry(entry(2, "deep", false, 1), 512);
    t.add_entry(entry(1, "d", true, 0), 512);
    t.add_entry(entry(2, "g", false, 1), 512);
    for n in t.nodes.iter().skip(1) {
        assert!(t.nodes[n.parent.unwrap() as usize].is_dir);
    }
    assert_eq!(t.nodes[2].parent, Some(0));
    assert_eq!(t.nodes[4].parent, Some(3));
}
