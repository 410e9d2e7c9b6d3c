use fastscan_mcp::desktop_tree::{finalize_tree, finalize_tree_in_place};
use fastscan_mcp::models::NodeDto;
use fastscan_mcp::tree::TreeNode;

fn file(id: u32, name: &str, parent: u32, size: u64, allocated: u64) -> TreeNode {
    TreeNode::new(id, name.to_string(), Some(parent), false, size, allocated, None, None, None)
}

fn dir(id: u32, name: &str, parent: u32) -> TreeNode {
    TreeNode::new(id, name.to_string(), Some(parent), true, 0, 0, None, None, None)
}

fn link(nodes: &mut Vec<TreeNode>) {
    for i in 1..nodes.len() {
        if let Some(p) = nodes[i].parent {
            nodes[p as usize].children.push(i as u32);
        }
    }
}

/// root ─ a/ ─ x.TXT (10, alloc 4096), y.bin (20, 8192)
///      └ b/ ─ c/ ─ z (5, 4096)
///      └ top.log (7, 4096)
fn sample() -> Vec<TreeNode> {
    let mut nodes = vec![
        TreeNode::root("C:\\".to_string()),
        dir(1, "a", 0),
        file(2, "x.TXT", 1, 10, 4096),
        file(3, "y.bin", 1, 20, 8192),
        dir(4, "b", 0),
        dir(5, "c", 4),
        file(6, "z", 5, 5, 4096),
        file(7, "top.log", 0, 7, 4096),
    ];
    link(&mut nodes);
    nodes
}

fn find<'a>(nodes: &'a [NodeDto], name: &str) -> &'a NodeDto {
    nodes.iter().find(|n| n.name == name).unwrap()
}

fn totals(n: &NodeDto) -> (u64, u64, u64, u64) {
    (n.total_size, n.total_allocated, n.file_count, n.dir_count)
}

#[test]
fn depth_first_totals_add_up_children() {
    let out = finalize_tree(sample());
    assert_eq!(totals(&out[0]), (42, 4096 * 5, 4, 3));
    assert_eq!(totals(find(&out, "a")), (30, 12288, 2, 1));
    assert_eq!(totals(find(&out, "b")), (5, 4096, 1, 2));
    assert_eq!(totals(find(&out, "c")), (5, 4096, 1, 1));
    for (i, n) in out.iter().enumerate() {
        let own_dirs = if i == 0 || !n.is_dir { 0 } else { 1 };
        let own_files = if n.is_dir { 0 } else { 1 };
        let sum = |f: &dyn Fn(&NodeDto) -> u64| n.children.iter().map(|c| f(&out[*c as usize])).sum::<u64>();
        assert_eq!(n.total_size, n.size + sum(&|c| c.total_size));
        assert_eq!(n.file_count, own_files + sum(&|c| c.file_count));
        assert_eq!(n.dir_count, own_dirs + sum(&|c| c.dir_count));
    }
}

#[test]
fn depth_first_children_listed_largest_first() {
    let out = finalize_tree(sample());
    let names: Vec<&str> = out[0].children.iter().map(|c| out[*c as usize].name.as_str()).collect();
    assert_eq!(names, vec!["a", "b", "top.log"]);
}

#[test]
fn depth_first_sums_saturate() {
    let mut nodes = vec![
        TreeNode::root("r".to_string()),
        file(1, "big", 0, u64::MAX - 1, u64::MAX),
        file(2, "small", 0, 5, 4096),
    ];
    link(&mut nodes);
    let out = finalize_tree(nodes);
    assert_eq!(totals(&out[0]), (u64::MAX, u64::MAX, 2, 0));
}

#[test]
fn depth_first_counts_a_child_as_often_as_listed() {
    let mut nodes = vec![TreeNode::root("r".to_string()), file(1, "f", 0, 3, 4096)];
    nodes[0].children = vec![1, 1];
    let out = finalize_tree(nodes);
    assert_eq!(totals(&out[0]), (6, 8192, 2, 0));
}

#[test]
fn depth_first_leaves_unreached_nodes_as_they_were() {
    let nodes = vec![
        TreeNode::root("r".to_string()),
        TreeNode::new(1, "f".to_string(), None, false, 3, 4096, None, None, None),
        TreeNode::new(2, "d".to_string(), None, true, 0, 0, None, None, None),
    ];
    let out = finalize_tree(nodes);
    assert_eq!(totals(&out[0]), (0, 0, 0, 0));
    assert_eq!(totals(&out[1]), (3, 4096, 1, 0));
    assert_eq!(totals(&out[2]), (0, 0, 0, 1));
}

#[test]
fn depth_first_skips_an_open_ancestor() {
    // 1 and 2 list each other: 2 closes before 1 and does not count 1
    let mut nodes = vec![TreeNode::root("r".to_string()), dir(1, "p", 0), file(2, "q", 1, 9, 4096)];
    nodes[0].children = vec![1];
    nodes[1].children = vec![2];
    nodes[2].children = vec![1];
    let out = finalize_tree(nodes);
    assert_eq!(totals(&out[2]), (9, 4096, 1, 0));
    assert_eq!(totals(&out[1]), (9, 4096, 1, 1));
    assert_eq!(totals(&out[0]), (9, 4096, 1, 1));
}

#[test]
fn depth_first_empty_tree_gets_a_root() {
    let mut nodes: Vec<TreeNode> = Vec::new();
    finalize_tree_in_place(&mut nodes);
    assert_eq!(nodes.len(), 1);
    assert_eq!(nodes[0].name, "root");
    assert_eq!(nodes[0].dir_count, 0);
}
