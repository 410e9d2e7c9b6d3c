use fastscan_mcp::models::NodeDto;
use fastscan_mcp::query::{
    ancestor_ids, browse_directory, build_path, contains_chars, find_empty_directories, find_files_by_age,
    get_largest_directories, get_largest_files, get_node_details, normalize_extension_filter,
    normalize_extension_option, parents_all_end, parents_end, search_files, search_nodes, QueryError,
    SearchFilter,
};
use fastscan_mcp::stats::get_extension_stats;
use fastscan_mcp::tree::{finalize_tree, TreeNode};

fn node(id: u32, name: &str, parent: u32, is_dir: bool, size: u64, modified: Option<i64>) -> TreeNode {
    TreeNode::new(id, name.to_string(), Some(parent), is_dir, size, size, None, modified, None)
}

/// C:\ ─ Users\ ─ me\ ─ Report.TXT (300), notes.txt (50)
///     │        └ empty\
///     ├ Windows\ ─ big.DLL (1000), tiny.dll (1)
///     └ readme (20), old.TXT (5)
fn scanned() -> Vec<NodeDto> {
    let mut nodes = vec![
        TreeNode::root("C:\\".to_string()),
        node(1, "Users", 0, true, 0, None),
        node(2, "me", 1, true, 0, None),
        node(3, "Report.TXT", 2, false, 300, Some(1_000)),
        node(4, "notes.txt", 2, false, 50, Some(5_000)),
        node(5, "empty", 1, true, 0, None),
        node(6, "Windows", 0, true, 0, None),
        node(7, "big.DLL", 6, false, 1000, Some(2_000)),
        node(8, "tiny.dll", 6, false, 1, None),
        node(9, "readme", 0, false, 20, Some(100)),
        node(10, "old.TXT", 0, false, 5, Some(100)),
    ];
    for i in 1..nodes.len() {
        let p = nodes[i].parent.unwrap() as usize;
        nodes[p].children.push(i as u32);
    }
    finalize_tree(nodes)
}

fn chars(s: &str) -> Vec<char> {
    s.chars().collect()
}

#[test]
fn paths_join_names_from_the_top() {
    let n = scanned();
    assert!(parents_all_end(&n));
    assert_eq!(build_path(3, &n, "C:\\"), "C:\\Users\\me\\Report.TXT");
    assert_eq!(build_path(0, &n, "C:\\"), "C:\\");
    assert_eq!(build_path(99, &n, "D:\\"), "D:\\");
    assert_eq!(ancestor_ids(3, &n), vec![3, 2, 1, 0]);
}

#[test]
fn cyclic_parents_are_detected() {
    let mut n = scanned();
    n[1].parent = Some(2);
    assert!(!parents_end(&n, 3));
    assert!(parents_end(&n, 9));
    assert!(parents_end(&n, 500));
    assert!(!parents_all_end(&n));
}

#[test]
fn browsing_lists_children_in_order() {
    let n = scanned();
    let kids = browse_directory(&n, 0).unwrap();
    let names: Vec<&str> = kids.iter().map(|c| c.name.as_str()).collect();
    assert_eq!(names, vec!["Windows", "Users", "readme", "old.TXT"]);
    assert_eq!(kids[0].child_count, 2);
    assert_eq!(kids[1].total_size, 350);
    assert_eq!(browse_directory(&n, 3).unwrap().len(), 0);
    assert!(matches!(browse_directory(&n, 11), Err(QueryError::NodeNotFound)));
}

#[test]
fn details_run_from_the_root_down() {
    let n = scanned();
    let chain = get_node_details(&n, 4);
    let names: Vec<&str> = chain.iter().map(|c| c.name.as_str()).collect();
    assert_eq!(names, vec!["C:\\", "Users", "me", "notes.txt"]);
    assert_eq!(chain[3].modified, Some(5_000));
    assert_eq!(get_node_details(&n, 77).len(), 0);
}

#[test]
fn text_helpers() {
    assert!(contains_chars(&chars("report.txt"), &chars("port")));
    assert!(contains_chars(&chars("abc"), &chars("")));
    assert!(!contains_chars(&chars("ab"), &chars("abc")));
    assert_eq!(normalize_extension_filter("..TXT"), "txt");
    assert_eq!(normalize_extension_filter("Dll"), "dll");
    assert_eq!(normalize_extension_option(None), None);
    assert_eq!(normalize_extension_option(Some(".Exe")), Some("exe".to_string()));
}

fn filter(query: &str) -> SearchFilter {
    SearchFilter {
        query: query.to_string(),
        max_results: 50,
        min_size: None,
        max_size: None,
        extension: None,
        is_dir: None,
        older_than_secs: None,
    }
}

#[test]
fn filtered_search_orders_by_allocated_total() {
    let n = scanned();
    let r = search_nodes(&n, "C:\\", &filter("E"));
    let names: Vec<&str> = r.iter().map(|x| x.name.as_str()).collect();
    assert_eq!(names, vec!["Users", "me", "Report.TXT", "notes.txt", "readme", "empty"]);
    assert_eq!(r[2].path, "C:\\Users\\me\\Report.TXT");
    let mut f = filter("t");
    f.extension = Some(".TXT".to_string());
    f.max_size = Some(100);
    let names: Vec<String> = search_nodes(&n, "C:\\", &f).into_iter().map(|x| x.name).collect();
    assert_eq!(names, vec!["notes.txt", "old.TXT"]);
    let mut f = filter("");
    f.is_dir = Some(true);
    assert!(search_nodes(&n, "C:\\", &f).is_empty());
}

#[test]
fn filtered_search_takes_first_matches_before_ordering() {
    let n = scanned();
    let mut f = filter("e");
    f.max_results = 2;
    let names: Vec<String> = search_nodes(&n, "C:\\", &f).into_iter().map(|x| x.name).collect();
    // the first two matches in node order are "Users" and "me"
    assert_eq!(names, vec!["Users", "me"]);
    let mut f = filter("x");
    f.older_than_secs = Some(1_500);
    f.min_size = Some(10);
    let names: Vec<String> = search_nodes(&n, "C:\\", &f).into_iter().map(|x| x.name).collect();
    assert_eq!(names, vec!["Report.TXT"]);
}

#[test]
fn plain_search_shows_directory_then_name() {
    let n = scanned();
    let r = search_files(&n, "C:\\", "DLL", 10);
    let paths: Vec<&str> = r.iter().map(|x| x.path.as_str()).collect();
    // the root node's own name is joined onto the scan root
    assert_eq!(paths, vec!["C:\\C:\\Windows\\big.DLL", "C:\\C:\\Windows\\tiny.dll"]);
    let r = search_files(&n, "", "readme", 10);
    assert_eq!(r[0].path, "\\C:\\readme");
    assert!(search_files(&n, "C:\\", "", 10).is_empty());
    assert!(search_files(&n, "C:\\", "zzz", 10).is_empty());
}

#[test]
fn largest_files_by_size() {
    let n = scanned();
    let r = get_largest_files(&n, "C:\\", 3, 0, None);
    let names: Vec<&str> = r.iter().map(|x| x.name.as_str()).collect();
    assert_eq!(names, vec!["big.DLL", "Report.TXT", "notes.txt"]);
    assert_eq!(r[0].path, "C:\\Windows\\big.DLL");
    let r = get_largest_files(&n, "C:\\", 10, 6, Some("txt"));
    let names: Vec<&str> = r.iter().map(|x| x.name.as_str()).collect();
    assert_eq!(names, vec!["Report.TXT", "notes.txt"]);
    let r = get_largest_files(&n, "C:\\", 10, 0, Some(".TXT"));
    assert_eq!(r.len(), 3);
    assert_eq!(get_largest_files(&n, "C:\\", 0, 0, None).len(), 0);
}

#[test]
fn largest_and_empty_directories() {
    let n = scanned();
    let r = get_largest_directories(&n, "C:\\", 10, 0);
    let names: Vec<&str> = r.iter().map(|x| x.name.as_str()).collect();
    assert_eq!(names, vec!["Windows", "Users", "me", "empty"]);
    assert_eq!(r[1].child_count, 2);
    assert_eq!(r[1].file_count, 2);
    assert_eq!(r[1].path, "C:\\Users");
    let r = get_largest_directories(&n, "C:\\", 10, 400);
    assert_eq!(r.len(), 1);
    let e = find_empty_directories(&n, "C:\\", 100);
    assert_eq!(e.len(), 1);
    assert_eq!(e[0].path, "C:\\Users\\empty");
    assert_eq!(e[0].child_count, 0);
}

#[test]
fn old_files_oldest_first() {
    let n = scanned();
    let r = find_files_by_age(&n, "C:\\", 3_000, 10, 0, None);
    let names: Vec<&str> = r.iter().map(|x| x.name.as_str()).collect();
    assert_eq!(names, vec!["readme", "old.TXT", "Report.TXT", "big.DLL"]);
    let r = find_files_by_age(&n, "C:\\", 3_000, 10, 10, Some("txt"));
    let names: Vec<&str> = r.iter().map(|x| x.name.as_str()).collect();
    assert_eq!(names, vec!["Report.TXT"]);
    assert!(find_files_by_age(&n, "C:\\", 100, 10, 0, None).is_empty());
}

#[test]
fn extension_statistics() {
    let n = scanned();
    let stats = get_extension_stats(&n);
    let rows: Vec<(&str, u64, u64)> = stats.iter().map(|s| (s.extension.as_str(), s.size, s.file_count)).collect();
    assert_eq!(rows, vec![("dll", 1001, 2), ("txt", 355, 3), ("(无扩展名)", 20, 1)]);
}

#[test]
fn extension_statistics_keep_the_hundred_largest() {
    let mut nodes = vec![TreeNode::root("r".to_string())];
    for i in 1..=120u32 {
        nodes.push(node(i, &format!("f.e{i}"), 0, false, i as u64, None));
        nodes[0].children.push(i);
    }
    let stats = get_extension_stats(&finalize_tree(nodes));
    assert_eq!(stats.len(), 100);
    assert_eq!(stats[0].extension, "e120");
    assert_eq!(stats[99].extension, "e21");
}

use fastscan_mcp::duplicates::find_duplicate_files;
use fastscan_mcp::treemap::{build_treemap_node, order_treemap, treemap_candidates};

#[test]
fn treemap_nests_within_the_budget() {
    let n = scanned();
    let mut budget = 50u32;
    let t = build_treemap_node(0, &n, &mut budget).unwrap();
    assert_eq!(t.size, 1376);
    assert!(t.is_dir);
    let names: Vec<&str> = t.children.iter().map(|c| c.name.as_str()).collect();
    assert_eq!(names, vec!["Windows", "Users", "readme", "old.TXT"]);
    let users = &t.children[1];
    assert_eq!(users.children.len(), 1);
    assert_eq!(users.children[0].children.len(), 2);
    assert_eq!(budget, 40);

    let mut small = 2u32;
    let t = build_treemap_node(0, &n, &mut small).unwrap();
    assert_eq!(t.children.len(), 1);
    assert_eq!(t.children[0].name, "Windows");
    assert_eq!(t.children[0].children.len(), 2);
    assert_eq!(small, 0);

    let mut none_left = 0u32;
    assert!(build_treemap_node(9, &n, &mut none_left).is_none());
    let mut one = 1u32;
    let leaf = build_treemap_node(9, &n, &mut one).unwrap();
    assert_eq!((leaf.name.as_str(), leaf.size, one), ("readme", 20, 0));
    assert!(build_treemap_node(5, &n, &mut one).is_none());
    assert!(build_treemap_node(500, &n, &mut one).is_none());
}

#[test]
fn treemap_candidates_and_order() {
    let n = scanned();
    let (cands, total) = treemap_candidates(&n, 0).unwrap();
    assert_eq!(cands, vec![(6, 1001), (1, 350), (9, 20), (10, 5)]);
    assert_eq!(total, 1376);
    let (cands, total) = treemap_candidates(&n, 1).unwrap();
    assert_eq!(cands, vec![(2, 350)]);
    assert_eq!(total, 350);
    assert!(matches!(treemap_candidates(&n, 99), Err(QueryError::RootNotFound)));
    let mut b = 10u32;
    let small = build_treemap_node(10, &n, &mut b).unwrap();
    let big = build_treemap_node(7, &n, &mut b).unwrap();
    let ordered = order_treemap(vec![small, big]);
    assert_eq!(ordered[0].name, "big.DLL");
}

fn dup_tree() -> Vec<NodeDto> {
    let mut nodes = vec![
        TreeNode::root("/".to_string()),
        node(1, "d1", 0, true, 0, None),
        node(2, "d2", 0, true, 0, None),
        node(3, "a.txt", 1, false, 10, None),
        node(4, "A.TXT", 2, false, 10, None),
        node(5, "a.txt", 2, false, 20, None),
        node(6, "b", 0, false, 5, None),
        node(7, "b", 1, false, 5, None),
        node(8, "B", 2, false, 5, None),
        node(9, "c", 0, false, 1, None),
    ];
    for i in 1..nodes.len() {
        let p = nodes[i].parent.unwrap() as usize;
        nodes[p].children.push(i as u32);
    }
    finalize_tree(nodes)
}

#[test]
fn duplicate_groups_most_copies_first() {
    let n = dup_tree();
    let groups = find_duplicate_files(&n, "/", 0, 50);
    let keys: Vec<(&str, u64, usize)> = groups.iter().map(|g| (g.file_name.as_str(), g.size, g.file_count)).collect();
    assert_eq!(keys, vec![("b", 5, 3), ("a.txt", 10, 2)]);
    assert_eq!(groups[0].total_size, 15);
    let paths: Vec<&str> = groups[1].files.iter().map(|f| f.path.as_str()).collect();
    assert_eq!(paths, vec!["/d1\\a.txt", "/d2\\A.TXT"]);
    assert_eq!(groups[1].truncated, None);
    let only_big = find_duplicate_files(&n, "/", 6, 50);
    assert_eq!(only_big.len(), 1);
    assert_eq!(only_big[0].file_name, "a.txt");
    assert_eq!(find_duplicate_files(&n, "/", 0, 1).len(), 1);
    assert!(find_duplicate_files(&Vec::new(), "/", 0, 5).is_empty());
}

use fastscan_mcp::query::days_before;

#[test]
fn age_cutoff_counts_whole_days() {
    assert_eq!(days_before(1_700_000_000, 0), 1_700_000_000);
    assert_eq!(days_before(1_700_000_000, 30), 1_700_000_000 - 30 * 86400);
    assert_eq!(days_before(0, 1), -86400);
}
