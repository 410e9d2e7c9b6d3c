//! Building the directory tree from a depth-first directory walk.
use vstd::prelude::*;
use crate::models::{NodeDto, ScanResult};
use crate::tree::{NodeView, TreeNode, views, dto_views, finalized, finalize_tree, child_counts_match,
    extension_rule, root_view, opt_string_view};
use crate::laws::linked;
use crate::query::{parents_acyclic, law_parents_precede_acyclic};

verus! {

/// At most this many warnings are kept per scan.
pub const WARN_LIMIT: usize = 64;

/// Space that a file of `size` bytes takes in clusters of `cluster` bytes.
pub open spec fn spec_approximate_allocated(size: int, cluster: int) -> int {
    if size == 0 { 0 } else { ((size + cluster - 1) / cluster) * cluster }
}

/// Space that a file of `size` bytes takes in whole clusters of `cluster_size` bytes.
pub fn approximate_allocated(size: u64, cluster_size: u64) -> (r: u64)
    requires
        cluster_size > 0,
        spec_approximate_allocated(size as int, cluster_size as int) <= u64::MAX,
    ensures
        r as int == spec_approximate_allocated(size as int, cluster_size as int),
{
    if size == 0 {
        return 0;
    }
    let q0 = size / cluster_size;
    proof {
        let s = size as int;
        let c = cluster_size as int;
        assert(s % c != 0 ==> q0 < u64::MAX) by (nonlinear_arith)
            requires c > 0, s > 0, q0 as int == s / c, s <= u64::MAX;
    }
    let q = if size % cluster_size == 0 { q0 } else { q0 + 1 };
    proof {
        let s = size as int;
        let c = cluster_size as int;
        assert(q as int == (s + c - 1) / c) by (nonlinear_arith)
            requires
                c > 0, s > 0,
                q as int == s / c + if s % c == 0 { 0int } else { 1int };
    }
    q * cluster_size
}

/// Whether the whole clusters of a `size`-byte file fit in a `u64`.
pub fn allocation_fits(size: u64, cluster_size: u64) -> (r: bool)
    requires
        cluster_size > 0,
    ensures
        r == (spec_approximate_allocated(size as int, cluster_size as int) <= u64::MAX),
{
    if size == 0 {
        return true;
    }
    let q0 = size / cluster_size;
    proof {
        let s = size as int;
        let c = cluster_size as int;
        assert(s % c != 0 ==> q0 < u64::MAX) by (nonlinear_arith)
            requires c > 0, s > 0, q0 as int == s / c, s <= u64::MAX;
    }
    let q = if size % cluster_size == 0 { q0 } else { q0 + 1 };
    proof {
        let s = size as int;
        let c = cluster_size as int;
        assert(q as int == (s + c - 1) / c) by (nonlinear_arith)
            requires
                c > 0, s > 0,
                q as int == s / c + if s % c == 0 { 0int } else { 1int };
    }
    q.checked_mul(cluster_size).is_some()
}

/// Unix seconds for a Windows FILETIME (100 ns ticks since 1601); 0 stays 0.
pub fn filetime_to_unix(filetime: u64) -> (r: i64)
    ensures
        r == crate::record::ntfs_time(filetime as int),
{
    crate::record::ntfs_time_to_unix(filetime)
}

/// The name shown for the scanned root: its display text, or `/` when empty.
pub fn display_root(text: String) -> (r: String)
    ensures
        r@ == (if text@.len() == 0 { "/"@ } else { text@ }),
{
    if text.as_str().is_empty() {
        "/".to_owned()
    } else {
        text
    }
}

/// Keeps a warning while fewer than [`WARN_LIMIT`] are kept.
pub fn push_warning(warnings: &mut Vec<String>, warning: String)
    ensures
        final(warnings)@ == (if old(warnings)@.len() < WARN_LIMIT { old(warnings)@.push(warning) } else { old(warnings)@ }),
{
    if warnings.len() < WARN_LIMIT {
        warnings.push(warning);
    }
}

/// A directory tree under construction from walk entries that arrive in
/// depth-first order, with the last directory seen at each depth.
pub struct WalkTree {
    pub nodes: Vec<TreeNode>,
    pub parent_at_depth: Vec<u32>,
}

/// One entry of the walk: its depth below the root (the root is depth 0),
/// its name, kind, size and times.
pub struct WalkEntry {
    pub depth: usize,
    pub name: String,
    pub is_dir: bool,
    pub is_file: bool,
    pub size: u64,
    pub created: Option<i64>,
    pub modified: Option<i64>,
    pub accessed: Option<i64>,
}

impl WalkTree {
    /// Well-formedness: the ancestors table names existing directories; ids are
    /// `u32` and equal positions; the root has no parent and every other
    /// node's parent is a directory that comes before it; every listed child is a later node
    /// whose parent is the lister.
    pub open spec fn wf(&self) -> bool {
        &&& self.nodes@.len() >= 1
        &&& self.nodes@.len() <= u32::MAX
        &&& forall|d: int| 0 <= d < self.parent_at_depth@.len() ==> (#[trigger] self.parent_at_depth@[d] as int) < self.nodes@.len()
        &&& forall|d: int| 0 <= d < self.parent_at_depth@.len() ==> self.nodes@[#[trigger] self.parent_at_depth@[d] as int].is_dir
        &&& self.nodes@[0].is_dir
        &&& forall|i: int| 0 < i < self.nodes@.len() ==> ((#[trigger] self.nodes@[i]).parent matches Some(p) && self.nodes@[p as int].is_dir)
        &&& forall|i: int| 0 <= i < self.nodes@.len() ==> (#[trigger] self.nodes@[i]).id == i
        &&& self.nodes@[0].parent is None
        &&& forall|i: int| 0 < i < self.nodes@.len() ==> ((#[trigger] self.nodes@[i]).parent matches Some(p) && (p as int) < i)
        &&& forall|i: int, c: u32| 0 <= i < self.nodes@.len() && #[trigger] self.nodes@[i].children@.contains(c) ==>
                i < c < self.nodes@.len() && self.nodes@[c as int].parent == Some(i as u32)
    }

    /// The table of last directories after growing it to cover `depth`.
    pub open spec fn grown_table(table: Seq<u32>, depth: int) -> Seq<u32> {
        if table.len() <= depth { table + Seq::new((depth + 1 - table.len()) as nat, |i: int| 0u32) } else { table }
    }

    /// A tree holding only the root, named `root_name`.
    pub fn new(root_name: String) -> (t: Self)
        ensures
            t.wf(),
            views(t.nodes@) == seq![root_view(root_name@)],
            t.parent_at_depth@ == seq![0u32],
    {
        let root = TreeNode::root(root_name);
        assert(root.children@ =~= Seq::<u32>::empty());
        let mut nodes: Vec<TreeNode> = Vec::new();
        nodes.push(root);
        let mut parent_at_depth: Vec<u32> = Vec::new();
        parent_at_depth.push(0);
        assert(views(nodes@) =~= seq![root_view(root_name@)]);
        assert(nodes@[0].children@.len() == 0);
        WalkTree { nodes, parent_at_depth }
    }

    /// Adds one walk entry below the last directory seen one level up; the
    /// root entry itself (depth 0) is skipped. Files take whole clusters of
    /// `cluster_size` bytes; a directory becomes the last one seen at its depth.
    pub fn add_entry(&mut self, entry: WalkEntry, cluster_size: u64)
        requires
            old(self).wf(),
            old(self).nodes@.len() < u32::MAX,
            entry.depth < usize::MAX,
            cluster_size > 0,
            entry.is_file ==> spec_approximate_allocated(entry.size as int, cluster_size as int) <= u64::MAX,
        ensures
            final(self).wf(),
            entry.depth == 0 ==> views(final(self).nodes@) == views(old(self).nodes@)
                && final(self).parent_at_depth@ == old(self).parent_at_depth@,
            entry.depth > 0 ==> ({
                let table = Self::grown_table(old(self).parent_at_depth@, entry.depth as int);
                let parent = table[entry.depth - 1] as int;
                let id = old(self).nodes@.len() as int;
                let node = NodeView {
                    id: id as u32,
                    parent: Some(parent as u32),
                    name: entry.name@,
                    is_dir: entry.is_dir,
                    size: entry.size,
                    allocated: if entry.is_file { spec_approximate_allocated(entry.size as int, cluster_size as int) as u64 } else { 0 },
                    total_size: entry.size,
                    total_allocated: if entry.is_file { spec_approximate_allocated(entry.size as int, cluster_size as int) as u64 } else { 0 },
                    children: seq![],
                    file_count: if entry.is_dir { 0 } else { 1 },
                    dir_count: if entry.is_dir { 1 } else { 0 },
                    extension: views(final(self).nodes@)[id].extension,
                    created: entry.created,
                    modified: entry.modified,
                    accessed: entry.accessed,
                };
                let old_views = views(old(self).nodes@);
                &&& extension_rule(entry.is_dir, entry.name@, views(final(self).nodes@)[id].extension)
                &&& views(final(self).nodes@) == old_views.update(parent,
                        NodeView { children: old_views[parent].children.push(id as u32), ..old_views[parent] }).push(node)
                &&& final(self).parent_at_depth@ == (if entry.is_dir { table.update(entry.depth as int, id as u32) } else { table })
            }),
    {
        let depth = entry.depth;
        if depth == 0 {
            return;
        }
        let ghost table0 = self.parent_at_depth@;
        if self.parent_at_depth.len() <= depth {
        while self.parent_at_depth.len() <= depth
            invariant
                self.parent_at_depth@.len() >= table0.len(),
                self.parent_at_depth@ == Self::grown_table(table0, depth as int).take(self.parent_at_depth@.len() as int),
                self.parent_at_depth@.len() <= depth + 1,
                forall|d: int| 0 <= d < self.parent_at_depth@.len() ==> (#[trigger] self.parent_at_depth@[d] as int) < self.nodes@.len(),
                self.nodes@.len() >= 1,
                self.nodes@ == old(self).nodes@,
                old(self).nodes@.len() < u32::MAX,
                depth < usize::MAX,
            decreases depth + 1 - self.parent_at_depth@.len(),
        {
            self.parent_at_depth.push(0);
            assert(self.parent_at_depth@ =~= Self::grown_table(table0, depth as int).take(self.parent_at_depth@.len() as int));
        }
        }
        assert(self.parent_at_depth@ =~= Self::grown_table(table0, depth as int));
        let parent_id = self.parent_at_depth[depth - 1];
        let allocated = if entry.is_file { approximate_allocated(entry.size, cluster_size) } else { 0 };
        let id = self.nodes.len() as u32;
        let ghost old_views = views(self.nodes@);
        let node = TreeNode::new(id, entry.name, Some(parent_id), entry.is_dir, entry.size, allocated,
            entry.created, entry.modified, entry.accessed);
        assert(node.children@ =~= Seq::<u32>::empty());
        self.nodes.push(node);
        self.nodes[parent_id as usize].children.push(id);
        if entry.is_dir {
            self.parent_at_depth.set(depth, id);
        }
        proof {
            let p = parent_id as int;
            let target = old_views.update(p, NodeView { children: old_views[p].children.push(id), ..old_views[p] }).push(node@);
            assert forall|x: int| 0 <= x < self.nodes@.len() implies #[trigger] views(self.nodes@)[x] == target[x] by {
            }
            assert(views(self.nodes@) =~= target);
            assert forall|d: int| 0 <= d < self.parent_at_depth@.len() implies (#[trigger] self.parent_at_depth@[d] as int) < self.nodes@.len() by {
            }
            let old_nodes = old(self).nodes@;
            assert forall|i: int| 0 <= i < self.nodes@.len() implies (#[trigger] self.nodes@[i]).id == i by {
                if i < old_nodes.len() { assert(self.nodes@[i].id == old_nodes[i].id); }
            }
            assert forall|i: int| 0 < i < self.nodes@.len() implies ((#[trigger] self.nodes@[i]).parent matches Some(q) && (q as int) < i) by {
                if i < old_nodes.len() { assert(self.nodes@[i].parent == old_nodes[i].parent); }
            }
            assert(self.nodes@[0].parent == old_nodes[0].parent);
            assert forall|i: int, c: u32| 0 <= i < self.nodes@.len() && #[trigger] self.nodes@[i].children@.contains(c) implies
                i < c < self.nodes@.len() && self.nodes@[c as int].parent == Some(i as u32) by {
                if i == old_nodes.len() {
                    assert(self.nodes@[i].children@.len() == 0);
                } else if i == p {
                    let w = choose|w: int| 0 <= w < self.nodes@[i].children@.len() && self.nodes@[i].children@[w] == c;
                    if w < old_nodes[i].children@.len() {
                        assert(old_nodes[i].children@[w] == c);
                        assert(old_nodes[i].children@.contains(c));
                    }
                } else {
                    assert(self.nodes@[i].children@ == old_nodes[i].children@);
                }
                if (c as int) < old_nodes.len() {
                    assert(self.nodes@[c as int].parent == old_nodes[c as int].parent);
                }
            }
        }
    }

    /// The finished tree (see [`finalize_tree`]).
    pub fn finish(self) -> (r: Vec<NodeDto>)
        ensures
            dto_views(r@) == finalized(views(self.nodes@)),
            child_counts_match(r@),
    {
        finalize_tree(self.nodes)
    }
}

/// The root's totals of a finished tree, or zeros when it is empty.
pub open spec fn root_totals(nodes: Seq<NodeDto>) -> (u64, u64, u64, u64) {
    if nodes.len() == 0 { (0, 0, 0, 0) } else {
        (nodes[0].total_size, nodes[0].total_allocated, nodes[0].file_count, nodes[0].dir_count)
    }
}

/// The result of a scan of `root` made by `scanner`: node count and totals
/// come from the finished tree's root.
pub fn scan_result(root: String, scanner: String, elapsed_ms: u64, nodes: Vec<NodeDto>, warnings: Vec<String>)
    -> (r: ScanResult)
    ensures
        r.root@ == root@,
        r.scanner@ == scanner@,
        r.elapsed_ms == elapsed_ms,
        r.node_count == nodes@.len() as u64,
        (r.total_size, r.total_allocated, r.file_count, r.dir_count) == root_totals(nodes@),
        r.nodes@ == nodes@,
        r.warnings@ == warnings@,
{
    let (total_size, total_allocated, file_count, dir_count) = if nodes.len() == 0 {
        (0, 0, 0, 0)
    } else {
        (nodes[0].total_size, nodes[0].total_allocated, nodes[0].file_count, nodes[0].dir_count)
    };
    ScanResult {
        root,
        scanner,
        elapsed_ms,
        node_count: nodes.len() as u64,
        file_count,
        dir_count,
        total_size,
        total_allocated,
        nodes,
        warnings,
    }
}

/// A tree under construction from a walk is linked both ways (see
/// [`linked`]): the root has no parent and every listed child names its
/// lister as parent; every other node's parent is an earlier directory.
pub proof fn law_walk_tree_linked(t: &WalkTree)
    requires
        t.wf(),
    ensures
        linked(views(t.nodes@)),
        forall|i: int| 0 < i < t.nodes@.len() ==> ((#[trigger] views(t.nodes@)[i]).parent matches Some(p) && (p as int) < i),
        forall|i: int| 0 < i < t.nodes@.len() ==>
            ((#[trigger] views(t.nodes@)[i]).parent matches Some(p) && views(t.nodes@)[p as int].is_dir),
{
    let v = views(t.nodes@);
    assert forall|i: int, c: u32| 0 <= i < v.len() && #[trigger] v[i].children.contains(c)
        && (c as int) < v.len() && c as int != i implies v[c as int].parent == Some(i as u32) by {
        assert(t.nodes@[i].children@.contains(c));
    }
    assert forall|i: int| 0 < i < t.nodes@.len() implies ((#[trigger] views(t.nodes@)[i]).parent matches Some(p) && (p as int) < i) by {
        assert(t.nodes@[i].parent == v[i].parent);
    }
    assert forall|i: int| 0 < i < t.nodes@.len() implies
        ((#[trigger] views(t.nodes@)[i]).parent matches Some(p) && views(t.nodes@)[p as int].is_dir) by {
        assert(t.nodes@[i].parent == v[i].parent);
        let p = t.nodes@[i].parent.unwrap();
        assert(p < i);
        assert(v[p as int].is_dir == t.nodes@[p as int].is_dir);
    }
}

/// Following parents ends from every node of a finished walk tree.
pub proof fn law_walk_result_acyclic(t: &WalkTree)
    requires
        t.wf(),
    ensures
        parents_acyclic(finalized(views(t.nodes@))),
{
    law_walk_tree_linked(t);
    let f = finalized(views(t.nodes@));
    assert forall|i: int| 0 <= i < f.len() implies ((#[trigger] f[i]).parent matches Some(p) ==> (p as int) < i) by {
        assert(f[i].parent == views(t.nodes@)[i].parent);
        if i > 0 {
            assert(views(t.nodes@)[i].parent matches Some(p) && (p as int) < i);
        }
    }
    law_parents_precede_acyclic(f);
}

} // verus!
