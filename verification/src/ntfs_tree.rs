//! Reconstruction of the directory tree from the user records of the MFT.
use vstd::prelude::*;
use crate::models::NodeDto;
use crate::record::{ParsedRecord, ParsedRecordView};
use crate::laws::linked;
use crate::text::{chars_of, is_dot};
use crate::desktop_tree::{finalized, finalize_tree};
use crate::tree::{NodeView, TreeNode, views, dto_views, child_counts_match,
    extension_rule, opt_string_view, root_view};

verus! {

/// The record number of the root directory.
pub const ROOT_RECORD: u64 = 5;

/// Whether a record becomes a node: not the root directory itself, not the
/// `.` entry, and not a metafile (name starting with `$`).
pub open spec fn kept_record(r: ParsedRecordView) -> bool {
    r.record_number != 5 && r.name != seq!['.'] && !(r.name.len() > 0 && r.name[0] == '$')
}

/// The records that become nodes, in order.
pub open spec fn kept_records(rs: Seq<ParsedRecordView>) -> Seq<ParsedRecordView> {
    rs.filter(keep_pred())
}

pub open spec fn keep_pred() -> spec_fn(ParsedRecordView) -> bool {
    |x: ParsedRecordView| kept_record(x)
}

pub open spec fn record_views(rs: Seq<ParsedRecord>) -> Seq<ParsedRecordView> {
    rs.map_values(|r: ParsedRecord| r@)
}

/// 1-based position of the last of the first `k` records with record number
/// `frn`, or 0 when there is none.
pub open spec fn frn_node(f: Seq<ParsedRecordView>, frn: int, k: int) -> int
    decreases k,
{
    if k <= 0 {
        0
    } else if f[k - 1].record_number as int == frn {
        k
    } else {
        frn_node(f, frn, k - 1)
    }
}

/// Node id of the parent of node `id` (the record `f[id - 1]`): the record
/// numbered 5 is the root; an unknown parent, the node itself, or a parent
/// that is not a directory also make the root the parent.
pub open spec fn ntfs_parent(f: Seq<ParsedRecordView>, id: int) -> int {
    let r = f[id - 1];
    let p0 = if r.parent_record == 5 { 0 } else { frn_node(f, r.parent_record as int, f.len() as int) };
    let p1 = if p0 == id { 0 } else { p0 };
    if p1 != 0 && !f[p1 - 1].is_dir { 0 } else { p1 }
}

/// The ids of the first `k` nodes (ids `1..=k`) whose parent is `p`, in order.
pub open spec fn ntfs_children(f: Seq<ParsedRecordView>, p: int, k: int) -> Seq<u32>
    decreases k,
{
    if k <= 0 {
        seq![]
    } else if ntfs_parent(f, k) == p {
        ntfs_children(f, p, k - 1).push(k as u32)
    } else {
        ntfs_children(f, p, k - 1)
    }
}

/// The node for the record `f[id - 1]` as first created: no parent yet, no children.
pub open spec fn fresh_node(f: Seq<ParsedRecordView>, exts: Seq<Option<Seq<char>>>, id: int) -> NodeView {
    NodeView { parent: None, children: seq![], ..record_node(f, exts, id) }
}

proof fn lemma_frn_node_range(f: Seq<ParsedRecordView>, frn: int, k: int)
    requires 0 <= k <= f.len(),
    ensures
        0 <= frn_node(f, frn, k) <= k,
        frn_node(f, frn, k) > 0 ==> f[frn_node(f, frn, k) - 1].record_number as int == frn,
    decreases k,
{
    if k > 0 && f[k - 1].record_number as int != frn {
        lemma_frn_node_range(f, frn, k - 1);
    }
}

proof fn lemma_frn_node_absent(f: Seq<ParsedRecordView>, frn: int, k: int, max: int)
    requires
        0 <= k <= f.len(),
        frn > max,
        forall|j: int| 0 <= j < f.len() ==> (#[trigger] f[j]).record_number <= max,
    ensures
        frn_node(f, frn, k) == 0,
    decreases k,
{
    if k > 0 {
        lemma_frn_node_absent(f, frn, k - 1, max);
    }
}

/// Whether `exts` holds, per record of `f`, an extension that the node of the
/// record may carry (see [`extension_rule`]).
pub open spec fn extensions_ok(f: Seq<ParsedRecordView>, exts: Seq<Option<Seq<char>>>) -> bool {
    &&& exts.len() == f.len()
    &&& forall|i: int| 0 <= i < f.len() ==> extension_rule(f[i].is_dir, f[i].name, #[trigger] exts[i])
}

/// The node for the record `f[id - 1]` before finishing the tree, carrying
/// the extension `exts[id - 1]`.
pub open spec fn record_node(f: Seq<ParsedRecordView>, exts: Seq<Option<Seq<char>>>, id: int) -> NodeView {
    let r = f[id - 1];
    NodeView {
        id: id as u32,
        parent: Some(ntfs_parent(f, id) as u32),
        name: r.name,
        is_dir: r.is_dir,
        size: r.size,
        allocated: r.allocated,
        total_size: r.size,
        total_allocated: r.allocated,
        children: ntfs_children(f, id, f.len() as int),
        file_count: if r.is_dir { 0 } else { 1 },
        dir_count: if r.is_dir { 1 } else { 0 },
        extension: exts[id - 1],
        created: Some(r.created),
        modified: Some(r.modified),
        accessed: Some(r.accessed),
    }
}

/// The tree of the kept records `f` under a root named `root`, before
/// finishing, with the extensions `exts`.
pub open spec fn ntfs_nodes(root: Seq<char>, f: Seq<ParsedRecordView>, exts: Seq<Option<Seq<char>>>) -> Seq<NodeView> {
    Seq::new(f.len() + 1, |i: int| if i == 0 {
        NodeView { children: ntfs_children(f, 0, f.len() as int), ..root_view(root) }
    } else {
        record_node(f, exts, i)
    })
}

fn keep_record(r: &ParsedRecord) -> (b: bool)
    ensures
        b == kept_record(r@),
{
    if r.record_number == ROOT_RECORD {
        return false;
    }
    if is_dot(r.name.as_str()) {
        return false;
    }
    let cs = chars_of(r.name.as_str());
    !(cs.len() > 0 && cs[0] == '$')
}

fn copy_record(r: &ParsedRecord) -> (c: ParsedRecord)
    ensures
        c@ == r@,
{
    ParsedRecord {
        record_number: r.record_number,
        parent_record: r.parent_record,
        name: r.name.clone(),
        is_dir: r.is_dir,
        size: r.size,
        allocated: r.allocated,
        created: r.created,
        modified: r.modified,
        accessed: r.accessed,
    }
}

/// Builds the finished directory tree of a volume from its user records: the
/// root (node 0) is named `root`; records of the root directory, `.` and
/// metafiles are dropped; the others become nodes 1.. in order, under the
/// directory whose record number they name (the last such record), or under
/// the root when it is unknown, themselves, or not a directory. The tree is
/// finished by [`crate::desktop_tree::finalize_tree`]: totals are gathered by
/// a depth-first walk from the root.
pub fn build_tree_from_records(root: &str, records: Vec<ParsedRecord>) -> (r: Vec<NodeDto>)
    requires
        records@.len() < u32::MAX,
        forall|i: int| 0 <= i < records@.len() ==> (#[trigger] records@[i]).record_number < usize::MAX,
    ensures
        exists|exts: Seq<Option<Seq<char>>>| extensions_ok(kept_records(record_views(records@)), exts)
            && dto_views(r@) == #[trigger] finalized(ntfs_nodes(root@, kept_records(record_views(records@)), exts)),
        child_counts_match(r@),
{
    let ghost all = record_views(records@);
    let ghost pred = keep_pred();
    let mut filtered: Vec<ParsedRecord> = Vec::new();
    let mut i: usize = 0;
    while i < records.len()
        invariant
            i <= records@.len(),
            all == record_views(records@),
            pred == keep_pred(),
            record_views(filtered@) == all.take(i as int).filter(pred),
            filtered@.len() <= i,
            forall|j: int| 0 <= j < records@.len() ==> (#[trigger] records@[j]).record_number < usize::MAX,
            forall|j: int| 0 <= j < filtered@.len() ==> (#[trigger] filtered@[j]).record_number < usize::MAX,
        decreases records@.len() - i,
    {
        proof {
            reveal_with_fuel(Seq::<_>::filter, 1);
            assert(all.take(i + 1).drop_last() =~= all.take(i as int));
        }
        let ghost before = filtered@;
        if keep_record(&records[i]) {
            let c = copy_record(&records[i]);
            filtered.push(c);
            assert(record_views(filtered@) =~= record_views(before).push(c@));
        }
        i += 1;
    }
    assert(all.take(i as int) =~= all);
    let ghost f = record_views(filtered@);
    let n = filtered.len();

    // Node id of the last record with each record number.
    let mut max_frn: u64 = 0;
    let mut k: usize = 0;
    while k < n
        invariant
            k <= n,
            n == filtered@.len(),
            max_frn < usize::MAX,
            forall|j: int| 0 <= j < filtered@.len() ==> (#[trigger] filtered@[j]).record_number < usize::MAX,
            forall|j: int| 0 <= j < k ==> (#[trigger] filtered@[j]).record_number <= max_frn,
        decreases n - k,
    {
        if filtered[k].record_number > max_frn {
            max_frn = filtered[k].record_number;
        }
        k += 1;
    }
    let table_len = (max_frn + 1) as usize;
    let mut frn_to_node_id: Vec<u32> = Vec::new();
    let mut t: usize = 0;
    while t < table_len
        invariant
            t <= table_len,
            frn_to_node_id@.len() == t,
            forall|x: int| 0 <= x < t ==> frn_to_node_id@[x] == 0u32,
        decreases table_len - t,
    {
        frn_to_node_id.push(0);
        t += 1;
    }
    let mut k: usize = 0;
    while k < n
        invariant
            k <= n,
            n == filtered@.len(),
            f == record_views(filtered@),
            n < u32::MAX,
            table_len == max_frn + 1,
            frn_to_node_id@.len() == table_len,
            forall|j: int| 0 <= j < n ==> (#[trigger] filtered@[j]).record_number <= max_frn,
            forall|x: int| 0 <= x < table_len ==> (#[trigger] frn_to_node_id@[x]) as int == frn_node(f, x, k as int),
        decreases n - k,
    {
        let rn = filtered[k].record_number as usize;
        frn_to_node_id.set(rn, (k + 1) as u32);
        k += 1;
    }
    proof { lemma_frn_node_range(f, 0, 0); }
    let mut nodes: Vec<TreeNode> = Vec::new();
    let root_node = TreeNode::root(root.to_owned());
    assert(root_node.children@ =~= Seq::<u32>::empty());
    nodes.push(root_node);
    let ghost mut exts: Seq<Option<Seq<char>>> = Seq::empty();
    let mut k: usize = 0;
    while k < n
        invariant
            k <= n,
            n == filtered@.len(),
            f == record_views(filtered@),
            n < u32::MAX,
            nodes@.len() == k + 1,
            nodes@[0]@ == root_view(root@),
            exts.len() == k,
            forall|j: int| 0 <= j < k ==> extension_rule(f[j].is_dir, f[j].name, #[trigger] exts[j]),
            forall|x: int| 1 <= x <= k ==> (#[trigger] nodes@[x])@ == fresh_node(f, exts, x),
        decreases n - k,
    {
        let rec = &filtered[k];
        let node = TreeNode::new((k + 1) as u32, rec.name.clone(), None, rec.is_dir, rec.size, rec.allocated,
            Some(rec.created), Some(rec.modified), Some(rec.accessed));
        assert(node.children@ =~= Seq::<u32>::empty());
        let ghost prev = exts;
        proof {
            exts = exts.push(opt_string_view(node.extension));
            assert forall|x: int| 1 <= x <= k implies #[trigger] fresh_node(f, exts, x) == fresh_node(f, prev, x) by {
                assert(exts[x - 1] == prev[x - 1]);
            }
        }
        nodes.push(node);
        k += 1;
    }
    let mut idx: usize = 0;
    while idx < n
        invariant
            idx <= n,
            n == filtered@.len(),
            f == record_views(filtered@),
            n < u32::MAX,
            nodes@.len() == n + 1,
            table_len == max_frn + 1,
            frn_to_node_id@.len() == table_len,
            forall|j: int| 0 <= j < n ==> (#[trigger] filtered@[j]).record_number <= max_frn,
            forall|x: int| 0 <= x < table_len ==> (#[trigger] frn_to_node_id@[x]) as int == frn_node(f, x, n as int),
            nodes@[0]@ == (NodeView { children: ntfs_children(f, 0, idx as int), ..root_view(root@) }),
            forall|x: int| 1 <= x <= n ==> (#[trigger] nodes@[x])@ == (NodeView {
                parent: if x <= idx { Some(ntfs_parent(f, x) as u32) } else { None },
                children: ntfs_children(f, x, idx as int),
                ..fresh_node(f, exts, x)
            }),
        decreases n - idx,
    {
        let id = idx + 1;
        let parent_record = filtered[idx].parent_record;
        let mut parent_id: usize = if parent_record == ROOT_RECORD {
            0
        } else if parent_record <= max_frn {
            frn_to_node_id[parent_record as usize] as usize
        } else {
            proof { lemma_frn_node_absent(f, parent_record as int, n as int, max_frn as int); }
            0
        };
        proof { lemma_frn_node_range(f, parent_record as int, n as int); }
        if parent_id == id {
            parent_id = 0;
        }
        if parent_id != 0 && !nodes[parent_id].is_dir {
            parent_id = 0;
        }
        assert(parent_id as int == ntfs_parent(f, id as int));
        let ghost prev = nodes@;
        nodes[id].parent = Some(parent_id as u32);
        nodes[parent_id].children.push(id as u32);
        proof {
            assert forall|x: int| 1 <= x <= n implies (#[trigger] nodes@[x])@ == (NodeView {
                parent: if x <= idx + 1 { Some(ntfs_parent(f, x) as u32) } else { None },
                children: ntfs_children(f, x, idx + 1),
                ..fresh_node(f, exts, x)
            }) by {
                if x != id && x != parent_id {
                    assert(nodes@[x] == prev[x]);
                }
            }
        }
        idx += 1;
    }
    proof {
        assert forall|x: int| 0 <= x <= n implies #[trigger] views(nodes@)[x] == ntfs_nodes(root@, f, exts)[x] by {
            if x > 0 {
                assert(nodes@[x]@ == record_node(f, exts, x));
            }
        }
        assert(views(nodes@) =~= ntfs_nodes(root@, f, exts));
        assert(extensions_ok(f, exts));
    }
    let r = finalize_tree(nodes);
    proof {
        assert(f == kept_records(record_views(records@)));
        assert(dto_views(r@) == finalized(ntfs_nodes(root@, f, exts)));
    }
    r
}

proof fn lemma_ntfs_children_parent(f: Seq<ParsedRecordView>, p: int, k: int, c: u32)
    requires
        0 <= k <= f.len(),
        f.len() < u32::MAX,
    ensures
        ntfs_children(f, p, k).contains(c) ==> 1 <= c <= k && ntfs_parent(f, c as int) == p,
    decreases k,
{
    if k > 0 {
        lemma_ntfs_children_parent(f, p, k - 1, c);
        let prev = ntfs_children(f, p, k - 1);
        if ntfs_parent(f, k) == p && ntfs_children(f, p, k).contains(c) && !prev.contains(c) {
            let full = prev.push(k as u32);
            let w = choose|w: int| 0 <= w < full.len() && #[trigger] full[w] == c;
            if w < prev.len() {
                assert(prev[w] == c);
            } else {
                assert(c == k as u32);
            }
        }
    }
}

/// Law: the tree built from a volume's records is linked (see [`linked`]):
/// the root has no parent and every node a node lists as child names it as
/// parent; so the laws on directory totals apply to volume scans.
pub proof fn law_ntfs_tree_linked(root: Seq<char>, f: Seq<ParsedRecordView>, exts: Seq<Option<Seq<char>>>)
    requires
        f.len() < u32::MAX,
    ensures
        linked(ntfs_nodes(root, f, exts)),
{
    let s = ntfs_nodes(root, f, exts);
    let n = f.len() as int;
    assert forall|i: int, c: u32| 0 <= i < s.len() && #[trigger] s[i].children.contains(c)
        && (c as int) < s.len() && c as int != i implies s[c as int].parent == Some(i as u32) by {
        lemma_ntfs_children_parent(f, i, n, c);
        let r = f[c - 1];
        let p0 = if r.parent_record == 5 { 0 } else { frn_node(f, r.parent_record as int, n) };
        lemma_frn_node_range(f, r.parent_record as int, n);
        assert(0 <= p0 <= n);
    }
}

} // verus!
