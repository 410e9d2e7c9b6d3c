//! How the desktop application finishes a scanned tree: the same steps as
//! [`crate::tree`], but sizes and counts are gathered by a depth-first walk
//! from the root, and sums saturate at `u64::MAX` instead of wrapping.
use vstd::prelude::*;
use crate::models::NodeDto;
use crate::tree::{
    NodeView, Totals, TreeNode, clone_ids, current_totals, dto_views, child_counts_match, own_total,
    retain_children, retained, root_view, same_entry, sort_all_children, tree_to_node_dtos, views,
    with_sorted_children, with_totals,
};

verus! {

// ---------------------------------------------------------------------------
// The depth-first walk

/// `u64` addition that stops at `u64::MAX`.
pub open spec fn sadd(a: u64, b: u64) -> u64 {
    if a + b > u64::MAX { u64::MAX } else { (a + b) as u64 }
}

pub open spec fn tsadd(a: Totals, b: Totals) -> Totals {
    Totals {
        size: sadd(a.size, b.size),
        allocated: sadd(a.allocated, b.allocated),
        files: sadd(a.files, b.files),
        dirs: sadd(a.dirs, b.dirs),
    }
}

/// A moment of the depth-first walk: the entries still to take (the last
/// one next; `true` marks the closing of a node), a mark per node (0 not
/// seen, 1 open, 2 closed) and the totals the nodes carry.
pub struct DfsState {
    pub stack: Seq<(u32, bool)>,
    pub mark: Seq<u8>,
    pub totals: Seq<Totals>,
}

/// What node `i` carries when it closes, after its first `k` listed
/// children: its own sizes and counts plus the totals of each listed child
/// that is already closed, as often as it is listed.
pub open spec fn closing_sum(nodes: Seq<NodeView>, i: int, mark: Seq<u8>, totals: Seq<Totals>, k: int) -> Totals
    decreases k,
{
    if k <= 0 {
        own_total(nodes, i)
    } else {
        let prev = closing_sum(nodes, i, mark, totals, k - 1);
        let c = nodes[i].children[k - 1] as int;
        if c < nodes.len() && mark[c] == 2 { tsadd(prev, totals[c]) } else { prev }
    }
}

/// The entries pushed when a node with child list `ch` opens, going through
/// the list from its end down to position `j`: each listed child not yet seen.
pub open spec fn opening_pushes(ch: Seq<u32>, mark: Seq<u8>, j: int) -> Seq<(u32, bool)>
    decreases ch.len() - j,
{
    if j < 0 || j >= ch.len() {
        seq![]
    } else {
        let rest = opening_pushes(ch, mark, j + 1);
        let c = ch[j];
        if (c as int) < mark.len() && mark[c as int] == 0 { rest.push((c, false)) } else { rest }
    }
}

/// One step of the walk: the last entry is taken. An entry for a missing
/// node is dropped. Closing a node gives it its sum and marks it closed. A
/// node seen before is not opened again. Opening a node marks it open, puts
/// its closing entry back, and above it an entry for each child not yet seen,
/// the first listed child on top.
pub open spec fn dfs_step(nodes: Seq<NodeView>, w: DfsState) -> DfsState {
    let id = w.stack.last().0;
    let closing = w.stack.last().1;
    let rest = w.stack.drop_last();
    let i = id as int;
    if i >= nodes.len() {
        DfsState { stack: rest, ..w }
    } else if closing {
        DfsState {
            stack: rest,
            mark: w.mark.update(i, 2),
            totals: w.totals.update(i, closing_sum(nodes, i, w.mark, w.totals, nodes[i].children.len() as int)),
        }
    } else if w.mark[i] != 0 {
        DfsState { stack: rest, ..w }
    } else {
        let mark = w.mark.update(i, 1);
        DfsState { stack: rest.push((id, true)) + opening_pushes(nodes[i].children, mark, 0), mark, totals: w.totals }
    }
}

/// The walk after at most `fuel` steps, or once no entry is left.
pub open spec fn dfs_run(nodes: Seq<NodeView>, w: DfsState, fuel: nat) -> DfsState
    decreases fuel,
{
    if fuel == 0 || w.stack.len() == 0 {
        w
    } else {
        dfs_run(nodes, dfs_step(nodes, w), (fuel - 1) as nat)
    }
}

/// The walk starts at the root, with nothing seen and the totals the nodes carry.
pub open spec fn dfs_start(nodes: Seq<NodeView>) -> DfsState {
    DfsState {
        stack: seq![(0u32, false)],
        mark: Seq::new(nodes.len(), |i: int| 0u8),
        totals: current_totals(nodes),
    }
}

/// For the nodes before `k` that are not seen yet, one plus the length of
/// their child list: a bound on the entries they can still add.
pub open spec fn pending(nodes: Seq<NodeView>, mark: Seq<u8>, k: int) -> nat
    decreases k,
{
    if k <= 0 {
        0
    } else {
        pending(nodes, mark, k - 1) + if mark[k - 1] == 0 { 1 + nodes[k - 1].children.len() } else { 0nat }
    }
}

/// A bound on the steps the walk still takes.
pub open spec fn measure(nodes: Seq<NodeView>, w: DfsState) -> nat {
    w.stack.len() + pending(nodes, w.mark, nodes.len() as int)
}

/// The totals once the walk from the root is over.
pub open spec fn dfs_totals(nodes: Seq<NodeView>) -> Seq<Totals> {
    dfs_run(nodes, dfs_start(nodes), measure(nodes, dfs_start(nodes))).totals
}

pub open spec fn dfs_ok(nodes: Seq<NodeView>, w: DfsState) -> bool {
    w.mark.len() == nodes.len() && w.totals.len() == nodes.len()
}

proof fn lemma_pending_mark(nodes: Seq<NodeView>, mark: Seq<u8>, x: int, v: u8, k: int)
    requires
        mark.len() == nodes.len(),
        0 <= x < nodes.len(),
        v != 0,
        0 <= k <= nodes.len(),
    ensures
        pending(nodes, mark.update(x, v), k) + (if x < k && mark[x] == 0 { 1 + nodes[x].children.len() } else { 0nat })
            == pending(nodes, mark, k),
    decreases k,
{
    if k > 0 {
        lemma_pending_mark(nodes, mark, x, v, k - 1);
    }
}

proof fn lemma_opening_len(ch: Seq<u32>, mark: Seq<u8>, j: int)
    requires
        0 <= j <= ch.len(),
    ensures
        opening_pushes(ch, mark, j).len() <= ch.len() - j,
    decreases ch.len() - j,
{
    if j < ch.len() {
        lemma_opening_len(ch, mark, j + 1);
    }
}

/// Each step of the walk lowers its measure.
proof fn lemma_step_measure(nodes: Seq<NodeView>, w: DfsState)
    requires
        dfs_ok(nodes, w),
        w.stack.len() > 0,
    ensures
        dfs_ok(nodes, dfs_step(nodes, w)),
        measure(nodes, dfs_step(nodes, w)) < measure(nodes, w),
{
    let n = nodes.len() as int;
    let i = w.stack.last().0 as int;
    if i < n {
        if w.stack.last().1 {
            lemma_pending_mark(nodes, w.mark, i, 2, n);
        } else if w.mark[i] == 0 {
            lemma_pending_mark(nodes, w.mark, i, 1, n);
            lemma_opening_len(nodes[i].children, w.mark.update(i, 1), 0);
        }
    }
}

/// Once the fuel covers the measure, more fuel does not change the outcome.
pub(crate) proof fn lemma_run_fuel(nodes: Seq<NodeView>, w: DfsState, f: nat)
    requires
        dfs_ok(nodes, w),
        f >= measure(nodes, w),
    ensures
        dfs_run(nodes, w, f) == dfs_run(nodes, w, measure(nodes, w)),
        dfs_run(nodes, w, f).stack.len() == 0,
    decreases f,
{
    if w.stack.len() > 0 {
        let w2 = dfs_step(nodes, w);
        lemma_step_measure(nodes, w);
        lemma_run_fuel(nodes, w2, (f - 1) as nat);
        lemma_run_fuel(nodes, w2, (measure(nodes, w) - 1) as nat);
    }
}

fn add_saturating(a: Totals, b: Totals) -> (r: Totals)
    ensures
        r == tsadd(a, b),
{
    Totals {
        size: a.size.saturating_add(b.size),
        allocated: a.allocated.saturating_add(b.allocated),
        files: a.files.saturating_add(b.files),
        dirs: a.dirs.saturating_add(b.dirs),
    }
}

pub open spec fn dfs_of(stack: Seq<(u32, bool)>, mark: Seq<u8>, nodes: Seq<TreeNode>) -> DfsState {
    DfsState { stack, mark, totals: current_totals(views(nodes)) }
}

/// Gives each node that the depth-first walk from the root closes its sum
/// (see [`dfs_step`]); the other nodes keep what they carry.
fn aggregate_from_root(nodes: &mut Vec<TreeNode>)
    ensures
        views(final(nodes)@) == with_totals(views(old(nodes)@), dfs_totals(views(old(nodes)@))),
{
    let len = nodes.len();
    let ghost s = views(nodes@);
    let ghost orig = nodes@;
    let mut mark: Vec<u8> = Vec::new();
    let mut i: usize = 0;
    while i < len
        invariant
            i <= len,
            mark@ == Seq::new(i as nat, |x: int| 0u8),
        decreases len - i,
    {
        mark.push(0);
        i += 1;
        assert(mark@ =~= Seq::new(i as nat, |x: int| 0u8));
    }
    let mut stack: Vec<(u32, bool)> = Vec::new();
    stack.push((0, false));
    proof {
        assert(current_totals(views(nodes@)) =~= current_totals(s));
        assert(dfs_of(stack@, mark@, nodes@) == dfs_start(s));
        assert(stack@ =~= seq![(0u32, false)]);
    }
    while stack.len() > 0
        invariant
            len == nodes@.len(),
            s.len() == len,
            orig.len() == len,
            s == views(orig),
            mark@.len() == len,
            forall|x: int| 0 <= x < len ==> same_entry(#[trigger] orig[x]@, nodes@[x]@),
            forall|x: int| 0 <= x < len ==> (#[trigger] nodes@[x]).children@ == orig[x].children@,
            dfs_run(s, dfs_of(stack@, mark@, nodes@), measure(s, dfs_of(stack@, mark@, nodes@)))
                == dfs_run(s, dfs_start(s), measure(s, dfs_start(s))),
        decreases measure(s, dfs_of(stack@, mark@, nodes@)),
    {
        let ghost w = dfs_of(stack@, mark@, nodes@);
        proof {
            assert(views(nodes@).len() == len);
            lemma_step_measure(s, w);
            lemma_run_fuel(s, dfs_step(s, w), (measure(s, w) - 1) as nat);
        }
        let entry = stack.pop().unwrap();
        let id = entry.0;
        let closing = entry.1;
        let index = id as usize;
        if index >= len {
            // an entry for a missing node is dropped
        } else if closing {
            let nd = &nodes[index];
            let mut t = Totals {
                size: nd.size,
                allocated: nd.allocated,
                files: if nd.is_dir { 0 } else { 1 },
                dirs: if index == 0 { 0 } else if nd.is_dir { 1 } else { 0 },
            };
            let ch = clone_ids(&nodes[index].children);
            let mut k: usize = 0;
            while k < ch.len()
                invariant
                    k <= ch@.len(),
                    ch@ == s[index as int].children,
                    len == nodes@.len(),
                    s.len() == len,
                    index < len,
                    w.totals == current_totals(views(nodes@)),
                    w.mark == mark@,
                    mark@.len() == len,
                    t == closing_sum(s, index as int, w.mark, w.totals, k as int),
                decreases ch@.len() - k,
            {
                let c = ch[k] as usize;
                if c < len && mark[c] == 2 {
                    let cn = &nodes[c];
                    let ct = Totals { size: cn.total_size, allocated: cn.total_allocated, files: cn.file_count, dirs: cn.dir_count };
                    assert(ct == w.totals[c as int]);
                    t = add_saturating(t, ct);
                }
                k += 1;
            }
            let ghost before = nodes@;
            nodes[index].total_size = t.size;
            nodes[index].total_allocated = t.allocated;
            nodes[index].file_count = t.files;
            nodes[index].dir_count = t.dirs;
            mark.set(index, 2);
            proof {
                assert forall|x: int| 0 <= x < len && x != index implies #[trigger] nodes@[x] == before[x] by {}
                assert(current_totals(views(nodes@)) =~= w.totals.update(index as int, t));
            }
        } else if mark[index] != 0 {
            // seen before
        } else {
            mark.set(index, 1);
            stack.push((id, true));
            let ghost base = stack@;
            let ch = clone_ids(&nodes[index].children);
            let mut j: usize = ch.len();
            while j > 0
                invariant
                    j <= ch@.len(),
                    index < len,
                    s.len() == len,
                    ch@ == s[index as int].children,
                    mark@.len() == len,
                    stack@ == base + opening_pushes(ch@, mark@, j as int),
                decreases j,
            {
                j -= 1;
                let c = ch[j];
                if (c as usize) < len && mark[c as usize] == 0 {
                    stack.push((c, false));
                }
                assert(stack@ =~= base + opening_pushes(ch@, mark@, j as int));
            }
            assert(stack@ =~= w.stack.drop_last().push((id, true)) + opening_pushes(s[index as int].children, mark@, 0));
        }
        proof {
            let w2 = dfs_of(stack@, mark@, nodes@);
            assert(w2 == dfs_step(s, w));
        }
    }
    proof {
        let w = dfs_of(stack@, mark@, nodes@);
        let target = with_totals(s, dfs_totals(s));
        assert(dfs_run(s, w, measure(s, w)) == w);
        assert forall|x: int| 0 <= x < len implies #[trigger] views(nodes@)[x] == target[x] by {
            assert(same_entry(orig[x]@, nodes@[x]@));
        }
        assert(views(nodes@) =~= target);
    }
}

// ---------------------------------------------------------------------------
// Finishing a tree

/// A finished tree: an empty tree gets a root named `root`; child lists lose
/// dangling and self references; the depth-first walk from the root gives the
/// totals; children are listed largest first.
pub open spec fn finalized(s: Seq<NodeView>) -> Seq<NodeView> {
    let s0 = if s.len() == 0 { seq![root_view("root"@)] } else { s };
    let r = retained(s0);
    with_sorted_children(with_totals(r, dfs_totals(r)))
}

/// Finishes a tree in place: an empty tree gets a root named `root`, child
/// lists lose ids of missing nodes and of the node itself, each node that a
/// depth-first walk from the root reaches gets its own sizes and counts plus
/// the totals of its children (saturating at `u64::MAX`), and each node's
/// children are ordered by allocated total, largest first, then by lowercase
/// name.
pub fn finalize_tree_in_place(nodes: &mut Vec<TreeNode>)
    ensures
        views(final(nodes)@) == finalized(views(old(nodes)@)),
{
    if nodes.len() == 0 {
        let name = "root".to_owned();
        let root = TreeNode::root(name);
        assert(root.children@ =~= Seq::<u32>::empty());
        assert(root@ == root_view("root"@));
        nodes.push(root);
        assert(views(nodes@) =~= seq![root_view("root"@)]);
    }
    retain_children(nodes);
    aggregate_from_root(nodes);
    sort_all_children(nodes);
}

/// Finishes a tree (see [`finalize_tree_in_place`]) and returns it as scan results.
pub fn finalize_tree(nodes: Vec<TreeNode>) -> (r: Vec<NodeDto>)
    ensures
        dto_views(r@) == finalized(views(nodes@)),
        child_counts_match(r@),
{
    let mut nodes = nodes;
    finalize_tree_in_place(&mut nodes);
    tree_to_node_dtos(&nodes)
}

} // verus!
