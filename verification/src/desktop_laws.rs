//! What the depth-first aggregation of the desktop application gives on a
//! tree whose children point back to their parent.
use vstd::prelude::*;
use crate::desktop_tree::{
    DfsState, closing_sum, finalized, lemma_run_fuel, measure, opening_pushes, dfs_ok, dfs_run, dfs_start, dfs_step,
    dfs_totals,
};
use crate::laws::{
    bfs_queue_ok, has_lister, lemma_bfs_order, lemma_children_point_back, lemma_sort_ids_contains, linked,
    node_total, own_part, reached, tfield,
};
use crate::tree::{
    NodeView, Totals, allocated_totals, bfs_order, child_lists, current_totals, insert_pos, lemma_insert_pos_range,
    lower_names, own_total, retained, sort_ids, with_sorted_children, with_totals,
};

verus! {

// ---------------------------------------------------------------------------
// What the walk keeps true

/// Whether child `c` of the node whose closing entry is at position `p` is
/// closed, or not seen with an entry to open it above `p`, or open with its
/// closing entry above `p`.
pub open spec fn child_waits(w: DfsState, c: u32, p: int) -> bool {
    ||| w.mark[c as int] == 2
    ||| (w.mark[c as int] == 0 && exists|q: int| p < q < w.stack.len() && #[trigger] w.stack[q] == (c, false))
    ||| (w.mark[c as int] == 1 && exists|q: int| p < q < w.stack.len() && #[trigger] w.stack[q] == (c, true))
}

/// Whether closed node `x` has only closed children and carries its closing sum.
pub open spec fn closed_ok(r: Seq<NodeView>, w: DfsState, x: int) -> bool {
    &&& forall|k: int| 0 <= k < r[x].children.len() ==> w.mark[#[trigger] r[x].children[k] as int] == 2
    &&& w.totals[x] == closing_sum(r, x, w.mark, w.totals, r[x].children.len() as int)
}

/// Entries name existing nodes that the breadth-first order holds, and so
/// does every node seen.
pub open spec fn inv_entries(r: Seq<NodeView>, order: Seq<usize>, w: DfsState) -> bool {
    &&& dfs_ok(r, w)
    &&& forall|p: int| 0 <= p < w.stack.len() ==>
            ((#[trigger] w.stack[p]).0 as int) < r.len() && order.contains(w.stack[p].0 as usize)
    &&& forall|x: int| 0 <= x < r.len() ==> #[trigger] w.mark[x] <= 2
    &&& forall|x: int| 0 <= x < r.len() && #[trigger] w.mark[x] != 0 ==> order.contains(x as usize)
}

/// Open nodes are those with a closing entry, which is unique and above
/// every entry to open the same node.
pub open spec fn inv_open(w: DfsState) -> bool {
    &&& forall|p: int| 0 <= p < w.stack.len() && (#[trigger] w.stack[p]).1 ==> w.mark[w.stack[p].0 as int] == 1
    &&& forall|x: int| 0 <= x < w.mark.len() && #[trigger] w.mark[x] == 1 ==>
            exists|p: int| 0 <= p < w.stack.len() && #[trigger] w.stack[p] == (x as u32, true)
    &&& forall|p: int, q: int| 0 <= p < q < w.stack.len() && (#[trigger] w.stack[p]).1 && (#[trigger] w.stack[q]).1
            ==> w.stack[p].0 != w.stack[q].0
    &&& forall|p: int, q: int| 0 <= p < w.stack.len() && 0 <= q < w.stack.len() && (#[trigger] w.stack[p]).1
            && !(#[trigger] w.stack[q]).1 && w.stack[q].0 == w.stack[p].0 ==> q < p
}

/// The children of an open node wait above its closing entry; the children
/// of a node not seen are not seen; an entry to open a node other than the
/// root comes from its parent, which is seen.
pub open spec fn inv_children(r: Seq<NodeView>, w: DfsState) -> bool {
    &&& forall|p: int, k: int| #![trigger w.stack[p], r[w.stack[p].0 as int].children[k]]
            0 <= p < w.stack.len() && w.stack[p].1 && 0 <= k < r[w.stack[p].0 as int].children.len()
            ==> child_waits(w, r[w.stack[p].0 as int].children[k], p)
    &&& forall|x: int, k: int| 0 <= x < r.len() && w.mark[x] == 0 && 0 <= k < r[x].children.len()
            ==> w.mark[#[trigger] r[x].children[k] as int] == 0
    &&& forall|p: int| 0 <= p < w.stack.len() && !(#[trigger] w.stack[p]).1 && w.stack[p].0 != 0 ==>
            r[w.stack[p].0 as int].parent is Some
            && (r[w.stack[p].0 as int].parent.unwrap() as int) < r.len()
            && w.mark[r[w.stack[p].0 as int].parent.unwrap() as int] != 0
}

/// Closed nodes carry their closing sums; the others what they started with.
pub open spec fn inv_totals(r: Seq<NodeView>, w: DfsState) -> bool {
    &&& forall|x: int| 0 <= x < r.len() && #[trigger] w.mark[x] == 2 ==> closed_ok(r, w, x)
    &&& forall|x: int| 0 <= x < r.len() && #[trigger] w.mark[x] != 2 ==> w.totals[x] == current_totals(r)[x]
}

pub open spec fn dfs_inv(r: Seq<NodeView>, order: Seq<usize>, w: DfsState) -> bool {
    &&& inv_entries(r, order, w)
    &&& inv_open(w)
    &&& inv_children(r, w)
    &&& inv_totals(r, w)
}

/// What the lemmas below assume of the tree `r` and its breadth-first order.
pub open spec fn tree_ok(r: Seq<NodeView>, order: Seq<usize>) -> bool {
    &&& 1 <= r.len() <= u32::MAX
    &&& r[0].parent is None
    &&& forall|i: int, c: u32| 0 <= i < r.len() && #[trigger] r[i].children.contains(c) ==>
            (c as int) < r.len() && c as int != i && r[c as int].parent == Some(i as u32)
    &&& order.contains(0usize)
    &&& forall|i: int, k: int| 0 <= i < r.len() && order.contains(i as usize) && 0 <= k < r[i].children.len()
            ==> order.contains(#[trigger] r[i].children[k] as usize)
}

proof fn lemma_child_facts(r: Seq<NodeView>, order: Seq<usize>, i: int, k: int)
    requires
        tree_ok(r, order),
        0 <= i < r.len(),
        0 <= k < r[i].children.len(),
    ensures
        (r[i].children[k] as int) < r.len(),
        r[i].children[k] as int != i,
        r[r[i].children[k] as int].parent == Some(i as u32),
        r[i].children[k] != 0,
{
    assert(r[i].children.contains(r[i].children[k]));
}

/// The closing sum of a node only reads the marks and totals of its children.
proof fn lemma_closing_frame(r: Seq<NodeView>, x: int, m1: Seq<u8>, t1: Seq<Totals>, m2: Seq<u8>, t2: Seq<Totals>, k: int)
    requires
        0 <= k <= r[x].children.len(),
        forall|j: int| 0 <= j < k ==> #[trigger] m1[r[x].children[j] as int] == m2[r[x].children[j] as int]
            && t1[r[x].children[j] as int] == t2[r[x].children[j] as int],
    ensures
        closing_sum(r, x, m1, t1, k) == closing_sum(r, x, m2, t2, k),
    decreases k,
{
    if k > 0 {
        lemma_closing_frame(r, x, m1, t1, m2, t2, k - 1);
    }
}

proof fn lemma_opening_all(ch: Seq<u32>, mark: Seq<u8>, j: int)
    requires
        0 <= j <= ch.len(),
        forall|k: int| j <= k < ch.len() ==> (#[trigger] ch[k] as int) < mark.len() && mark[ch[k] as int] == 0,
    ensures
        opening_pushes(ch, mark, j).len() == ch.len() - j,
        forall|m: int| 0 <= m < ch.len() - j ==> #[trigger] opening_pushes(ch, mark, j)[m] == (ch[ch.len() - 1 - m], false),
    decreases ch.len() - j,
{
    if j < ch.len() {
        lemma_opening_all(ch, mark, j + 1);
        let rest = opening_pushes(ch, mark, j + 1);
        assert(opening_pushes(ch, mark, j) == rest.push((ch[j], false)));
    }
}

/// Taking an entry for a node seen before: the node is closed, and dropping
/// the entry keeps the invariant.
proof fn lemma_step_skip(r: Seq<NodeView>, order: Seq<usize>, w: DfsState)
    requires
        tree_ok(r, order),
        dfs_inv(r, order, w),
        w.stack.len() > 0,
        !w.stack.last().1,
        w.mark[w.stack.last().0 as int] != 0,
    ensures
        dfs_inv(r, order, dfs_step(r, w)),
{
    let l = w.stack.len() as int;
    let y = w.stack.last().0;
    let w2 = dfs_step(r, w);
    assert(w.stack[l - 1] == w.stack.last());
    assert((y as int) < r.len());
    assert(w2 == DfsState { stack: w.stack.drop_last(), ..w });
    if w.mark[y as int] == 1 {
        let p = choose|p: int| 0 <= p < w.stack.len() && #[trigger] w.stack[p] == (y, true);
        assert(w.stack[p].1 && !w.stack[l - 1].1);
    }
    assert(w.mark[y as int] == 2);
    assert forall|p: int| 0 <= p < l - 1 implies #[trigger] w2.stack[p] == w.stack[p] by {}
    assert forall|x: int| 0 <= x < w2.mark.len() && #[trigger] w2.mark[x] == 1 implies
        exists|p: int| 0 <= p < w2.stack.len() && #[trigger] w2.stack[p] == (x as u32, true) by {
        let p = choose|p: int| 0 <= p < w.stack.len() && #[trigger] w.stack[p] == (x as u32, true);
        assert(p != l - 1);
        assert(w2.stack[p] == w.stack[p]);
    }
    assert forall|p: int, k: int| #![trigger w2.stack[p], r[w2.stack[p].0 as int].children[k]]
        0 <= p < w2.stack.len() && w2.stack[p].1 && 0 <= k < r[w2.stack[p].0 as int].children.len()
        implies child_waits(w2, r[w2.stack[p].0 as int].children[k], p) by {
        assert(w2.stack[p] == w.stack[p]);
        let c = r[w.stack[p].0 as int].children[k];
        assert(child_waits(w, c, p));
        if w.mark[c as int] == 0 {
            let q = choose|q: int| p < q < w.stack.len() && #[trigger] w.stack[q] == (c, false);
            assert(q != l - 1);
            assert(w2.stack[q] == w.stack[q]);
        } else if w.mark[c as int] == 1 {
            let q = choose|q: int| p < q < w.stack.len() && #[trigger] w.stack[q] == (c, true);
            assert(q != l - 1);
            assert(w2.stack[q] == w.stack[q]);
        }
    }
}

/// Taking the closing entry of a node: all its children are closed, and the
/// node closes with its sum.
proof fn lemma_step_close(r: Seq<NodeView>, order: Seq<usize>, w: DfsState)
    requires
        tree_ok(r, order),
        dfs_inv(r, order, w),
        w.stack.len() > 0,
        w.stack.last().1,
    ensures
        dfs_inv(r, order, dfs_step(r, w)),
{
    let l = w.stack.len() as int;
    let y = w.stack.last().0;
    let yi = y as int;
    let w2 = dfs_step(r, w);
    assert(w.stack[l - 1] == w.stack.last());
    assert(yi < r.len());
    assert(w.mark[yi] == 1);
    let sum = closing_sum(r, yi, w.mark, w.totals, r[yi].children.len() as int);
    assert(w2 == DfsState { stack: w.stack.drop_last(), mark: w.mark.update(yi, 2), totals: w.totals.update(yi, sum) });
    assert forall|p: int| 0 <= p < l - 1 implies #[trigger] w2.stack[p] == w.stack[p] by {}
    // every child of y is closed
    assert forall|k: int| 0 <= k < r[yi].children.len() implies w.mark[#[trigger] r[yi].children[k] as int] == 2 by {
        let c = r[yi].children[k];
        assert(child_waits(w, r[w.stack[l - 1].0 as int].children[k], l - 1));
        lemma_child_facts(r, order, yi, k);
    }
    // y's children are not y and keep their marks and totals
    assert forall|k: int| 0 <= k < r[yi].children.len() implies
        #[trigger] w.mark[r[yi].children[k] as int] == w2.mark[r[yi].children[k] as int]
        && w.totals[r[yi].children[k] as int] == w2.totals[r[yi].children[k] as int] by {
        lemma_child_facts(r, order, yi, k);
    }
    lemma_closing_frame(r, yi, w.mark, w.totals, w2.mark, w2.totals, r[yi].children.len() as int);
    assert(closed_ok(r, w2, yi));
    // other closed nodes keep their sums: their children are closed, so not y
    assert forall|x: int| 0 <= x < r.len() && #[trigger] w2.mark[x] == 2 implies closed_ok(r, w2, x) by {
        if x != yi {
            assert(w.mark[x] == 2);
            assert(closed_ok(r, w, x));
            assert forall|k: int| 0 <= k < r[x].children.len() implies
                #[trigger] w.mark[r[x].children[k] as int] == w2.mark[r[x].children[k] as int]
                && w.totals[r[x].children[k] as int] == w2.totals[r[x].children[k] as int] by {
                assert(w.mark[r[x].children[k] as int] == 2);
                lemma_child_facts(r, order, x, k);
            }
            lemma_closing_frame(r, x, w.mark, w.totals, w2.mark, w2.totals, r[x].children.len() as int);
        }
    }
    assert forall|x: int| 0 <= x < w2.mark.len() && #[trigger] w2.mark[x] == 1 implies
        exists|p: int| 0 <= p < w2.stack.len() && #[trigger] w2.stack[p] == (x as u32, true) by {
        assert(x != yi);
        let p = choose|p: int| 0 <= p < w.stack.len() && #[trigger] w.stack[p] == (x as u32, true);
        assert(p != l - 1);
        assert(w2.stack[p] == w.stack[p]);
    }
    assert forall|p: int| 0 <= p < w2.stack.len() && (#[trigger] w2.stack[p]).1 implies w2.mark[w2.stack[p].0 as int] == 1 by {
        assert(w2.stack[p] == w.stack[p]);
        assert(w.stack[p].1 && w.stack[l - 1].1 && p < l - 1);
    }
    assert forall|p: int, k: int| #![trigger w2.stack[p], r[w2.stack[p].0 as int].children[k]]
        0 <= p < w2.stack.len() && w2.stack[p].1 && 0 <= k < r[w2.stack[p].0 as int].children.len()
        implies child_waits(w2, r[w2.stack[p].0 as int].children[k], p) by {
        assert(w2.stack[p] == w.stack[p]);
        let c = r[w.stack[p].0 as int].children[k];
        assert(child_waits(w, c, p));
        lemma_child_facts(r, order, w.stack[p].0 as int, k);
        if c == y {
        } else if w.mark[c as int] == 0 {
            let q = choose|q: int| p < q < w.stack.len() && #[trigger] w.stack[q] == (c, false);
            assert(q != l - 1);
            assert(w2.stack[q] == w.stack[q]);
        } else if w.mark[c as int] == 1 {
            let q = choose|q: int| p < q < w.stack.len() && #[trigger] w.stack[q] == (c, true);
            assert(q != l - 1);
            assert(w2.stack[q] == w.stack[q]);
        }
    }
    assert forall|x: int, k: int| 0 <= x < r.len() && w2.mark[x] == 0 && 0 <= k < r[x].children.len()
        implies w2.mark[#[trigger] r[x].children[k] as int] == 0 by {
        lemma_child_facts(r, order, x, k);
        assert(w.mark[r[x].children[k] as int] == 0);
    }
    assert forall|p: int| 0 <= p < w2.stack.len() && !(#[trigger] w2.stack[p]).1 && w2.stack[p].0 != 0 implies
        r[w2.stack[p].0 as int].parent is Some
        && (r[w2.stack[p].0 as int].parent.unwrap() as int) < r.len()
        && w2.mark[r[w2.stack[p].0 as int].parent.unwrap() as int] != 0 by {
        assert(w2.stack[p] == w.stack[p]);
    }
}

/// Taking the entry to open a node not seen yet: its children are not seen
/// either, and each gets an entry above the node's closing entry.
proof fn lemma_step_open(r: Seq<NodeView>, order: Seq<usize>, w: DfsState)
    requires
        tree_ok(r, order),
        dfs_inv(r, order, w),
        w.stack.len() > 0,
        !w.stack.last().1,
        w.mark[w.stack.last().0 as int] == 0,
    ensures
        dfs_inv(r, order, dfs_step(r, w)),
{
    let l = w.stack.len() as int;
    let y = w.stack.last().0;
    let yi = y as int;
    assert(w.stack[l - 1] == w.stack.last());
    assert(yi < r.len());
    let ch = r[yi].children;
    let nc = ch.len() as int;
    let mark2 = w.mark.update(yi, 1);
    let pushes = opening_pushes(ch, mark2, 0);
    let st2 = w.stack.drop_last().push((y, true)) + pushes;
    let w2 = dfs_step(r, w);
    assert(w2 == DfsState { stack: st2, mark: mark2, totals: w.totals });
    // the children of y are other nodes, not seen yet
    assert forall|k: int| 0 <= k < nc implies (#[trigger] ch[k] as int) < mark2.len() && mark2[ch[k] as int] == 0
        && ch[k] as int != yi && r[ch[k] as int].parent == Some(y) && order.contains(ch[k] as usize) by {
        lemma_child_facts(r, order, yi, k);
        assert(w.mark[ch[k] as int] == 0);
        assert(order.contains(y as usize));
    }
    lemma_opening_all(ch, mark2, 0);
    assert(st2.len() == l + nc);
    assert forall|p: int| 0 <= p < l - 1 implies #[trigger] st2[p] == w.stack[p] by {}
    assert(st2[l - 1] == (y, true));
    assert forall|m: int| 0 <= m < nc implies #[trigger] st2[l + m] == (ch[nc - 1 - m], false) by {
        assert(st2[l + m] == pushes[m]);
    }
    // an entry above the closing entry of y opens a child of y
    assert forall|q: int| l <= q < st2.len() implies !(#[trigger] st2[q]).1 && exists|k: int| 0 <= k < nc && ch[k] == st2[q].0 by {
        assert(st2[l + (q - l)] == (ch[nc - 1 - (q - l)], false));
    }
    // inv_entries
    assert forall|p: int| 0 <= p < st2.len() implies
        ((#[trigger] st2[p]).0 as int) < r.len() && order.contains(st2[p].0 as usize) by {
        if p < l - 1 {
            assert(st2[p] == w.stack[p]);
        } else if p >= l {
            let k = choose|k: int| 0 <= k < nc && ch[k] == st2[p].0;
        }
    }
    assert forall|x: int| 0 <= x < r.len() && #[trigger] mark2[x] != 0 implies order.contains(x as usize) by {
        if x == yi {
            assert(order.contains(y as usize));
        } else {
            assert(w.mark[x] != 0);
        }
    }
    // inv_open
    assert forall|p: int| 0 <= p < st2.len() && (#[trigger] st2[p]).1 implies mark2[st2[p].0 as int] == 1 by {
        if p < l - 1 {
            assert(st2[p] == w.stack[p]);
            assert(w.mark[w.stack[p].0 as int] == 1);
        }
    }
    assert forall|x: int| 0 <= x < mark2.len() && #[trigger] mark2[x] == 1 implies
        exists|p: int| 0 <= p < st2.len() && #[trigger] st2[p] == (x as u32, true) by {
        if x == yi {
            assert(st2[l - 1] == (x as u32, true));
        } else {
            assert(w.mark[x] == 1);
            let p = choose|p: int| 0 <= p < w.stack.len() && #[trigger] w.stack[p] == (x as u32, true);
            assert(p != l - 1);
            assert(st2[p] == w.stack[p]);
        }
    }
    assert forall|p: int, q: int| 0 <= p < q < st2.len() && (#[trigger] st2[p]).1 && (#[trigger] st2[q]).1
        implies st2[p].0 != st2[q].0 by {
        assert(p < l - 1 || p == l - 1);
        if q < l - 1 {
            assert(st2[p] == w.stack[p] && st2[q] == w.stack[q]);
        } else if q == l - 1 {
            assert(st2[p] == w.stack[p]);
            assert(w.mark[w.stack[p].0 as int] == 1);
        }
    }
    assert forall|p: int, q: int| 0 <= p < st2.len() && 0 <= q < st2.len() && (#[trigger] st2[p]).1
        && !(#[trigger] st2[q]).1 && st2[q].0 == st2[p].0 implies q < p by {
        assert(p <= l - 1);
        if q >= l {
            let k = choose|k: int| 0 <= k < nc && ch[k] == st2[q].0;
            if p < l - 1 {
                assert(st2[p] == w.stack[p]);
                assert(w.mark[w.stack[p].0 as int] == 1);
            }
        } else if p < l - 1 {
            assert(q != l - 1);
            assert(st2[p] == w.stack[p] && st2[q] == w.stack[q]);
        }
    }
    // inv_children
    assert forall|p: int, k: int| #![trigger st2[p], r[st2[p].0 as int].children[k]]
        0 <= p < st2.len() && st2[p].1 && 0 <= k < r[st2[p].0 as int].children.len()
        implies child_waits(w2, r[st2[p].0 as int].children[k], p) by {
        assert(p <= l - 1);
        if p == l - 1 {
            let m = nc - 1 - k;
            assert(st2[l + m] == (ch[nc - 1 - m], false));
            assert(w2.stack[l + m] == (ch[k], false));
            assert(w2.mark[ch[k] as int] == 0);
            assert(r[st2[p].0 as int].children[k] == ch[k]);
            assert(child_waits(w2, ch[k], p));
        } else {
            assert(st2[p] == w.stack[p]);
            let c = r[w.stack[p].0 as int].children[k];
            assert(child_waits(w, c, p));
            lemma_child_facts(r, order, w.stack[p].0 as int, k);
            if c == y {
                assert(w2.stack[l - 1] == (c, true));
                assert(w2.mark[c as int] == 1);
                assert(child_waits(w2, c, p));
            } else if w.mark[c as int] == 0 {
                let q = choose|q: int| p < q < w.stack.len() && #[trigger] w.stack[q] == (c, false);
                assert(q != l - 1);
                assert(w2.stack[q] == w.stack[q]);
                assert(child_waits(w2, c, p));
            } else if w.mark[c as int] == 1 {
                let q = choose|q: int| p < q < w.stack.len() && #[trigger] w.stack[q] == (c, true);
                assert(q != l - 1);
                assert(w2.stack[q] == w.stack[q]);
                assert(child_waits(w2, c, p));
            } else {
                assert(child_waits(w2, c, p));
            }
        }
    }
    assert forall|x: int, k: int| 0 <= x < r.len() && mark2[x] == 0 && 0 <= k < r[x].children.len()
        implies mark2[#[trigger] r[x].children[k] as int] == 0 by {
        lemma_child_facts(r, order, x, k);
        assert(w.mark[r[x].children[k] as int] == 0);
        if r[x].children[k] == y {
            assert(r[yi].parent == Some(x as u32));
        }
    }
    assert forall|p: int| 0 <= p < st2.len() && !(#[trigger] st2[p]).1 && st2[p].0 != 0 implies
        r[st2[p].0 as int].parent is Some
        && (r[st2[p].0 as int].parent.unwrap() as int) < r.len()
        && mark2[r[st2[p].0 as int].parent.unwrap() as int] != 0 by {
        if p < l - 1 {
            assert(st2[p] == w.stack[p]);
        } else if p >= l {
            let k = choose|k: int| 0 <= k < nc && ch[k] == st2[p].0;
        }
    }
    // inv_totals
    assert forall|x: int| 0 <= x < r.len() && #[trigger] mark2[x] == 2 implies closed_ok(r, w2, x) by {
        assert(w.mark[x] == 2);
        assert(closed_ok(r, w, x));
        assert forall|k: int| 0 <= k < r[x].children.len() implies
            #[trigger] w.mark[r[x].children[k] as int] == mark2[r[x].children[k] as int]
            && w.totals[r[x].children[k] as int] == w2.totals[r[x].children[k] as int] by {
            assert(w.mark[r[x].children[k] as int] == 2);
            lemma_child_facts(r, order, x, k);
        }
        lemma_closing_frame(r, x, w.mark, w.totals, mark2, w2.totals, r[x].children.len() as int);
    }
}

/// The root is seen, or an entry to open it is left.
pub open spec fn root_pending(w: DfsState) -> bool {
    w.mark[0] != 0 || exists|p: int| 0 <= p < w.stack.len() && #[trigger] w.stack[p] == (0u32, false)
}

proof fn lemma_step_inv(r: Seq<NodeView>, order: Seq<usize>, w: DfsState)
    requires
        tree_ok(r, order),
        dfs_inv(r, order, w),
        root_pending(w),
        w.stack.len() > 0,
    ensures
        dfs_inv(r, order, dfs_step(r, w)),
        root_pending(dfs_step(r, w)),
{
    let l = w.stack.len() as int;
    let y = w.stack.last().0;
    assert(w.stack[l - 1] == w.stack.last());
    assert((y as int) < r.len());
    if w.stack.last().1 {
        lemma_step_close(r, order, w);
    } else if w.mark[y as int] != 0 {
        lemma_step_skip(r, order, w);
    } else {
        lemma_step_open(r, order, w);
    }
    let w2 = dfs_step(r, w);
    if w.mark[0] != 0 {
        assert(w2.mark[0] != 0);
    } else {
        let p = choose|p: int| 0 <= p < w.stack.len() && #[trigger] w.stack[p] == (0u32, false);
        if p < l - 1 {
            assert(w2.stack[p] == w.stack[p]);
        } else {
            assert(w2.mark[0] == 1);
        }
    }
}

proof fn lemma_start_inv(r: Seq<NodeView>, order: Seq<usize>)
    requires
        tree_ok(r, order),
    ensures
        dfs_inv(r, order, dfs_start(r)),
        root_pending(dfs_start(r)),
{
    let w = dfs_start(r);
    assert(w.stack[0] == (0u32, false));
    assert forall|x: int| 0 <= x < r.len() implies #[trigger] w.totals[x] == current_totals(r)[x] by {}
    assert forall|x: int, k: int| 0 <= x < r.len() && w.mark[x] == 0 && 0 <= k < r[x].children.len()
        implies w.mark[#[trigger] r[x].children[k] as int] == 0 by {
        lemma_child_facts(r, order, x, k);
    }
    assert(inv_entries(r, order, w));
    assert(inv_open(w));
    assert(inv_children(r, w));
    assert(inv_totals(r, w));
}

proof fn lemma_run_inv(r: Seq<NodeView>, order: Seq<usize>, w: DfsState, f: nat)
    requires
        tree_ok(r, order),
        dfs_inv(r, order, w),
        root_pending(w),
    ensures
        dfs_inv(r, order, dfs_run(r, w, f)),
        root_pending(dfs_run(r, w, f)),
    decreases f,
{
    if f > 0 && w.stack.len() > 0 {
        lemma_step_inv(r, order, w);
        lemma_run_inv(r, order, dfs_step(r, w), (f - 1) as nat);
    }
}

// ---------------------------------------------------------------------------
// Sums over child lists

/// The sum of field `fld` (see [`node_total`]) over the nodes listed in `ch`,
/// each counted as often as it is listed.
pub open spec fn listed_total(f: Seq<NodeView>, ch: Seq<u32>, fld: int) -> int
    decreases ch.len(),
{
    if ch.len() == 0 {
        0
    } else {
        listed_total(f, ch.drop_last(), fld) + node_total(f[ch.last() as int], fld)
    }
}

/// `a`, or `u64::MAX` when `a` exceeds it.
pub open spec fn capped(a: int) -> int {
    if a > u64::MAX { u64::MAX as int } else { a }
}

proof fn lemma_listed_insert(f: Seq<NodeView>, s: Seq<u32>, p: int, v: u32, fld: int)
    requires
        0 <= p <= s.len(),
    ensures
        listed_total(f, s.insert(p, v), fld) == listed_total(f, s, fld) + node_total(f[v as int], fld),
    decreases s.len(),
{
    let t = s.insert(p, v);
    if p == s.len() {
        assert(t.drop_last() =~= s);
    } else {
        assert(t.drop_last() =~= s.drop_last().insert(p, v));
        assert(t.last() == s.last());
        lemma_listed_insert(f, s.drop_last(), p, v, fld);
    }
}

proof fn lemma_listed_sort(f: Seq<NodeView>, s: Seq<u32>, totals: Seq<u64>, names: Seq<Seq<char>>, fld: int)
    ensures
        listed_total(f, sort_ids(s, totals, names), fld) == listed_total(f, s, fld),
    decreases s.len(),
{
    if s.len() > 0 {
        let r = sort_ids(s.drop_last(), totals, names);
        lemma_listed_sort(f, s.drop_last(), totals, names, fld);
        lemma_sort_ids_contains(s.drop_last(), totals, names, s.last());
        lemma_insert_pos_range(r, s.last(), totals, names, 0);
        lemma_listed_insert(f, r, insert_pos(r, s.last(), totals, names, 0), s.last(), fld);
    }
}

/// With all listed children closed, a closing sum is the node's own part
/// plus its children's totals, capped at `u64::MAX`.
proof fn lemma_closing_capped(r: Seq<NodeView>, f: Seq<NodeView>, x: int, mark: Seq<u8>, t: Seq<Totals>, k: int, fld: int)
    requires
        0 <= x < r.len(),
        0 <= k <= r[x].children.len(),
        0 <= fld < 4,
        forall|j: int| 0 <= j < k ==> (#[trigger] r[x].children[j] as int) < r.len()
            && mark[r[x].children[j] as int] == 2
            && node_total(f[r[x].children[j] as int], fld) == tfield(t[r[x].children[j] as int], fld),
    ensures
        tfield(closing_sum(r, x, mark, t, k), fld) as int
            == capped(tfield(own_total(r, x), fld) + listed_total(f, r[x].children.take(k), fld)),
    decreases k,
{
    if k > 0 {
        lemma_closing_capped(r, f, x, mark, t, k - 1, fld);
        assert(r[x].children.take(k).drop_last() =~= r[x].children.take(k - 1));
        assert(r[x].children.take(k).last() == r[x].children[k - 1]);
    } else {
        assert(r[x].children.take(0).len() == 0);
    }
}

proof fn lemma_order_closed(r: Seq<NodeView>, order: Seq<usize>, w: DfsState, m: int)
    requires
        bfs_queue_ok(child_lists(r), order),
        r.len() == child_lists(r).len(),
        0 <= m < order.len(),
        w.mark.len() == r.len(),
        w.mark[0] == 2,
        forall|x: int| 0 <= x < r.len() && #[trigger] w.mark[x] == 2 ==> closed_ok(r, w, x),
    ensures
        w.mark[order[m] as int] == 2,
    decreases m,
{
    if m > 0 {
        let ch = child_lists(r);
        assert(has_lister(ch, order, m));
        let m2 = choose|m2: int| 0 <= m2 < m && #[trigger] ch[order[m2] as int].contains(order[m] as u32);
        lemma_order_closed(r, order, w, m2);
        let x = order[m2] as int;
        assert(closed_ok(r, w, x));
        let k = choose|k: int| 0 <= k < r[x].children.len() && r[x].children[k] == order[m] as u32;
        assert(w.mark[r[x].children[k] as int] == 2);
    }
}

/// Law: on a tree whose listed children point back to their parent, the
/// desktop application's finishing reaches exactly the nodes reachable from
/// the root; each of them carries its own sizes and counts plus the totals of
/// its listed children, each counted as often as it is listed, capped at
/// `u64::MAX`; every other node keeps the totals it had.
pub proof fn law_depth_first_totals(s: Seq<NodeView>)
    requires
        linked(s),
    ensures
        reached(s, 0),
        forall|y: int, c: u32| 0 <= y < s.len() && reached(s, y) && #[trigger] finalized(s)[y].children.contains(c)
            ==> reached(s, c as int),
        forall|y: int, fld: int| 0 <= y < s.len() && 0 <= fld < 4 && reached(s, y) ==>
            #[trigger] node_total(finalized(s)[y], fld) as int
                == capped(own_part(finalized(s)[y], y, fld) + listed_total(finalized(s), finalized(s)[y].children, fld)),
        forall|y: int, fld: int| 0 <= y < s.len() && 0 <= fld < 4 && !reached(s, y) ==>
            #[trigger] node_total(finalized(s)[y], fld) == node_total(s[y], fld),
{
    let n = s.len() as int;
    let r = retained(s);
    lemma_children_point_back(s);
    let ch = child_lists(r);
    let order = bfs_order(ch);
    lemma_bfs_order(ch);
    assert(order[0] == 0usize);
    assert forall|i: int, k: int| 0 <= i < r.len() && order.contains(i as usize) && 0 <= k < r[i].children.len()
        implies order.contains(#[trigger] r[i].children[k] as usize) by {
        let m = choose|m: int| 0 <= m < order.len() && order[m] == i as usize;
        assert(r[i].children.contains(r[i].children[k]));
        assert(ch[order[m] as int][k] == r[i].children[k]);
    }
    assert(tree_ok(r, order));
    let w0 = dfs_start(r);
    let wf = dfs_run(r, w0, measure(r, w0));
    lemma_start_inv(r, order);
    lemma_run_inv(r, order, w0, measure(r, w0));
    lemma_run_fuel(r, w0, measure(r, w0));
    let t = wf.totals;
    assert(dfs_totals(r) == t);
    let f = finalized(s);
    assert(f == with_sorted_children(with_totals(r, t)));
    // at the end no node is open, the root is closed, and closed means reached
    assert forall|x: int| 0 <= x < n implies #[trigger] wf.mark[x] != 1 by {
        if wf.mark[x] == 1 {
            let p = choose|p: int| 0 <= p < wf.stack.len() && #[trigger] wf.stack[p] == (x as u32, true);
        }
    }
    assert(wf.mark[0] == 2);
    assert forall|y: int| 0 <= y < n implies (#[trigger] wf.mark[y] == 2) == reached(s, y) by {
        if reached(s, y) {
            let m = choose|m: int| 0 <= m < order.len() && order[m] == y as usize;
            lemma_order_closed(r, order, wf, m);
        }
    }
    assert forall|y: int, c: u32| 0 <= y < n && reached(s, y) && #[trigger] f[y].children.contains(c)
        implies reached(s, c as int) by {
        lemma_sort_ids_contains(r[y].children, allocated_totals(with_totals(r, t)), lower_names(with_totals(r, t)), c);
        let k = choose|k: int| 0 <= k < r[y].children.len() && r[y].children[k] == c;
        assert(order.contains(r[y].children[k] as usize));
        assert(r[y].children.contains(c));
    }
    assert forall|y: int, fld: int| 0 <= y < n && 0 <= fld < 4 && reached(s, y) implies
        #[trigger] node_total(f[y], fld) as int == capped(own_part(f[y], y, fld) + listed_total(f, f[y].children, fld)) by {
        assert(wf.mark[y] == 2);
        assert(closed_ok(r, wf, y));
        assert forall|j: int| 0 <= j < r[y].children.len() implies (#[trigger] r[y].children[j] as int) < r.len()
            && wf.mark[r[y].children[j] as int] == 2
            && node_total(f[r[y].children[j] as int], fld) == tfield(t[r[y].children[j] as int], fld) by {
            lemma_child_facts(r, order, y, j);
        }
        lemma_closing_capped(r, f, y, wf.mark, t, r[y].children.len() as int, fld);
        assert(r[y].children.take(r[y].children.len() as int) =~= r[y].children);
        lemma_listed_sort(f, r[y].children, allocated_totals(with_totals(r, t)), lower_names(with_totals(r, t)), fld);
        assert(own_part(f[y], y, fld) == tfield(own_total(r, y), fld));
    }
    assert forall|y: int, fld: int| 0 <= y < n && 0 <= fld < 4 && !reached(s, y) implies
        #[trigger] node_total(f[y], fld) == node_total(s[y], fld) by {
        assert(wf.mark[y] != 2);
    }
}

} // verus!
