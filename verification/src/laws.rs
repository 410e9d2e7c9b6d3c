//! Properties of finished trees: how the totals of a directory follow from
//! those of its children.
use vstd::prelude::*;
use vstd::arithmetic::div_mod::{lemma_add_mod_noop_right, lemma_small_mod};
use crate::text::{lex_less, lower};
use crate::tree::{
    NodeView, Totals, agg_fold, child_before, aggregated_totals, allocated_totals, bfs_from, bfs_order, child_lists, finalized,
    insert_pos, keep_child, lemma_distinct_bounded, lemma_insert_pos_range, lower_names, own_total, own_totals,
    retained, sort_ids, tadd, wadd, with_sorted_children, with_totals,
};

verus! {

// ---------------------------------------------------------------------------
// Breadth-first discovery

/// Whether the entry at position `m` of `q` is listed as a child by an entry
/// at an earlier position.
pub open spec fn has_lister(ch: Seq<Seq<u32>>, q: Seq<usize>, m: int) -> bool {
    exists|m2: int| 0 <= m2 < m && #[trigger] ch[q[m2] as int].contains(q[m] as u32)
}

/// Whether every valid child of the entries before `head`, and of the first
/// `k` children of the entry at `head`, is queued.
pub open spec fn complete_upto(ch: Seq<Seq<u32>>, q: Seq<usize>, head: int, k: int) -> bool {
    &&& forall|m: int, kk: int| 0 <= m < head && m < q.len() && 0 <= kk < ch[q[m] as int].len()
            && (ch[q[m] as int][kk] as int) < ch.len() ==> q.contains(#[trigger] ch[q[m] as int][kk] as usize)
    &&& (0 <= head < q.len() ==> forall|kk: int| 0 <= kk < k && kk < ch[q[head] as int].len()
            && (ch[q[head] as int][kk] as int) < ch.len() ==> q.contains(#[trigger] ch[q[head] as int][kk] as usize))
}

/// What a breadth-first walk from the root keeps true of its queue.
pub open spec fn bfs_queue_ok(ch: Seq<Seq<u32>>, q: Seq<usize>) -> bool {
    &&& 1 <= q.len() <= ch.len()
    &&& q[0] == 0
    &&& q.no_duplicates()
    &&& forall|m: int| 0 <= m < q.len() ==> (#[trigger] q[m] as int) < ch.len() && q[m] <= u32::MAX
    &&& forall|m: int| 1 <= m < q.len() ==> #[trigger] has_lister(ch, q, m)
}

proof fn lemma_push_keeps(ch: Seq<Seq<u32>>, q: Seq<usize>, c: usize, head: int, k: int)
    requires
        bfs_queue_ok(ch, q),
        0 <= head < q.len(),
        0 <= k < ch[q[head] as int].len(),
        ch[q[head] as int][k] as usize == c,
        (c as int) < ch.len(),
        c <= u32::MAX,
        !q.contains(c),
        complete_upto(ch, q, head, k),
    ensures
        bfs_queue_ok(ch, q.push(c)),
        complete_upto(ch, q.push(c), head, k + 1),
{
    let q2 = q.push(c);
    lemma_distinct_bounded(q2, ch.len() as int);
    assert forall|m: int| 1 <= m < q2.len() implies #[trigger] has_lister(ch, q2, m) by {
        if m == q.len() {
            assert(ch[q2[head] as int][k] == ch[q[head] as int][k]);
            assert(ch[q2[head] as int].contains(q2[m] as u32));
        } else {
            assert(has_lister(ch, q, m));
            let m2 = choose|m2: int| 0 <= m2 < m && #[trigger] ch[q[m2] as int].contains(q[m] as u32);
            assert(q2[m2] == q[m2]);
            assert(ch[q2[m2] as int].contains(q2[m] as u32));
        }
    }
    assert forall|x: usize| q.contains(x) implies q2.contains(x) by {
        let w = choose|w: int| 0 <= w < q.len() && q[w] == x;
        assert(q2[w] == x);
    }
    assert(q2[q.len() as int] == c);
    assert forall|m: int, kk: int| 0 <= m < head && m < q2.len() && 0 <= kk < ch[q2[m] as int].len()
        && (ch[q2[m] as int][kk] as int) < ch.len() implies q2.contains(#[trigger] ch[q2[m] as int][kk] as usize) by {
        assert(q2[m] == q[m]);
        assert(q.contains(ch[q[m] as int][kk] as usize));
    }
    assert forall|kk: int| 0 <= kk < k + 1 && kk < ch[q2[head] as int].len()
        && (ch[q2[head] as int][kk] as int) < ch.len() implies q2.contains(#[trigger] ch[q2[head] as int][kk] as usize) by {
        assert(q2[head] == q[head]);
        if kk < k {
            assert(q.contains(ch[q[head] as int][kk] as usize));
        }
    }
}

/// The breadth-first queue from `queue`: it keeps what the walk keeps true,
/// and once finished every valid child of every queued entry is queued.
proof fn lemma_bfs_from(ch: Seq<Seq<u32>>, queue: Seq<usize>, head: int, k: int)
    requires
        bfs_queue_ok(ch, queue),
        0 <= head <= queue.len(),
        0 <= k,
        head < queue.len() ==> k <= ch[queue[head] as int].len(),
        complete_upto(ch, queue, head, k),
    ensures
        bfs_queue_ok(ch, bfs_from(ch, queue, head, k)),
        complete_upto(ch, bfs_from(ch, queue, head, k), bfs_from(ch, queue, head, k).len() as int, 0),
    decreases ch.len() - queue.len(), queue.len() - head, ch[queue[head] as int].len() - k,
{
    if head >= queue.len() {
    } else {
        let cs = ch[queue[head] as int];
        if k >= cs.len() {
            assert forall|m: int, kk: int| 0 <= m < head + 1 && m < queue.len() && 0 <= kk < ch[queue[m] as int].len()
                && (ch[queue[m] as int][kk] as int) < ch.len() implies queue.contains(#[trigger] ch[queue[m] as int][kk] as usize) by {
            }
            lemma_bfs_from(ch, queue, head + 1, 0);
        } else {
            let c = cs[k];
            if (c as int) < ch.len() && !queue.contains(c as usize) && queue.len() < ch.len() {
                assert((c as usize) <= u32::MAX);
                lemma_push_keeps(ch, queue, c as usize, head, k);
                lemma_bfs_from(ch, queue.push(c as usize), head, k + 1);
            } else {
                if (c as int) < ch.len() && !queue.contains(c as usize) {
                    lemma_distinct_bounded(queue.push(c as usize), ch.len() as int);
                }
                lemma_bfs_from(ch, queue, head, k + 1);
            }
        }
    }
}

/// The breadth-first order from the root: the root first, no entry twice,
/// each later entry listed as a child by an earlier one, and every valid
/// child of an entry present.
pub proof fn lemma_bfs_order(ch: Seq<Seq<u32>>)
    requires
        ch.len() >= 1,
    ensures
        bfs_queue_ok(ch, bfs_order(ch)),
        complete_upto(ch, bfs_order(ch), bfs_order(ch).len() as int, 0),
{
    let q = seq![0usize];
    assert(q.no_duplicates());
    lemma_bfs_from(ch, q, 0, 0);
}


// ---------------------------------------------------------------------------
// Aggregation along the breadth-first order

/// One of the four totals: 0 size, 1 allocated, 2 files, 3 directories.
pub open spec fn tfield(t: Totals, fld: int) -> u64 {
    if fld == 0 { t.size } else if fld == 1 { t.allocated } else if fld == 2 { t.files } else { t.dirs }
}

/// 2^64, the modulus of the totals' arithmetic.
pub open spec fn modulus() -> int {
    0x1_0000_0000_0000_0000
}

proof fn lemma_wadd(a: u64, b: u64)
    ensures
        wadd(a, b) as int == (a + b) % modulus(),
{
    if a + b > u64::MAX {
        assert((a + b) % modulus() == a + b - modulus()) by (nonlinear_arith)
            requires modulus() <= a + b < 2 * modulus(), modulus() == 0x1_0000_0000_0000_0000int;
    } else {
        lemma_small_mod((a + b) as nat, modulus() as nat);
    }
}

/// Whether every child a node lists is another existing node whose parent is
/// that node.
pub open spec fn children_point_back(r: Seq<NodeView>) -> bool {
    forall|i: int, c: u32| 0 <= i < r.len() && #[trigger] r[i].children.contains(c) ==>
        (c as int) < r.len() && c as int != i && r[c as int].parent == Some(i as u32)
}

/// One step of the aggregation: node `x` adds its totals into its parent's.
pub open spec fn agg_step(r: Seq<NodeView>, t: Seq<Totals>, x: int) -> Seq<Totals> {
    match r[x].parent {
        Some(p) => if (p as int) < t.len() && p as int != x {
            t.update(p as int, tadd(t[p as int], t[x]))
        } else {
            t
        },
        None => t,
    }
}

/// The totals once the entries at positions `k..` of `order` have added
/// theirs into their parents', last first.
pub open spec fn agg_state(r: Seq<NodeView>, order: Seq<usize>, k: int) -> Seq<Totals>
    decreases order.len() - k,
{
    if k < 0 || k >= order.len() {
        own_totals(r)
    } else {
        agg_step(r, agg_state(r, order, k + 1), order[k] as int)
    }
}

proof fn lemma_agg_state_len(r: Seq<NodeView>, order: Seq<usize>, k: int)
    ensures
        agg_state(r, order, k).len() == r.len(),
    decreases order.len() - k,
{
    if 0 <= k < order.len() {
        lemma_agg_state_len(r, order, k + 1);
    }
}

proof fn lemma_agg_fold_state(r: Seq<NodeView>, order: Seq<usize>, k: int)
    requires
        1 <= k <= order.len(),
    ensures
        agg_fold(r, order, k, agg_state(r, order, k)) == agg_state(r, order, 1),
    decreases k,
{
    if k > 1 {
        lemma_agg_state_len(r, order, k);
        lemma_agg_fold_state(r, order, k - 1);
    }
}

/// Whether the parent of the entry at position `m` is the entry at an
/// earlier position.
pub open spec fn parent_earlier(r: Seq<NodeView>, order: Seq<usize>, m: int) -> bool {
    exists|m2: int| 0 <= m2 < m && r[order[m] as int].parent == Some(#[trigger] order[m2] as u32)
}

proof fn lemma_parents_earlier(r: Seq<NodeView>)
    requires
        r.len() >= 1,
        children_point_back(r),
    ensures
        forall|m: int| 1 <= m < bfs_order(child_lists(r)).len() ==>
            #[trigger] parent_earlier(r, bfs_order(child_lists(r)), m),
{
    let ch = child_lists(r);
    let order = bfs_order(ch);
    lemma_bfs_order(ch);
    assert forall|m: int| 1 <= m < order.len() implies #[trigger] parent_earlier(r, order, m) by {
        assert(has_lister(ch, order, m));
        let m2 = choose|m2: int| 0 <= m2 < m && #[trigger] ch[order[m2] as int].contains(order[m] as u32);
        let l = order[m2] as int;
        assert(r[l].children.contains(order[m] as u32));
        assert((order[m] as u32) as int == order[m] as int);
        assert(r[order[m] as int].parent == Some(order[m2] as u32));
    }
}

/// Whether `order` is a breadth-first order of `r` as the aggregation walks it.
pub open spec fn walk_order(r: Seq<NodeView>, order: Seq<usize>) -> bool {
    &&& bfs_queue_ok(child_lists(r), order)
    &&& forall|m: int| 1 <= m < order.len() ==> #[trigger] parent_earlier(r, order, m)
}

proof fn lemma_frozen(r: Seq<NodeView>, order: Seq<usize>, m: int, j: int)
    requires
        walk_order(r, order),
        1 <= m < order.len(),
        1 <= j <= m + 1,
    ensures
        agg_state(r, order, j)[order[m] as int] == agg_state(r, order, m + 1)[order[m] as int],
    decreases m + 1 - j,
{
    if j <= m {
        lemma_frozen(r, order, m, j + 1);
        let x = order[j] as int;
        lemma_agg_state_len(r, order, j + 1);
        assert(parent_earlier(r, order, j));
        let m2 = choose|m2: int| 0 <= m2 < j && r[order[j] as int].parent == Some(#[trigger] order[m2] as u32);
        assert((order[m2] as u32) as int == order[m2] as int);
        assert(order[m2] != order[m]);
        assert(order[j] != order[m2]);
        assert(agg_state(r, order, j) == agg_step(r, agg_state(r, order, j + 1), x));
    }
}

/// Whether node `j` is at position `k` or later in `order`.
pub open spec fn in_tail(order: Seq<usize>, k: int, j: int) -> bool {
    exists|w: int| k <= w < order.len() && #[trigger] order[w] as int == j
}

/// The sum over the nodes `j < upto` whose position in `order` is `k` or
/// later and whose parent is `y`, of their totals `t[j]`.
pub open spec fn later_child_sum(r: Seq<NodeView>, order: Seq<usize>, t: Seq<Totals>, k: int, y: int, fld: int, upto: int) -> int
    decreases upto,
{
    if upto <= 0 {
        0
    } else {
        later_child_sum(r, order, t, k, y, fld, upto - 1) + (
            if in_tail(order, k, upto - 1) && r[upto - 1].parent == Some(y as u32) {
                tfield(t[upto - 1], fld) as int
            } else {
                0
            })
    }
}

proof fn lemma_later_child_sum_step(r: Seq<NodeView>, order: Seq<usize>, t: Seq<Totals>, k: int, y: int, fld: int, upto: int)
    requires
        1 <= k <= order.len(),
        order.no_duplicates(),
        0 <= upto,
    ensures
        later_child_sum(r, order, t, k - 1, y, fld, upto) == later_child_sum(r, order, t, k, y, fld, upto) + (
            if (order[k - 1] as int) < upto && r[order[k - 1] as int].parent == Some(y as u32) {
                tfield(t[order[k - 1] as int], fld) as int
            } else {
                0
            }),
    decreases upto,
{
    if upto > 0 {
        lemma_later_child_sum_step(r, order, t, k, y, fld, upto - 1);
        let j = upto - 1;
        let x = order[k - 1] as int;
        assert(in_tail(order, k - 1, x)) by {
            assert(order[k - 1] as int == x);
        }
        if in_tail(order, k - 1, j) {
            let w = choose|w: int| k - 1 <= w < order.len() && #[trigger] order[w] as int == j;
            if w >= k {
                assert(in_tail(order, k, j));
            }
        }
        if in_tail(order, k, j) {
            let w = choose|w: int| k <= w < order.len() && #[trigger] order[w] as int == j;
            assert(in_tail(order, k - 1, j));
        }
        if in_tail(order, k, x) {
            let w = choose|w: int| k <= w < order.len() && #[trigger] order[w] as int == x;
            assert(order[w] == order[k - 1]);
        }
        assert(in_tail(order, k - 1, j) == (in_tail(order, k, j) || j == x));
        assert(!in_tail(order, k, x));
    }
}

/// The aggregation along a walk order: each node's totals are what it counts
/// by itself plus the totals of the nodes at positions `k` or later whose
/// parent it is, modulo 2^64.
proof fn lemma_agg_state_sums(r: Seq<NodeView>, order: Seq<usize>, k: int)
    requires
        walk_order(r, order),
        r.len() <= u32::MAX,
        1 <= k <= order.len(),
    ensures
        forall|y: int, fld: int| 0 <= y < r.len() && 0 <= fld < 4 ==>
            #[trigger] tfield(agg_state(r, order, k)[y], fld) as int
                == (tfield(own_total(r, y), fld) + later_child_sum(r, order, agg_state(r, order, 1), k, y, fld, r.len() as int)) % modulus(),
    decreases order.len() - k,
{
    let t1 = agg_state(r, order, 1);
    let n = r.len() as int;
    lemma_agg_state_len(r, order, k);
    if k == order.len() {
        assert forall|y: int, fld: int| 0 <= y < r.len() && 0 <= fld < 4 implies
            #[trigger] tfield(agg_state(r, order, k)[y], fld) as int
                == (tfield(own_total(r, y), fld) + later_child_sum(r, order, t1, k, y, fld, n)) % modulus() by {
            lemma_later_child_sum_empty(r, order, t1, k, y, fld, n);
            lemma_small_mod(tfield(own_total(r, y), fld) as nat, modulus() as nat);
        }
    } else {
        lemma_agg_state_sums(r, order, k + 1);
        let x = order[k] as int;
        lemma_agg_state_len(r, order, k + 1);
        assert(parent_earlier(r, order, k));
        let m2 = choose|m2: int| 0 <= m2 < k && r[order[k] as int].parent == Some(#[trigger] order[m2] as u32);
        let p = order[m2] as int;
        assert((order[m2] as u32) as int == p);
        assert(order[m2] != order[k]);
        assert(p != x);
        assert(p < n);
        lemma_frozen(r, order, k, 1);
        lemma_agg_state_len(r, order, 1);
        let prev = agg_state(r, order, k + 1);
        assert(agg_state(r, order, k) == agg_step(r, prev, x));
        assert(agg_state(r, order, k) == prev.update(p, tadd(prev[p], prev[x])));
        assert forall|y: int, fld: int| 0 <= y < r.len() && 0 <= fld < 4 implies
            #[trigger] tfield(agg_state(r, order, k)[y], fld) as int
                == (tfield(own_total(r, y), fld) + later_child_sum(r, order, t1, k, y, fld, n)) % modulus() by {
            lemma_later_child_sum_step(r, order, t1, k + 1, y, fld, n);
            assert((y as u32) as int == y);
            assert(r[x].parent == Some(p as u32));
            assert(tfield(prev[y], fld) as int
                == (tfield(own_total(r, y), fld) + later_child_sum(r, order, t1, k + 1, y, fld, n)) % modulus());
            if y == p {
                let a = tfield(prev[p], fld);
                let b = tfield(prev[x], fld);
                assert(tfield(agg_state(r, order, k)[y], fld) == wadd(a, b));
                lemma_wadd(a, b);
                assert(b == tfield(t1[x], fld));
                lemma_add_mod_noop_right(b as int,
                    tfield(own_total(r, y), fld) + later_child_sum(r, order, t1, k + 1, y, fld, n), modulus());
                assert((a + b) % modulus() == (tfield(own_total(r, y), fld) + later_child_sum(r, order, t1, k + 1, y, fld, n) + b) % modulus());
            } else {
                assert(agg_state(r, order, k)[y] == prev[y]);
            }
        }
    }
}

proof fn lemma_later_child_sum_empty(r: Seq<NodeView>, order: Seq<usize>, t: Seq<Totals>, k: int, y: int, fld: int, upto: int)
    requires
        k == order.len(),
    ensures
        later_child_sum(r, order, t, k, y, fld, upto) == 0,
    decreases upto,
{
    if upto > 0 {
        lemma_later_child_sum_empty(r, order, t, k, y, fld, upto - 1);
        assert(!in_tail(order, k, upto - 1));
    }
}


// ---------------------------------------------------------------------------
// Directory totals of a finished tree

/// Whether a tree is linked both ways: the root has no parent, every child a
/// node lists (other than itself, among the nodes) has that node as its
/// parent, and there are no more nodes than `u32` ids.
pub open spec fn linked(s: Seq<NodeView>) -> bool {
    &&& 1 <= s.len() <= u32::MAX
    &&& s[0].parent is None
    &&& forall|i: int, c: u32| 0 <= i < s.len() && #[trigger] s[i].children.contains(c)
            && (c as int) < s.len() && c as int != i ==> s[c as int].parent == Some(i as u32)
}

/// Whether node `y` is reached from the root through the child lists that
/// finishing a tree keeps.
pub open spec fn reached(s: Seq<NodeView>, y: int) -> bool {
    bfs_order(child_lists(retained(s))).contains(y as usize)
}

/// One of the four totals a node carries: 0 size, 1 allocated, 2 files, 3 directories.
pub open spec fn node_total(n: NodeView, fld: int) -> u64 {
    if fld == 0 { n.total_size } else if fld == 1 { n.total_allocated } else if fld == 2 { n.file_count } else { n.dir_count }
}

/// What node `n` at index `i` counts by itself: its size, its allocated size,
/// one file or one directory (the root counts no directory).
pub open spec fn own_part(n: NodeView, i: int, fld: int) -> u64 {
    if fld == 0 {
        n.size
    } else if fld == 1 {
        n.allocated
    } else if fld == 2 {
        if n.is_dir { 0 } else { 1 }
    } else {
        if i == 0 { 0 } else if n.is_dir { 1 } else { 0 }
    }
}

/// The sum over the nodes `j < upto` that node `y` lists as children of
/// their totals.
pub open spec fn children_total(f: Seq<NodeView>, y: int, fld: int, upto: int) -> int
    decreases upto,
{
    if upto <= 0 {
        0
    } else {
        children_total(f, y, fld, upto - 1)
            + if f[y].children.contains((upto - 1) as u32) { node_total(f[upto - 1], fld) as int } else { 0 }
    }
}

pub(crate) proof fn lemma_insert_contains(r: Seq<u32>, p: int, v: u32, x: u32)
    requires
        0 <= p <= r.len(),
    ensures
        r.insert(p, v).contains(x) == (r.contains(x) || x == v),
{
    let t = r.insert(p, v);
    if t.contains(x) {
        let w = choose|w: int| 0 <= w < t.len() && t[w] == x;
        if w < p {
            assert(r[w] == x);
        } else if w > p {
            assert(r[w - 1] == x);
        }
    }
    if r.contains(x) {
        let w = choose|w: int| 0 <= w < r.len() && r[w] == x;
        if w < p {
            assert(t[w] == x);
        } else {
            assert(t[w + 1] == x);
        }
    }
    if x == v {
        assert(t[p] == x);
    }
}

pub(crate) proof fn lemma_sort_ids_contains(s: Seq<u32>, totals: Seq<u64>, names: Seq<Seq<char>>, x: u32)
    ensures
        sort_ids(s, totals, names).contains(x) == s.contains(x),
        sort_ids(s, totals, names).len() == s.len(),
    decreases s.len(),
{
    if s.len() > 0 {
        let r = sort_ids(s.drop_last(), totals, names);
        lemma_sort_ids_contains(s.drop_last(), totals, names, x);
        lemma_insert_pos_range(r, s.last(), totals, names, 0);
        lemma_insert_contains(r, insert_pos(r, s.last(), totals, names, 0), s.last(), x);
        if s.contains(x) {
            let w = choose|w: int| 0 <= w < s.len() && s[w] == x;
            if w < s.len() - 1 {
                assert(s.drop_last()[w] == x);
            }
        }
        if s.drop_last().contains(x) {
            let w = choose|w: int| 0 <= w < s.drop_last().len() && s.drop_last()[w] == x;
            assert(s[w] == x);
        }
    }
}

pub(crate) proof fn lemma_children_point_back(s: Seq<NodeView>)
    requires
        linked(s),
    ensures
        children_point_back(retained(s)),
        retained(s).len() == s.len(),
        forall|i: int| 0 <= i < s.len() ==> (#[trigger] retained(s)[i]).parent == s[i].parent,
        forall|i: int, c: u32| 0 <= i < s.len() && (c as int) < s.len() && c as int != i && s[i].children.contains(c)
            ==> #[trigger] retained(s)[i].children.contains(c),
{
    let r = retained(s);
    let n = s.len() as int;
    assert forall|i: int, c: u32| 0 <= i < r.len() && #[trigger] r[i].children.contains(c) implies
        (c as int) < r.len() && c as int != i && r[c as int].parent == Some(i as u32) by {
        let pred = keep_child(i, n);
        let w = choose|w: int| 0 <= w < r[i].children.len() && r[i].children[w] == c;
        s[i].children.lemma_filter_pred(pred, w);
        s[i].children.lemma_filter_contains_rev(pred, c);
    }
    assert forall|i: int, c: u32| 0 <= i < s.len() && (c as int) < s.len() && c as int != i && s[i].children.contains(c)
        implies #[trigger] retained(s)[i].children.contains(c) by {
        let w = choose|w: int| 0 <= w < s[i].children.len() && s[i].children[w] == c;
        s[i].children.lemma_filter_contains(keep_child(i, n), w);
    }
}

proof fn lemma_sum_congruent(f: Seq<NodeView>, r: Seq<NodeView>, order: Seq<usize>, t: Seq<Totals>, y: int, fld: int, upto: int)
    requires
        forall|j: int| 0 <= j < upto ==>
            (#[trigger] f[y].children.contains(j as u32)) == (in_tail(order, 1, j) && r[j].parent == Some(y as u32)),
        forall|j: int| 0 <= j < upto ==> #[trigger] node_total(f[j], fld) == tfield(t[j], fld),
    ensures
        children_total(f, y, fld, upto) == later_child_sum(r, order, t, 1, y, fld, upto),
    decreases upto,
{
    if upto > 0 {
        lemma_sum_congruent(f, r, order, t, y, fld, upto - 1);
        assert(f[y].children.contains((upto - 1) as u32) == (in_tail(order, 1, upto - 1) && r[upto - 1].parent == Some(y as u32)));
        assert(node_total(f[upto - 1], fld) == tfield(t[upto - 1], fld));
    }
}

proof fn lemma_sum_none(r: Seq<NodeView>, order: Seq<usize>, t: Seq<Totals>, y: int, fld: int, upto: int)
    requires
        forall|j: int| 0 <= j < upto ==> !(#[trigger] in_tail(order, 1, j) && r[j].parent == Some(y as u32)),
    ensures
        later_child_sum(r, order, t, 1, y, fld, upto) == 0,
    decreases upto,
{
    if upto > 0 {
        lemma_sum_none(r, order, t, y, fld, upto - 1);
        assert(!(in_tail(order, 1, upto - 1) && r[upto - 1].parent == Some(y as u32)));
    }
}

/// The totals of a finished tree, for a tree linked both ways whose root
/// lists a child: every node reached from the root carries what it counts by
/// itself plus the totals of the children it lists (sizes, allocated sizes,
/// files and directories, modulo 2^64); every other node carries only what it
/// counts by itself. The root is reached, and so is every child a reached
/// node lists.
pub proof fn law_directory_totals(s: Seq<NodeView>)
    requires
        linked(s),
        exists|c: u32| #[trigger] s[0].children.contains(c) && 0 < c && (c as int) < s.len(),
    ensures
        reached(s, 0),
        forall|y: int, c: u32| 0 <= y < s.len() && reached(s, y) && #[trigger] finalized(s)[y].children.contains(c)
            ==> reached(s, c as int),
        forall|y: int, fld: int| 0 <= y < s.len() && 0 <= fld < 4 && reached(s, y) ==>
            #[trigger] node_total(finalized(s)[y], fld) as int
                == (own_part(finalized(s)[y], y, fld) + children_total(finalized(s), y, fld, s.len() as int)) % modulus(),
        forall|y: int, fld: int| 0 <= y < s.len() && 0 <= fld < 4 && !reached(s, y) ==>
            #[trigger] node_total(finalized(s)[y], fld) == own_part(finalized(s)[y], y, fld),
{
    let n = s.len() as int;
    let r = retained(s);
    lemma_children_point_back(s);
    let ch = child_lists(r);
    let order = bfs_order(ch);
    lemma_bfs_order(ch);
    lemma_parents_earlier(r);
    assert(walk_order(r, order));
    let f = finalized(s);
    assert(f == with_sorted_children(with_totals(r, aggregated_totals(r))));
    // the root lists a child, so the walk reaches more than the root
    let c0 = choose|c: u32| #[trigger] s[0].children.contains(c) && 0 < c && (c as int) < s.len();
    assert(r[0].children.contains(c0));
    let k0 = choose|k: int| 0 <= k < r[0].children.len() && r[0].children[k] == c0;
    assert(order[0] == 0);
    assert(ch[order[0] as int][k0] == c0);
    assert(order.contains(ch[order[0] as int][k0] as usize));
    let w0 = choose|w: int| 0 <= w < order.len() && order[w] == c0 as usize;
    assert(w0 != 0);
    assert(order.len() >= 2);
    // the totals are the aggregation along the walk
    let t = agg_state(r, order, 1);
    lemma_agg_fold_state(r, order, order.len() as int);
    assert(agg_state(r, order, order.len() as int) == own_totals(r));
    assert(aggregated_totals(r) == t);
    lemma_agg_state_len(r, order, 1);
    lemma_agg_state_sums(r, order, 1);
    assert forall|y: int| 0 <= y < n implies #[trigger] f[y] == ({
        let v = with_totals(r, t)[y];
        NodeView { children: sort_ids(v.children, allocated_totals(with_totals(r, t)), lower_names(with_totals(r, t))), ..v }
    }) by {}
    // a child listed by a reached node is reached, and is a later entry whose parent it is
    assert forall|y: int, c: u32| 0 <= y < n && reached(s, y) && #[trigger] f[y].children.contains(c) implies
        reached(s, c as int) && in_tail(order, 1, c as int) && r[c as int].parent == Some(y as u32) by {
        lemma_sort_ids_contains(r[y].children, allocated_totals(with_totals(r, t)), lower_names(with_totals(r, t)), c);
        assert(r[y].children.contains(c));
        let m = choose|m: int| 0 <= m < order.len() && order[m] == y as usize;
        let kk = choose|kk: int| 0 <= kk < r[y].children.len() && r[y].children[kk] == c;
        assert(ch[order[m] as int][kk] == c);
        assert(order.contains(ch[order[m] as int][kk] as usize));
        let w = choose|w: int| 0 <= w < order.len() && order[w] == c as usize;
        assert(r[c as int].parent == Some(y as u32));
        assert(r[0].parent is None);
        assert(w != 0);
        assert(order[w] as int == c as int);
    }
    // an entry after the root is listed by its parent, which is reached
    assert forall|y: int, j: int| #![trigger in_tail(order, 1, j), f[y].children.contains(j as u32)]
        0 <= y < n && 0 <= j < n && in_tail(order, 1, j) && r[j].parent == Some(y as u32)
        implies reached(s, y) && f[y].children.contains(j as u32) by {
        let w = choose|w: int| 1 <= w < order.len() && #[trigger] order[w] as int == j;
        assert(has_lister(ch, order, w));
        let m3 = choose|m3: int| 0 <= m3 < w && #[trigger] ch[order[m3] as int].contains(order[w] as u32);
        let l = order[m3] as int;
        assert(r[l].children.contains(order[w] as u32));
        assert(r[j].parent == Some(l as u32));
        assert((y as u32) as int == y);
        assert(y == l);
        assert(order.contains(y as usize)) by { assert(order[m3] == y as usize); }
        lemma_sort_ids_contains(r[y].children, allocated_totals(with_totals(r, t)), lower_names(with_totals(r, t)), j as u32);
        assert((order[w] as u32) == j as u32);
    }
    assert forall|j: int, fld: int| 0 <= j < n && 0 <= fld < 4 implies #[trigger] node_total(f[j], fld) == tfield(t[j], fld) by {}
    assert forall|y: int, fld: int| 0 <= y < n && 0 <= fld < 4 && reached(s, y) implies
        #[trigger] node_total(f[y], fld) as int == (own_part(f[y], y, fld) + children_total(f, y, fld, n)) % modulus() by {
        assert forall|j: int| 0 <= j < n implies
            (#[trigger] f[y].children.contains(j as u32)) == (in_tail(order, 1, j) && r[j].parent == Some(y as u32)) by {
            if f[y].children.contains(j as u32) {
                assert((j as u32) as int == j);
            }
        }
        assert forall|j: int| 0 <= j < n implies #[trigger] node_total(f[j], fld) == tfield(t[j], fld) by {}
        lemma_sum_congruent(f, r, order, t, y, fld, n);
        assert(own_part(f[y], y, fld) == tfield(own_total(r, y), fld));
    }
    assert forall|y: int, fld: int| 0 <= y < n && 0 <= fld < 4 && !reached(s, y) implies
        #[trigger] node_total(f[y], fld) == own_part(f[y], y, fld) by {
        assert forall|j: int| 0 <= j < n implies !(#[trigger] in_tail(order, 1, j) && r[j].parent == Some(y as u32)) by {
            if in_tail(order, 1, j) && r[j].parent == Some(y as u32) {
                assert(f[y].children.contains(j as u32));
            }
        }
        lemma_sum_none(r, order, t, y, fld, n);
        assert(own_part(f[y], y, fld) == tfield(own_total(r, y), fld));
        lemma_small_mod(tfield(own_total(r, y), fld) as nat, modulus() as nat);
    }
    assert(reached(s, 0)) by { assert(order[0] == 0usize); }
}

// ---------------------------------------------------------------------------
// Listing order of children

/// Whether every node of `f` lists its children largest allocated total
/// first: of two consecutive children `a`, `b` both are nodes of `f`, the
/// allocated total of `a` is at least that of `b`, and where the two totals
/// are equal the lowercase name of `b` does not come before that of `a`.
pub open spec fn listed_largest_first(f: Seq<NodeView>) -> bool {
    forall|y: int, k: int| 0 <= y < f.len() && 0 <= k && k + 1 < f[y].children.len() ==> {
        let a = #[trigger] f[y].children[k] as int;
        let b = f[y].children[k + 1] as int;
        &&& 0 <= a < f.len()
        &&& 0 <= b < f.len()
        &&& f[a].total_allocated >= f[b].total_allocated
        &&& (f[a].total_allocated == f[b].total_allocated ==> !lex_less(lower(f[b].name), lower(f[a].name)))
    }
}

pub(crate) proof fn lemma_lex_less_asym(a: Seq<char>, b: Seq<char>)
    ensures
        lex_less(a, b) ==> !lex_less(b, a),
    decreases a.len(),
{
    if a.len() > 0 && b.len() > 0 && a[0] == b[0] {
        lemma_lex_less_asym(a.drop_first(), b.drop_first());
    }
}

proof fn lemma_insert_pos_facts(s: Seq<u32>, x: u32, totals: Seq<u64>, names: Seq<Seq<char>>, j: int)
    requires
        0 <= j <= s.len(),
    ensures
        forall|m: int| j <= m < insert_pos(s, x, totals, names, j) ==> !child_before(totals, names, x, #[trigger] s[m]),
        insert_pos(s, x, totals, names, j) < s.len() ==> child_before(totals, names, x, s[insert_pos(s, x, totals, names, j)]),
    decreases s.len() - j,
{
    lemma_insert_pos_range(s, x, totals, names, j);
    if j < s.len() && !child_before(totals, names, x, s[j]) {
        lemma_insert_pos_facts(s, x, totals, names, j + 1);
    }
}

/// Whether no id of `r` should come before the one listed just ahead of it.
pub open spec fn ids_ordered(r: Seq<u32>, totals: Seq<u64>, names: Seq<Seq<char>>) -> bool {
    forall|k: int| #![trigger r[k]] 0 <= k && k + 1 < r.len() ==> !child_before(totals, names, r[k + 1], r[k])
}

proof fn lemma_sort_ids_ordered(s: Seq<u32>, totals: Seq<u64>, names: Seq<Seq<char>>)
    ensures
        ids_ordered(sort_ids(s, totals, names), totals, names),
    decreases s.len(),
{
    if s.len() > 0 {
        let r = sort_ids(s.drop_last(), totals, names);
        let x = s.last();
        lemma_sort_ids_ordered(s.drop_last(), totals, names);
        lemma_insert_pos_range(r, x, totals, names, 0);
        lemma_insert_pos_facts(r, x, totals, names, 0);
        let p = insert_pos(r, x, totals, names, 0);
        let r2 = r.insert(p, x);
        assert(sort_ids(s, totals, names) == r2);
        assert forall|k: int| #![trigger r2[k]] 0 <= k && k + 1 < r2.len() implies !child_before(totals, names, r2[k + 1], r2[k]) by {
            if k + 1 < p {
                assert(r2[k] == r[k] && r2[k + 1] == r[k + 1]);
            } else if k + 1 == p {
                assert(r2[k] == r[k] && r2[k + 1] == x);
            } else if k == p {
                assert(r2[k] == x && r2[k + 1] == r[p]);
                lemma_lex_less_asym(names[x as int], names[r[p] as int]);
            } else {
                assert(r2[k] == r[k - 1] && r2[k + 1] == r[k]);
            }
        }
    }
}

/// Children listed by `with_sorted_children` that name nodes come largest first.
pub(crate) proof fn lemma_sorted_children_listed(w: Seq<NodeView>)
    requires
        forall|y: int, c: u32| 0 <= y < w.len() && #[trigger] w[y].children.contains(c) ==> (c as int) < w.len(),
    ensures
        listed_largest_first(with_sorted_children(w)),
{
    let f = with_sorted_children(w);
    let totals = allocated_totals(w);
    let names = lower_names(w);
    assert forall|y: int, k: int| 0 <= y < f.len() && 0 <= k && k + 1 < f[y].children.len() implies {
        let a = #[trigger] f[y].children[k] as int;
        let b = f[y].children[k + 1] as int;
        &&& 0 <= a < f.len()
        &&& 0 <= b < f.len()
        &&& f[a].total_allocated >= f[b].total_allocated
        &&& (f[a].total_allocated == f[b].total_allocated ==> !lex_less(lower(f[b].name), lower(f[a].name)))
    } by {
        let ch = w[y].children;
        let sorted = f[y].children;
        assert(sorted == sort_ids(ch, totals, names));
        let a = sorted[k];
        let b = sorted[k + 1];
        lemma_sort_ids_ordered(ch, totals, names);
        assert(!child_before(totals, names, sorted[k + 1], sorted[k]));
        lemma_sort_ids_contains(ch, totals, names, a);
        lemma_sort_ids_contains(ch, totals, names, b);
        assert(sorted.contains(a));
        assert(sorted.contains(b));
        assert(w[y].children.contains(a));
        assert(w[y].children.contains(b));
    }
}

/// The child lists of `retained(s)` only name nodes of `s`.
pub(crate) proof fn lemma_retained_in_range(s: Seq<NodeView>)
    ensures
        forall|y: int, c: u32| 0 <= y < s.len() && #[trigger] retained(s)[y].children.contains(c) ==> (c as int) < s.len(),
{
    assert forall|y: int, c: u32| 0 <= y < s.len() && #[trigger] retained(s)[y].children.contains(c) implies (c as int) < s.len() by {
        s[y].children.lemma_filter_contains_rev(keep_child(y, s.len() as int), c);
    }
}

/// Law: in a finished tree each node lists its children by allocated total,
/// largest first, the totals compared as full 64-bit values, and children of
/// equal allocated total by lowercase name: of two consecutive children `a`
/// and `b`, both are nodes of the tree, `a`'s allocated total is at least
/// `b`'s, and where they are equal `b`'s lowercase name does not come before
/// `a`'s.
pub proof fn law_children_largest_first(s: Seq<NodeView>)
    ensures
        listed_largest_first(finalized(s)),
{
    let s0 = if s.len() == 0 { seq![crate::tree::root_view("root"@)] } else { s };
    let r = retained(s0);
    let w = with_totals(r, aggregated_totals(r));
    lemma_retained_in_range(s0);
    assert forall|y: int, c: u32| 0 <= y < w.len() && #[trigger] w[y].children.contains(c) implies (c as int) < w.len() by {
        assert(w[y].children == r[y].children);
    }
    lemma_sorted_children_listed(w);
}

/// Law: in a tree finished by the desktop application each node lists its
/// children by allocated total, largest first, the totals compared as full
/// 64-bit values, and children of equal allocated total by lowercase name: of
/// two consecutive children `a` and `b`, both are nodes of the tree, `a`'s
/// allocated total is at least `b`'s, and where they are equal `b`'s
/// lowercase name does not come before `a`'s.
pub proof fn law_desktop_children_largest_first(s: Seq<NodeView>)
    ensures
        listed_largest_first(crate::desktop_tree::finalized(s)),
{
    let s0 = if s.len() == 0 { seq![crate::tree::root_view("root"@)] } else { s };
    let r = retained(s0);
    let w = with_totals(r, crate::desktop_tree::dfs_totals(r));
    lemma_retained_in_range(s0);
    assert forall|y: int, c: u32| 0 <= y < w.len() && #[trigger] w[y].children.contains(c) implies (c as int) < w.len() by {
        assert(w[y].children == r[y].children);
    }
    lemma_sorted_children_listed(w);
}

} // verus!
