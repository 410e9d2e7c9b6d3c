//! Treemap data: the largest parts of a directory, nested, within a budget
//! of entries.
use vstd::prelude::*;
use crate::models::{NodeDto, TreemapNode};
use crate::order::{key_order, key_order_exec, lemma_key_order};
use crate::query::QueryError;
use crate::tree::{NodeView, clone_opt_string, dto_views};

verus! {

/// The mathematical content of a treemap entry.
pub struct TreemapView {
    pub id: u32,
    pub size: u64,
    pub name: Seq<char>,
    pub is_dir: bool,
    pub extension: Option<Seq<char>>,
    pub children: Seq<TreemapView>,
}

/// The view of a treemap entry.
pub open spec fn tm_view(t: TreemapNode) -> TreemapView
    decreases t,
{
    TreemapView {
        id: t.id,
        size: t.size,
        name: t.name@,
        is_dir: t.is_dir,
        extension: match t.extension { Some(e) => Some(e@), None => None },
        children: tm_views_upto(t, t.children@.len() as int),
    }
}

/// The views of the first `k` children of `t`.
pub open spec fn tm_views_upto(t: TreemapNode, k: int) -> Seq<TreemapView>
    decreases t, k,
{
    if k <= 0 || k > t.children@.len() {
        seq![]
    } else {
        proof {
            assert(decreases_to!(t => t.children));
            assert(decreases_to!(t.children => t.children@));
            assert(decreases_to!(t.children@ => t.children@[k - 1]));
        }
        tm_views_upto(t, k - 1).push(tm_view(t.children@[k - 1]))
    }
}

/// The views of a sequence of treemap entries.
pub open spec fn tm_seq_views(s: Seq<TreemapNode>) -> Seq<TreemapView> {
    Seq::new(s.len(), |i: int| tm_view(s[i]))
}

pub open spec fn opt_tm_view(o: Option<TreemapNode>) -> Option<TreemapView> {
    match o { Some(t) => Some(tm_view(t)), None => None }
}

/// `entries` ordered by size, largest first, equal sizes keeping their order.
pub open spec fn by_size_desc(entries: Seq<TreemapView>) -> Seq<TreemapView> {
    let keys = Seq::new(entries.len(), |j: int| (-(entries[j].size as int)) as i128);
    key_order(keys).map_values(|j: usize| entries[j as int])
}

/// The treemap entry of node `id` with `budget` entries left, and the budget
/// left after it. A node that does not exist or has no allocated bytes gives
/// nothing. A directory with children lists, while budget is left, the
/// entries of its children in turn, ordered by size, and then takes one
/// entry of the budget if any is left; any other node needs and takes one.
/// Directories nested deeper than `depth` (which only a cycle of child lists
/// makes possible) give nothing.
pub open spec fn treemap_of(nodes: Seq<NodeView>, id: u32, budget: u32, depth: nat) -> (Option<TreemapView>, u32)
    decreases depth, 0int, 0int,
{
    if id as int >= nodes.len() {
        (None, budget)
    } else {
        let n = nodes[id as int];
        if n.total_allocated == 0 {
            (None, budget)
        } else if n.is_dir && n.children.len() > 0 {
            if depth == 0 {
                (None, budget)
            } else {
                let (kids, left) = treemap_children(nodes, n.children, 0, budget, (depth - 1) as nat);
                (Some(TreemapView {
                    id: n.id,
                    size: n.total_allocated,
                    name: n.name,
                    is_dir: true,
                    extension: None,
                    children: by_size_desc(kids),
                }), if left == 0 { 0 } else { (left - 1) as u32 })
            }
        } else if budget == 0 {
            (None, budget)
        } else {
            (Some(TreemapView {
                id: n.id,
                size: n.total_allocated,
                name: n.name,
                is_dir: n.is_dir,
                extension: n.extension,
                children: seq![],
            }), (budget - 1) as u32)
        }
    }
}

/// The entries of the children `ch[i..]` with `budget` entries left, in
/// order, stopping once the budget is spent, and the budget left after them.
pub open spec fn treemap_children(nodes: Seq<NodeView>, ch: Seq<u32>, i: int, budget: u32, depth: nat) -> (Seq<TreemapView>, u32)
    decreases depth, 1int, ch.len() - i,
{
    if i < 0 || i >= ch.len() || budget == 0 {
        (seq![], budget)
    } else {
        let (c, left) = treemap_of(nodes, ch[i], budget, depth);
        let (rest, left2) = treemap_children(nodes, ch, i + 1, left, depth);
        (match c { Some(v) => seq![v] + rest, None => rest }, left2)
    }
}

/// Orders treemap entries by size, largest first, keeping the order of equal sizes.
fn sort_entries_by_size(entries: Vec<TreemapNode>) -> (r: Vec<TreemapNode>)
    ensures
        tm_seq_views(r@) == by_size_desc(tm_seq_views(entries@)),
{
    let ghost ev = tm_seq_views(entries@);
    let mut keys: Vec<i128> = Vec::new();
    let mut k: usize = 0;
    while k < entries.len()
        invariant
            k <= entries@.len(),
            ev == tm_seq_views(entries@),
            keys@ == Seq::new(ev.len(), |j: int| (-(ev[j].size as int)) as i128).take(k as int),
        decreases entries@.len() - k,
    {
        keys.push(-(entries[k].size as i128));
        k += 1;
        assert(keys@ =~= Seq::new(ev.len(), |j: int| (-(ev[j].size as int)) as i128).take(k as int));
    }
    assert(keys@ =~= Seq::new(ev.len(), |j: int| (-(ev[j].size as int)) as i128));
    let order = key_order_exec(&keys);
    proof { lemma_key_order(keys@); }
    let mut slots: Vec<Option<TreemapNode>> = Vec::new();
    let mut entries = entries;
    let ghost n = ev.len();
    let mut s: usize = 0;
    // move the entries into slots, keeping their positions
    while entries.len() > 0
        invariant
            entries@.len() + slots@.len() == n,
            ev.len() == n,
            forall|j: int| 0 <= j < entries@.len() ==> tm_view(#[trigger] entries@[j]) == ev[j],
            forall|j: int| 0 <= j < slots@.len() ==> (#[trigger] slots@[j] matches Some(t)
                && tm_view(t) == ev[entries@.len() + slots@.len() - 1 - j]),
        decreases entries@.len(),
    {
        let ghost before = slots@;
        let t = entries.pop().unwrap();
        slots.push(Some(t));
        proof {
            assert forall|j: int| 0 <= j < slots@.len() implies (#[trigger] slots@[j] matches Some(t)
                && tm_view(t) == ev[entries@.len() + slots@.len() - 1 - j]) by {
                if j < before.len() {
                    assert(slots@[j] == before[j]);
                }
            }
        }
    }
    // slots[j] holds entry n - 1 - j
    let mut r: Vec<TreemapNode> = Vec::new();
    let ghost target = by_size_desc(ev);
    let mut x: usize = 0;
    while x < order.len()
        invariant
            x <= order@.len(),
            order@ == key_order(Seq::new(ev.len(), |j: int| (-(ev[j].size as int)) as i128)),
            order@.len() == n,
            slots@.len() == n,
            ev.len() == n,
            target == by_size_desc(ev),
            forall|y: int| 0 <= y < order@.len() ==> (#[trigger] order@[y] as int) < n,
            order@.no_duplicates(),
            forall|j: int| 0 <= j < n ==> (#[trigger] slots@[j] matches Some(t) ==> tm_view(t) == ev[n - 1 - j]),
            forall|y: int| x <= y < order@.len() ==> (#[trigger] slots@[n - 1 - order@[y] as int]) is Some,
            r@.len() == x,
            forall|y: int| 0 <= y < x ==> tm_view(#[trigger] r@[y]) == target[y],
        decreases order@.len() - x,
    {
        let j = order[x];
        let pos = n_minus_one_minus(slots.len(), j);
        let mut taken: Option<TreemapNode> = None;
        std::mem::swap(&mut taken, &mut slots[pos]);
        proof {
            assert forall|y: int| x + 1 <= y < order@.len() implies (#[trigger] slots@[n - 1 - order@[y] as int]) is Some by {
                assert(order@[y] != order@[x as int]);
            }
        }
        let t = taken.unwrap();
        r.push(t);
        x += 1;
    }
    proof {
        assert forall|y: int| 0 <= y < r@.len() implies #[trigger] tm_seq_views(r@)[y] == target[y] by {}
        assert(tm_seq_views(r@) =~= target);
    }
    r
}

fn n_minus_one_minus(n: usize, j: usize) -> (r: usize)
    requires
        j < n,
    ensures
        r == n - 1 - j,
{
    n - 1 - j
}

fn treemap_at(id: u32, nodes: &Vec<NodeDto>, remaining: &mut u32, depth: usize) -> (r: Option<TreemapNode>)
    ensures
        (opt_tm_view(r), *final(remaining)) == treemap_of(dto_views(nodes@), id, *old(remaining), depth as nat),
    decreases depth, 0int, 0int,
{
    let ghost nv = dto_views(nodes@);
    if id as usize >= nodes.len() {
        return None;
    }
    let node = &nodes[id as usize];
    if node.total_allocated == 0 {
        return None;
    }
    if node.is_dir && node.children.len() > 0 {
        if depth == 0 {
            return None;
        }
        let ghost start = *remaining;
        let ghost ch = node.children@;
        let mut children: Vec<TreemapNode> = Vec::new();
        let mut i: usize = 0;
        while i < node.children.len()
            invariant_except_break
                i <= ch.len(),
                depth > 0,
                ch == node.children@,
                nv == dto_views(nodes@),
                treemap_children(nv, ch, 0, start, (depth - 1) as nat) == ({
                    let rest = treemap_children(nv, ch, i as int, *remaining, (depth - 1) as nat);
                    (tm_seq_views(children@) + rest.0, rest.1)
                }),
            ensures
                treemap_children(nv, ch, 0, start, (depth - 1) as nat) == (tm_seq_views(children@), *remaining),
            decreases ch.len() - i,
        {
            if *remaining == 0 {
                assert(tm_seq_views(children@) + Seq::<TreemapView>::empty() =~= tm_seq_views(children@));
                break;
            }
            let ghost before = children@;
            let c = treemap_at(node.children[i], nodes, remaining, depth - 1);
            match c {
                Some(v) => {
                    children.push(v);
                    proof {
                        assert(tm_seq_views(children@) =~= tm_seq_views(before).push(tm_view(v)));
                        let rest = treemap_children(nv, ch, i + 1, *remaining, (depth - 1) as nat);
                        assert(tm_seq_views(before) + (seq![tm_view(v)] + rest.0) =~= tm_seq_views(children@) + rest.0);
                    }
                },
                None => {},
            }
            i += 1;
        }
        proof {
            if i >= ch.len() {
                assert(tm_seq_views(children@) + Seq::<TreemapView>::empty() =~= tm_seq_views(children@));
            }
        }
        let sorted = sort_entries_by_size(children);
        let left = *remaining;
        *remaining = if left == 0 { 0 } else { left - 1 };
        let r = TreemapNode {
            id: node.id,
            size: node.total_allocated,
            name: node.name.clone(),
            is_dir: true,
            extension: None,
            children: sorted,
        };
        proof {
            assert(tm_view(r).children =~= tm_seq_views(r.children@)) by {
                lemma_views_upto(r, r.children@.len() as int);
            }
        }
        Some(r)
    } else {
        if *remaining == 0 {
            return None;
        }
        *remaining = *remaining - 1;
        let r = TreemapNode {
            id: node.id,
            size: node.total_allocated,
            name: node.name.clone(),
            is_dir: node.is_dir,
            extension: clone_opt_string(&node.extension),
            children: Vec::new(),
        };
        proof {
            assert(tm_view(r).children =~= Seq::<TreemapView>::empty());
        }
        Some(r)
    }
}

proof fn lemma_views_upto(t: TreemapNode, k: int)
    requires
        0 <= k <= t.children@.len(),
    ensures
        tm_views_upto(t, k) == tm_seq_views(t.children@).take(k),
    decreases k,
{
    if k > 0 {
        lemma_views_upto(t, k - 1);
        assert(tm_seq_views(t.children@).take(k) =~= tm_seq_views(t.children@).take(k - 1).push(tm_view(t.children@[k - 1])));
    } else {
        assert(tm_seq_views(t.children@).take(0) =~= Seq::<TreemapView>::empty());
    }
}

/// The treemap entry of node `id` (see [`treemap_of`], nesting bounded by
/// the number of nodes); `remaining` is the budget of entries, which the
/// entries built use up.
pub fn build_treemap_node(id: u32, nodes: &Vec<NodeDto>, remaining: &mut u32) -> (r: Option<TreemapNode>)
    ensures
        (opt_tm_view(r), *final(remaining)) == treemap_of(dto_views(nodes@), id, *old(remaining), nodes@.len() as nat),
{
    treemap_at(id, nodes, remaining, nodes.len())
}

/// The sum of the allocated totals of the children of `parent` that exist,
/// modulo 2^64, and the children with an allocated total in order.
pub open spec fn sized_children(nodes: Seq<NodeView>, ch: Seq<u32>) -> Seq<u32> {
    ch.filter(|c: u32| (c as int) < nodes.len() && nodes[c as int].total_allocated > 0)
}

/// The children of `root_id` that get a treemap entry, in order, each with
/// its allocated total, and the sum of the allocated totals of all its
/// existing children (wrapping at 2^64); the budget of each child is worked
/// out from these in floating point by the caller.
pub fn treemap_candidates(nodes: &Vec<NodeDto>, root_id: u32) -> (r: Result<(Vec<(u32, u64)>, u64), QueryError>)
    ensures
        (root_id as int) < nodes@.len() <==> r is Ok,
        r is Err ==> r == Err::<(Vec<(u32, u64)>, u64), QueryError>(QueryError::RootNotFound),
        r matches Ok((cands, total)) ==> ({
            let nv = dto_views(nodes@);
            let ids = sized_children(nv, nv[root_id as int].children);
            &&& cands@.len() == ids.len()
            &&& forall|k: int| 0 <= k < ids.len() ==> (#[trigger] cands@[k]).0 == ids[k]
                    && cands@[k].1 == nv[ids[k] as int].total_allocated
            &&& total as int == children_allocated(nv, nv[root_id as int].children, nv[root_id as int].children.len() as int) % 0x1_0000_0000_0000_0000
        }),
{
    if root_id as usize >= nodes.len() {
        return Err(QueryError::RootNotFound);
    }
    let ghost nv = dto_views(nodes@);
    let ch = &nodes[root_id as usize].children;
    let ghost pred = |c: u32| (c as int) < nv.len() && nv[c as int].total_allocated > 0;
    let mut cands: Vec<(u32, u64)> = Vec::new();
    let ghost mut picked: Seq<u32> = seq![];
    let mut total: u64 = 0;
    let mut i: usize = 0;
    while i < ch.len()
        invariant
            i <= ch@.len(),
            nv == dto_views(nodes@),
            ch@ == nv[root_id as int].children,
            pred == (|c: u32| (c as int) < nv.len() && nv[c as int].total_allocated > 0),
            picked == ch@.take(i as int).filter(pred),
            cands@.len() == picked.len(),
            forall|k: int| 0 <= k < picked.len() ==> (#[trigger] cands@[k]).0 == picked[k]
                && cands@[k].1 == nv[picked[k] as int].total_allocated,
            total as int == children_allocated(nv, ch@, i as int) % 0x1_0000_0000_0000_0000,
        decreases ch@.len() - i,
    {
        proof {
            reveal_with_fuel(Seq::<_>::filter, 1);
            assert(ch@.take(i + 1).drop_last() =~= ch@.take(i as int));
        }
        let c = ch[i];
        if (c as usize) < nodes.len() {
            let a = nodes[c as usize].total_allocated;
            proof {
                vstd::arithmetic::div_mod::lemma_add_mod_noop_right(a as int, children_allocated(nv, ch@, i as int), 0x1_0000_0000_0000_0000);
                if total as int + a as int > u64::MAX {
                    assert((total + a) % 0x1_0000_0000_0000_0000int == total + a - 0x1_0000_0000_0000_0000int) by (nonlinear_arith)
                        requires 0x1_0000_0000_0000_0000int <= total + a < 2 * 0x1_0000_0000_0000_0000int;
                } else {
                    vstd::arithmetic::div_mod::lemma_small_mod((total + a) as nat, 0x1_0000_0000_0000_0000nat);
                }
            }
            total = total.wrapping_add(a);
            if a > 0 {
                cands.push((c, a));
                proof { picked = picked.push(c); }
            }
        }
        i += 1;
    }
    assert(ch@.take(i as int) =~= ch@);
    Ok((cands, total))
}

/// The sum of the allocated totals of the existing children among `ch[..k]`.
pub open spec fn children_allocated(nodes: Seq<NodeView>, ch: Seq<u32>, k: int) -> int
    decreases k,
{
    if k <= 0 {
        0
    } else {
        children_allocated(nodes, ch, k - 1)
            + if (ch[k - 1] as int) < nodes.len() { nodes[ch[k - 1] as int].total_allocated as int } else { 0 }
    }
}

/// The treemap of a directory's children from their entries, ordered by
/// size, largest first (ties in order).
pub fn order_treemap(items: Vec<TreemapNode>) -> (r: Vec<TreemapNode>)
    ensures
        tm_seq_views(r@) == by_size_desc(tm_seq_views(items@)),
{
    sort_entries_by_size(items)
}

/// Whether `t` is the treemap entry that [`treemap_of`] gives, for some
/// budget and depth, of a node that `ch` lists.
pub open spec fn entry_of_listed(nodes: Seq<NodeView>, ch: Seq<u32>, t: TreemapView) -> bool {
    exists|c: u32, b: u32, d: nat| ch.contains(c) && (#[trigger] treemap_of(nodes, c, b, d)).0 == Some(t)
}

/// Whether the treemap entry `t` describes node `id` of `nodes`: it carries
/// the node's id and name, and the node's allocated total (the space it takes
/// on disk, never 0) as its size; and each entry nested directly under it is
/// the entry of a child that the node lists.
pub open spec fn describes(nodes: Seq<NodeView>, id: u32, t: TreemapView) -> bool {
    &&& (id as int) < nodes.len()
    &&& t.id == nodes[id as int].id
    &&& t.name == nodes[id as int].name
    &&& t.size == nodes[id as int].total_allocated
    &&& t.size > 0
    &&& forall|k: int| 0 <= k < t.children.len() ==> #[trigger] entry_of_listed(nodes, nodes[id as int].children, t.children[k])
}

proof fn lemma_treemap_of(nodes: Seq<NodeView>, id: u32, budget: u32, depth: nat)
    ensures
        treemap_of(nodes, id, budget, depth).1 <= budget,
        treemap_of(nodes, id, budget, depth).0 is Some && budget > 0 ==> treemap_of(nodes, id, budget, depth).1 < budget,
        treemap_of(nodes, id, budget, depth).0 matches Some(t) ==> describes(nodes, id, t),
    decreases depth, 0int, 0int,
{
    if (id as int) < nodes.len() {
        let n = nodes[id as int];
        if n.total_allocated != 0 && n.is_dir && n.children.len() > 0 && depth > 0 {
            let (kids, left) = treemap_children(nodes, n.children, 0, budget, (depth - 1) as nat);
            lemma_treemap_children(nodes, n.children, 0, budget, (depth - 1) as nat);
            let t = treemap_of(nodes, id, budget, depth).0.unwrap();
            let keys = Seq::new(kids.len(), |j: int| (-(kids[j].size as int)) as i128);
            lemma_key_order(keys);
            let order = key_order(keys);
            assert(t.children == by_size_desc(kids));
            assert forall|k: int| 0 <= k < t.children.len() implies #[trigger] entry_of_listed(nodes, n.children, t.children[k]) by {
                let x = order[k] as int;
                assert(t.children[k] == kids[x]);
                assert(entry_of_listed(nodes, n.children, kids[x]));
            }
            assert(describes(nodes, id, t));
        }
    }
}

proof fn lemma_treemap_children(nodes: Seq<NodeView>, ch: Seq<u32>, i: int, budget: u32, depth: nat)
    ensures
        treemap_children(nodes, ch, i, budget, depth).1 <= budget,
        treemap_children(nodes, ch, i, budget, depth).0.len() + treemap_children(nodes, ch, i, budget, depth).1 <= budget,
        forall|k: int| 0 <= k < treemap_children(nodes, ch, i, budget, depth).0.len() ==>
            #[trigger] entry_of_listed(nodes, ch, treemap_children(nodes, ch, i, budget, depth).0[k]),
    decreases depth, 1int, ch.len() - i,
{
    if !(i < 0 || i >= ch.len() || budget == 0) {
        let (c, left) = treemap_of(nodes, ch[i], budget, depth);
        let (rest, left2) = treemap_children(nodes, ch, i + 1, left, depth);
        lemma_treemap_of(nodes, ch[i], budget, depth);
        lemma_treemap_children(nodes, ch, i + 1, left, depth);
        let kids = treemap_children(nodes, ch, i, budget, depth).0;
        assert forall|k: int| 0 <= k < kids.len() implies #[trigger] entry_of_listed(nodes, ch, kids[k]) by {
            if c is Some && k == 0 {
                let v = c.unwrap();
                assert(kids == seq![v] + rest);
                assert(kids[k] == v);
                assert(ch.contains(ch[i]));
                assert(treemap_of(nodes, ch[i], budget, depth).0 == Some(kids[k]));
            } else {
                let j = if c is Some { k - 1 } else { k };
                assert(kids[k] == rest[j]);
                assert(entry_of_listed(nodes, ch, rest[j]));
            }
        }
    }
}

/// Law: every treemap entry built for a node describes that node: it carries
/// the node's id and name and the node's allocated total (space on disk) as
/// its size; each entry nested directly under it is the entry built for a
/// child that the node lists, which this law covers in turn.
pub proof fn law_treemap_describes_nodes(nodes: Seq<NodeView>, id: u32, budget: u32, depth: nat)
    ensures
        treemap_of(nodes, id, budget, depth).0 matches Some(t) ==> describes(nodes, id, t),
{
    lemma_treemap_of(nodes, id, budget, depth);
}

} // verus!
