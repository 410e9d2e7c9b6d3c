//! Queries answered over a finished scan: paths, listings, searches and
//! statistics.
use vstd::prelude::*;
use crate::models::{ChildNode, DirInfo, FileInfo, NodeDto, SearchResult};
use crate::order::{key_order, key_order_exec, lemma_key_order};
use crate::tree::clone_opt_string;
use crate::text::{chars_of, lower, lower_chars, string_from_chars};
use crate::tree::{NodeView, dto_views, opt_string_view};

verus! {

/// Why a query could not be answered.
#[derive(Debug, Clone, Copy, PartialEq, Eq, Structural)]
pub enum QueryError {
    /// No scan has finished yet.
    NotScanned,
    /// The node asked for does not exist.
    NodeNotFound,
    /// The treemap root asked for does not exist.
    RootNotFound,
}

// ---------------------------------------------------------------------------
// Ancestor chains and paths

/// The ids from `cur` up through its ancestors, following parents while they
/// name existing nodes, if that ends within `fuel` nodes.
pub open spec fn chain(nodes: Seq<NodeView>, cur: Option<u32>, fuel: nat) -> Option<Seq<u32>>
    decreases fuel,
{
    match cur {
        None => Some(seq![]),
        Some(id) => if id as int >= nodes.len() {
            Some(seq![])
        } else if fuel == 0 {
            None
        } else {
            match chain(nodes, nodes[id as int].parent, (fuel - 1) as nat) {
                Some(rest) => Some(seq![id].add(rest)),
                None => None,
            }
        },
    }
}

/// Whether following parents from `id` ends (it always does within `n + 1`
/// steps when it ends at all, since every step visits another existing node).
pub open spec fn chain_ends(nodes: Seq<NodeView>, id: u32) -> bool {
    chain(nodes, Some(id), (nodes.len() + 1) as nat) is Some
}

/// Whether following parents ends from every node.
pub open spec fn parents_acyclic(nodes: Seq<NodeView>) -> bool {
    forall|id: u32| #[trigger] chain_ends(nodes, id)
}

/// The ancestor chain of `id`, starting at `id` itself.
pub open spec fn ancestors(nodes: Seq<NodeView>, id: u32) -> Seq<u32> {
    chain(nodes, Some(id), (nodes.len() + 1) as nat).unwrap()
}

/// Whether a path text ends with a separator.
pub open spec fn ends_with_separator(p: Seq<char>) -> bool {
    p.len() > 0 && (p.last() == '\\' || p.last() == '/')
}

/// Appends `part` to `p`, with a `\` between unless `p` already ends with a separator.
pub open spec fn path_push(p: Seq<char>, part: Seq<char>) -> Seq<char> {
    if ends_with_separator(p) { p + part } else { p + seq!['\\'] + part }
}

/// Joins path parts: the first as it is, each further one with [`path_push`].
pub open spec fn join_parts(parts: Seq<Seq<char>>) -> Seq<char>
    decreases parts.len(),
{
    if parts.len() == 0 {
        seq![]
    } else if parts.len() == 1 {
        parts[0]
    } else {
        path_push(join_parts(parts.drop_last()), parts.last())
    }
}

/// The names along the chain of `id`, from the topmost ancestor down.
pub open spec fn path_parts(nodes: Seq<NodeView>, id: u32) -> Seq<Seq<char>> {
    ancestors(nodes, id).reverse().map_values(|x: u32| nodes[x as int].name)
}

/// The full path of node `id`: the names of its ancestors joined by `\`; the
/// scan root's text when `id` names no node.
pub open spec fn spec_build_path(nodes: Seq<NodeView>, id: u32, root: Seq<char>) -> Seq<char> {
    let parts = path_parts(nodes, id);
    if parts.len() == 0 { root } else { join_parts(parts) }
}

proof fn lemma_chain_valid(nodes: Seq<NodeView>, cur: Option<u32>, fuel: nat)
    requires chain(nodes, cur, fuel) is Some,
    ensures forall|k: int| 0 <= k < chain(nodes, cur, fuel).unwrap().len()
        ==> (#[trigger] chain(nodes, cur, fuel).unwrap()[k] as int) < nodes.len(),
    decreases fuel,
{
    match cur {
        None => {},
        Some(id) => {
            if (id as int) < nodes.len() && fuel > 0 {
                lemma_chain_valid(nodes, nodes[id as int].parent, (fuel - 1) as nat);
                let rest = chain(nodes, nodes[id as int].parent, (fuel - 1) as nat).unwrap();
                assert forall|k: int| 0 <= k < (seq![id] + rest).len() implies ((seq![id] + rest)[k] as int) < nodes.len() by {
                    if k > 0 { assert((seq![id] + rest)[k] == rest[k - 1]); }
                }
            }
        },
    }
}

/// The ids from `node_id` up through its ancestors.
pub fn ancestor_ids(node_id: u32, nodes: &Vec<NodeDto>) -> (ids: Vec<u32>)
    requires
        chain_ends(dto_views(nodes@), node_id),
    ensures
        ids@ == ancestors(dto_views(nodes@), node_id),
        forall|k: int| 0 <= k < ids@.len() ==> (#[trigger] ids@[k] as int) < nodes@.len(),
{
    let ghost nv = dto_views(nodes@);
    let ghost top = (nodes@.len() + 1) as nat;
    let mut ids: Vec<u32> = Vec::new();
    let mut current: Option<u32> = Some(node_id);
    let ghost mut fuel: nat = top;
    proof { lemma_chain_valid(nv, Some(node_id), top); }
    loop
        invariant
            nv == dto_views(nodes@),
            chain(nv, current, fuel) is Some,
            chain(nv, Some(node_id), top) == Some(ids@ + chain(nv, current, fuel).unwrap()),
        ensures
            chain(nv, current, fuel).unwrap() == Seq::<u32>::empty(),
            chain(nv, Some(node_id), top) == Some(ids@ + chain(nv, current, fuel).unwrap()),
        decreases fuel,
    {
        match current {
            None => break,
            Some(id) => {
                if id as usize >= nodes.len() {
                    break;
                }
                let ghost rest = chain(nv, nodes@[id as int]@.parent, (fuel - 1) as nat).unwrap();
                assert(ids@ + (seq![id] + rest) =~= ids@.push(id) + rest);
                ids.push(id);
                current = nodes[id as usize].parent;
                proof { fuel = (fuel - 1) as nat; }
            },
        }
    }
    assert(ids@ + chain(nv, current, fuel).unwrap() =~= ids@);
    proof { lemma_chain_valid(nv, Some(node_id), top); }
    ids
}

proof fn lemma_chain_precede(nodes: Seq<NodeView>, id: u32, fuel: nat)
    requires
        forall|i: int| 0 <= i < nodes.len() ==> ((#[trigger] nodes[i]).parent matches Some(p) ==> (p as int) < i),
        fuel >= id + 1,
    ensures
        chain(nodes, Some(id), fuel) is Some,
    decreases id,
{
    if (id as int) < nodes.len() {
        match nodes[id as int].parent {
            Some(p) => {
                assert(nodes[id as int].parent matches Some(q) ==> (q as int) < id);
                lemma_chain_precede(nodes, p, (fuel - 1) as nat);
            },
            None => {
                assert(chain(nodes, None, (fuel - 1) as nat) == Some(Seq::<u32>::empty()));
            },
        }
    }
}

/// Following parents ends from every node of a tree in which every node's
/// parent comes before it.
pub proof fn law_parents_precede_acyclic(nodes: Seq<NodeView>)
    requires
        forall|i: int| 0 <= i < nodes.len() ==> ((#[trigger] nodes[i]).parent matches Some(p) ==> (p as int) < i),
    ensures
        parents_acyclic(nodes),
{
    assert forall|id: u32| #[trigger] chain_ends(nodes, id) by {
        if (id as int) < nodes.len() {
            lemma_chain_precede(nodes, id, (nodes.len() + 1) as nat);
        }
    }
}

/// Whether following parents from `node_id` ends.
pub fn parents_end(nodes: &Vec<NodeDto>, node_id: u32) -> (r: bool)
    ensures
        r == chain_ends(dto_views(nodes@), node_id),
{
    let ghost nv = dto_views(nodes@);
    let ghost top = (nodes@.len() + 1) as nat;
    let mut current: Option<u32> = Some(node_id);
    let mut fuel: u128 = nodes.len() as u128 + 1;
    assert(nv.len() == nodes@.len());
    loop
        invariant
            nv == dto_views(nodes@),
            nv.len() == nodes@.len(),
            top == (nv.len() + 1) as nat,
            (chain(nv, Some(node_id), top) is Some) == (chain(nv, current, fuel as nat) is Some),
        decreases fuel,
    {
        match current {
            None => return true,
            Some(id) => {
                if id as usize >= nodes.len() {
                    return true;
                }
                if fuel == 0 {
                    return false;
                }
                current = nodes[id as usize].parent;
                fuel = fuel - 1;
            },
        }
    }
}

/// Whether following parents ends from every node.
pub fn parents_all_end(nodes: &Vec<NodeDto>) -> (r: bool)
    ensures
        r == parents_acyclic(dto_views(nodes@)),
{
    let ghost nv = dto_views(nodes@);
    let mut id: u64 = 0;
    while id < nodes.len() as u64 && id <= u32::MAX as u64
        invariant
            nv == dto_views(nodes@),
            forall|j: u32| (j as int) < id ==> #[trigger] chain_ends(nv, j),
        decreases u32::MAX as u64 + 1 - id,
    {
        if !parents_end(nodes, id as u32) {
            assert(!chain_ends(nv, id as u32));
            return false;
        }
        id += 1;
    }
    assert forall|j: u32| #[trigger] chain_ends(nv, j) by {
        if (j as int) >= nv.len() {
            assert(chain(nv, Some(j), (nv.len() + 1) as nat) == Some(Seq::<u32>::empty()));
        }
    }
    true
}

fn push_chars(p: &mut Vec<char>, part: &Vec<char>)
    ensures
        final(p)@ == old(p)@ + part@,
{
    let mut i: usize = 0;
    let ghost start = p@;
    while i < part.len()
        invariant
            i <= part@.len(),
            p@ == start + part@.take(i as int),
        decreases part@.len() - i,
    {
        p.push(part[i]);
        i += 1;
        assert(p@ =~= start + part@.take(i as int));
    }
    assert(part@.take(i as int) =~= part@);
}

/// The full path of node `node_id` (see [`spec_build_path`]).
pub fn build_path(node_id: u32, nodes: &Vec<NodeDto>, root_str: &str) -> (path: String)
    requires
        chain_ends(dto_views(nodes@), node_id),
    ensures
        path@ == spec_build_path(dto_views(nodes@), node_id, root_str@),
{
    let ghost nv = dto_views(nodes@);
    let ids = ancestor_ids(node_id, nodes);
    let ghost parts = path_parts(nv, node_id);
    assert(parts.len() == ids@.len());
    if ids.len() == 0 {
        return root_str.to_owned();
    }
    let mut path: Vec<char> = Vec::new();
    let mut k: usize = 0;
    while k < ids.len()
        invariant
            k <= ids@.len(),
            ids@.len() > 0,
            nv == dto_views(nodes@),
            ids@ == ancestors(nv, node_id),
            parts == path_parts(nv, node_id),
            forall|x: int| 0 <= x < ids@.len() ==> (#[trigger] ids@[x] as int) < nodes@.len(),
            path@ == join_parts(parts.take(k as int)),
        decreases ids@.len() - k,
    {
        let id = ids[ids.len() - 1 - k];
        let part = chars_of(nodes[id as usize].name.as_str());
        assert(part@ == parts[k as int]);
        assert(parts.take(k + 1).drop_last() =~= parts.take(k as int));
        if k == 0 {
            push_chars(&mut path, &part);
            assert(path@ =~= join_parts(parts.take(1)));
        } else {
            let n = path.len();
            if n == 0 || !(path[n - 1] == '\\' || path[n - 1] == '/') {
                path.push('\\');
            }
            push_chars(&mut path, &part);
        }
        k += 1;
    }
    assert(parts.take(k as int) =~= parts);
    string_from_chars(&path)
}


// ---------------------------------------------------------------------------
// Listing nodes

/// Whether `c` lists the node `n`.
pub open spec fn is_child_node_of(c: ChildNode, n: NodeView) -> bool {
    &&& c.id == n.id
    &&& c.parent == n.parent
    &&& c.name@ == n.name
    &&& c.is_dir == n.is_dir
    &&& c.size == n.size
    &&& c.allocated == n.allocated
    &&& c.total_size == n.total_size
    &&& c.total_allocated == n.total_allocated
    &&& c.child_count == n.children.len() as u32
    &&& c.file_count == n.file_count
    &&& c.dir_count == n.dir_count
    &&& opt_string_view(c.extension) == n.extension
    &&& c.created == n.created
    &&& c.modified == n.modified
    &&& c.accessed == n.accessed
}

/// The listing entry of a node.
pub fn to_child_node(node: &NodeDto) -> (c: ChildNode)
    ensures
        is_child_node_of(c, node@),
{
    ChildNode {
        id: node.id,
        parent: node.parent,
        name: node.name.clone(),
        is_dir: node.is_dir,
        size: node.size,
        allocated: node.allocated,
        total_size: node.total_size,
        total_allocated: node.total_allocated,
        child_count: node.children.len() as u32,
        file_count: node.file_count,
        dir_count: node.dir_count,
        extension: clone_opt_string(&node.extension),
        created: node.created,
        modified: node.modified,
        accessed: node.accessed,
    }
}

/// The child ids of a node that name existing nodes, in order.
pub open spec fn listed_children(nodes: Seq<NodeView>, ch: Seq<u32>) -> Seq<u32> {
    ch.filter(|c: u32| (c as int) < nodes.len())
}

/// Lists the children of node `parent_id`; fails when it does not exist.
pub fn browse_directory(nodes: &Vec<NodeDto>, parent_id: u32) -> (r: Result<Vec<ChildNode>, QueryError>)
    ensures
        (parent_id as int) < nodes@.len() <==> r is Ok,
        r is Err ==> r == Err::<Vec<ChildNode>, QueryError>(QueryError::NodeNotFound),
        r matches Ok(list) ==> ({
            let ids = listed_children(dto_views(nodes@), nodes@[parent_id as int].children@);
            &&& list@.len() == ids.len()
            &&& forall|k: int| 0 <= k < ids.len() ==> is_child_node_of(#[trigger] list@[k], nodes@[ids[k] as int]@)
        }),
{
    if parent_id as usize >= nodes.len() {
        return Err(QueryError::NodeNotFound);
    }
    let ghost nv = dto_views(nodes@);
    let ghost pred = |c: u32| (c as int) < nv.len();
    let children = &nodes[parent_id as usize].children;
    let ghost ids = listed_children(nv, children@);
    let mut list: Vec<ChildNode> = Vec::new();
    let ghost mut picked: Seq<u32> = seq![];
    let mut i: usize = 0;
    while i < children.len()
        invariant
            i <= children@.len(),
            nv == dto_views(nodes@),
            pred == (|c: u32| (c as int) < nv.len()),
            picked == children@.take(i as int).filter(pred),
            list@.len() == picked.len(),
            forall|k: int| 0 <= k < picked.len() ==> is_child_node_of(#[trigger] list@[k], nodes@[picked[k] as int]@),
        decreases children@.len() - i,
    {
        proof {
            reveal_with_fuel(Seq::<_>::filter, 1);
            assert(children@.take(i + 1).drop_last() =~= children@.take(i as int));
        }
        let cid = children[i];
        if (cid as usize) < nodes.len() {
            let c = to_child_node(&nodes[cid as usize]);
            list.push(c);
            proof { picked = picked.push(cid); }
        }
        i += 1;
    }
    assert(children@.take(i as int) =~= children@);
    Ok(list)
}

/// The node `node_id` and its ancestors, from the topmost ancestor down.
pub fn get_node_details(nodes: &Vec<NodeDto>, node_id: u32) -> (r: Vec<ChildNode>)
    requires
        chain_ends(dto_views(nodes@), node_id),
    ensures
        r@.len() == ancestors(dto_views(nodes@), node_id).len(),
        forall|k: int| 0 <= k < r@.len() ==> is_child_node_of(#[trigger] r@[k],
            nodes@[ancestors(dto_views(nodes@), node_id).reverse()[k] as int]@),
{
    let ids = ancestor_ids(node_id, nodes);
    let ghost rev = ids@.reverse();
    let mut r: Vec<ChildNode> = Vec::new();
    let mut k: usize = 0;
    while k < ids.len()
        invariant
            k <= ids@.len(),
            rev == ids@.reverse(),
            forall|x: int| 0 <= x < ids@.len() ==> (#[trigger] ids@[x] as int) < nodes@.len(),
            r@.len() == k,
            forall|x: int| 0 <= x < k ==> is_child_node_of(#[trigger] r@[x], nodes@[rev[x] as int]@),
        decreases ids@.len() - k,
    {
        let id = ids[ids.len() - 1 - k];
        r.push(to_child_node(&nodes[id as usize]));
        k += 1;
    }
    r
}

// ---------------------------------------------------------------------------
// Text matching

/// Whether `needle` occurs in `hay`.
pub open spec fn contains_seq(hay: Seq<char>, needle: Seq<char>) -> bool {
    exists|i: int| 0 <= i && i + needle.len() <= hay.len() && #[trigger] hay.subrange(i, i + needle.len()) == needle
}

fn matches_at(hay: &Vec<char>, needle: &Vec<char>, i: usize) -> (r: bool)
    requires
        i + needle@.len() <= hay.len(),
    ensures
        r == (hay@.subrange(i as int, i + needle@.len()) == needle@),
{
    let mut k: usize = 0;
    while k < needle.len()
        invariant
            k <= needle@.len(),
            i + needle@.len() <= hay.len(),
            forall|j: int| 0 <= j < k ==> hay@[i + j] == needle@[j],
        decreases needle@.len() - k,
    {
        if hay[i + k] != needle[k] {
            assert(hay@.subrange(i as int, i + needle@.len())[k as int] != needle@[k as int]);
            return false;
        }
        k += 1;
    }
    assert(hay@.subrange(i as int, i + needle@.len()) =~= needle@);
    true
}

/// Whether `needle` occurs in `hay`.
pub fn contains_chars(hay: &Vec<char>, needle: &Vec<char>) -> (r: bool)
    ensures
        r == contains_seq(hay@, needle@),
{
    if needle.len() > hay.len() {
        return false;
    }
    let last = hay.len() - needle.len();
    let mut i: usize = 0;
    while i <= last
        invariant
            last == hay@.len() - needle@.len(),
            i <= last + 1,
            forall|j: int| 0 <= j < i ==> #[trigger] hay@.subrange(j, j + needle@.len()) != needle@,
        decreases last + 1 - i,
    {
        if matches_at(hay, needle, i) {
            return true;
        }
        if i == last {
            return false;
        }
        i += 1;
    }
    false
}

/// A name with its leading dots removed.
pub open spec fn trim_leading_dots(s: Seq<char>) -> Seq<char>
    decreases s.len(),
{
    if s.len() > 0 && s[0] == '.' { trim_leading_dots(s.drop_first()) } else { s }
}

/// Normalises an extension filter: leading dots removed, ASCII lowercase.
pub fn normalize_extension_filter(ext: &str) -> (r: String)
    ensures
        r@ == lower(trim_leading_dots(ext@)),
{
    let cs = chars_of(ext);
    let mut start: usize = 0;
    assert(cs@.skip(0) =~= cs@);
    while start < cs.len() && cs[start] == '.'
        invariant
            start <= cs@.len(),
            cs@ == ext@,
            trim_leading_dots(ext@) == trim_leading_dots(cs@.skip(start as int)),
        decreases cs@.len() - start,
    {
        assert(cs@.skip(start as int).drop_first() =~= cs@.skip(start + 1));
        start += 1;
    }
    let ghost rest = cs@.skip(start as int);
    assert(trim_leading_dots(rest) == rest);
    let mut out: Vec<char> = Vec::new();
    let mut i: usize = start;
    while i < cs.len()
        invariant
            start <= i <= cs@.len(),
            rest == cs@.skip(start as int),
            out@ == lower(rest.take(i - start)),
        decreases cs@.len() - i,
    {
        out.push(crate::text::lower_char_exec(cs[i]));
        i += 1;
        assert(out@ =~= lower(rest.take(i - start)));
    }
    assert(rest.take(i - start) =~= rest);
    string_from_chars(&out)
}


// ---------------------------------------------------------------------------
// Selections ordered by a key

/// The indices `from..k` of the nodes that satisfy `p`, in order.
pub open spec fn select(nodes: Seq<NodeView>, p: spec_fn(NodeView) -> bool, from: int, k: int) -> Seq<int>
    decreases k - from,
{
    if k <= from {
        seq![]
    } else {
        let r = select(nodes, p, from, k - 1);
        if p(nodes[k - 1]) { r.push(k - 1) } else { r }
    }
}

proof fn lemma_select_prefix(nodes: Seq<NodeView>, p: spec_fn(NodeView) -> bool, from: int, k: int, k2: int)
    requires from <= k <= k2,
    ensures
        select(nodes, p, from, k).len() <= select(nodes, p, from, k2).len(),
        select(nodes, p, from, k2).take(select(nodes, p, from, k).len() as int) == select(nodes, p, from, k),
    decreases k2 - k,
{
    if k < k2 {
        lemma_select_prefix(nodes, p, from, k, k2 - 1);
        let a = select(nodes, p, from, k);
        let b = select(nodes, p, from, k2 - 1);
        if p(nodes[k2 - 1]) {
            assert(b.push(k2 - 1).take(a.len() as int) =~= b.take(a.len() as int));
        }
    } else {
        assert(select(nodes, p, from, k).take(select(nodes, p, from, k).len() as int) =~= select(nodes, p, from, k));
    }
}

proof fn lemma_select_range(nodes: Seq<NodeView>, p: spec_fn(NodeView) -> bool, from: int, k: int)
    requires 0 <= from,
    ensures
        forall|j: int| 0 <= j < select(nodes, p, from, k).len() ==>
            from <= #[trigger] select(nodes, p, from, k)[j] < k && p(nodes[select(nodes, p, from, k)[j]]),
    decreases k - from,
{
    if k > from {
        lemma_select_range(nodes, p, from, k - 1);
        let r = select(nodes, p, from, k - 1);
        let s2 = select(nodes, p, from, k);
        assert forall|j: int| 0 <= j < s2.len() implies from <= #[trigger] s2[j] < k && p(nodes[s2[j]]) by {
            if j < r.len() { assert(s2[j] == r[j]); }
        }
    }
}

/// Sort keys that put larger values of `key` first.
pub open spec fn desc_keys(nodes: Seq<NodeView>, c: Seq<int>, key: spec_fn(NodeView) -> int) -> Seq<i128> {
    Seq::new(c.len(), |j: int| (-key(nodes[c[j]])) as i128)
}

/// Sort keys that put smaller values of `key` first.
pub open spec fn asc_keys(nodes: Seq<NodeView>, c: Seq<int>, key: spec_fn(NodeView) -> int) -> Seq<i128> {
    Seq::new(c.len(), |j: int| key(nodes[c[j]]) as i128)
}

/// The selected indices `c` in the order of the sort keys `keys`; ties keep their order.
pub open spec fn order_by(c: Seq<int>, keys: Seq<i128>) -> Seq<int> {
    key_order(keys).map_values(|j: usize| c[j as int])
}

/// The selected indices `c` ordered by `key`, largest first; ties keep their order.
pub open spec fn order_desc(nodes: Seq<NodeView>, c: Seq<int>, key: spec_fn(NodeView) -> int) -> Seq<int> {
    order_by(c, desc_keys(nodes, c, key))
}

/// The selected indices `c` ordered by `key`, smallest first; ties keep their order.
pub open spec fn order_asc(nodes: Seq<NodeView>, c: Seq<int>, key: spec_fn(NodeView) -> int) -> Seq<int> {
    order_by(c, asc_keys(nodes, c, key))
}

/// A node's allocated total.
pub open spec fn by_allocated() -> spec_fn(NodeView) -> int {
    |n: NodeView| n.total_allocated as int
}

/// A node's own size.
pub open spec fn by_size() -> spec_fn(NodeView) -> int {
    |n: NodeView| n.size as int
}

/// The first `n` entries of `s`, or all of `s` where it has fewer.
pub open spec fn at_most(s: Seq<int>, n: int) -> Seq<int> {
    if s.len() <= n { s } else { s.take(n) }
}

pub open spec fn as_ints(v: Seq<usize>) -> Seq<int> {
    v.map_values(|x: usize| x as int)
}

/// Reorders the selected indices by the matching keys.
fn reorder(cands: &Vec<usize>, keys: &Vec<i128>) -> (r: Vec<usize>)
    requires
        cands@.len() == keys@.len(),
    ensures
        as_ints(r@) == order_by(as_ints(cands@), keys@),
        forall|k: int| 0 <= k < r@.len() ==> cands@.contains(#[trigger] r@[k]),
{
    let order = key_order_exec(keys);
    let mut r: Vec<usize> = Vec::new();
    let mut k: usize = 0;
    while k < order.len()
        invariant
            k <= order@.len(),
            order@ == key_order(keys@),
            order@.len() == cands@.len(),
            forall|x: int| 0 <= x < order@.len() ==> (#[trigger] order@[x] as int) < cands@.len(),
            r@.len() == k,
            forall|x: int| 0 <= x < k ==> (#[trigger] r@[x]) == cands@[order@[x] as int],
        decreases order@.len() - k,
    {
        r.push(cands[order[k]]);
        k += 1;
    }
    proof {
        assert(as_ints(r@) =~= order_by(as_ints(cands@), keys@));
        assert forall|k: int| 0 <= k < r@.len() implies cands@.contains(#[trigger] r@[k]) by {
            assert(cands@[order@[k] as int] == r@[k]);
        }
    }
    r
}

/// The path shown for a search hit: the scan root for node 0, else its full path.
pub open spec fn node_path(nodes: Seq<NodeView>, n: NodeView, root: Seq<char>) -> Seq<char> {
    if n.id == 0 { root } else { spec_build_path(nodes, n.id, root) }
}

/// Whether `r` reports the node `n` found at `path`.
pub open spec fn is_search_result_of(r: SearchResult, n: NodeView, path: Seq<char>) -> bool {
    &&& r.id == n.id
    &&& r.name@ == n.name
    &&& r.path@ == path
    &&& r.is_dir == n.is_dir
    &&& r.size == n.size
    &&& r.allocated == n.allocated
    &&& r.total_size == n.total_size
    &&& r.total_allocated == n.total_allocated
    &&& opt_string_view(r.extension) == n.extension
    &&& r.created == n.created
    &&& r.modified == n.modified
    &&& r.accessed == n.accessed
}

/// Whether `f` reports the file `n` at `path`.
pub open spec fn is_file_info_of(f: FileInfo, n: NodeView, path: Seq<char>) -> bool {
    &&& f.id == n.id
    &&& f.name@ == n.name
    &&& f.path@ == path
    &&& f.size == n.size
    &&& f.allocated == n.allocated
    &&& opt_string_view(f.extension) == n.extension
    &&& f.created == n.created
    &&& f.modified == n.modified
    &&& f.accessed == n.accessed
}

/// Whether `d` reports the directory `n` at `path` with `child_count` listed children.
pub open spec fn is_dir_info_of(d: DirInfo, n: NodeView, path: Seq<char>, child_count: u32) -> bool {
    &&& d.id == n.id
    &&& d.name@ == n.name
    &&& d.path@ == path
    &&& d.total_size == n.total_size
    &&& d.total_allocated == n.total_allocated
    &&& d.file_count == n.file_count
    &&& d.dir_count == n.dir_count
    &&& d.child_count == child_count
}

fn search_result(node: &NodeDto, path: String) -> (r: SearchResult)
    ensures
        is_search_result_of(r, node@, path@),
{
    SearchResult {
        id: node.id,
        name: node.name.clone(),
        path,
        is_dir: node.is_dir,
        size: node.size,
        allocated: node.allocated,
        total_size: node.total_size,
        total_allocated: node.total_allocated,
        extension: clone_opt_string(&node.extension),
        created: node.created,
        modified: node.modified,
        accessed: node.accessed,
    }
}

fn file_info(node: &NodeDto, path: String) -> (r: FileInfo)
    ensures
        is_file_info_of(r, node@, path@),
{
    FileInfo {
        id: node.id,
        name: node.name.clone(),
        path,
        size: node.size,
        allocated: node.allocated,
        extension: clone_opt_string(&node.extension),
        created: node.created,
        modified: node.modified,
        accessed: node.accessed,
    }
}

fn dir_info(node: &NodeDto, path: String, child_count: u32) -> (r: DirInfo)
    ensures
        is_dir_info_of(r, node@, path@, child_count),
{
    DirInfo {
        id: node.id,
        name: node.name.clone(),
        path,
        total_size: node.total_size,
        total_allocated: node.total_allocated,
        file_count: node.file_count,
        dir_count: node.dir_count,
        child_count,
    }
}

/// Whether an extension filter admits a node's extension: no filter admits
/// all, a filter admits exactly that extension.
pub open spec fn extension_admits(filter: Option<Seq<char>>, ext: Option<Seq<char>>) -> bool {
    match filter { Some(e) => ext == Some(e), None => true }
}

fn extension_admits_exec(filter: &Option<String>, ext: &Option<String>) -> (r: bool)
    ensures
        r == extension_admits(opt_string_view(*filter), opt_string_view(*ext)),
{
    match filter {
        None => true,
        Some(f) => match ext {
            Some(e) => *e == *f,
            None => false,
        },
    }
}

/// Sort keys that put larger allocated totals first, for the nodes `cands`.
fn allocated_desc_keys(nodes: &Vec<NodeDto>, cands: &Vec<usize>) -> (keys: Vec<i128>)
    requires
        forall|j: int| 0 <= j < cands@.len() ==> (#[trigger] cands@[j] as int) < nodes@.len(),
    ensures
        keys@ == desc_keys(dto_views(nodes@), as_ints(cands@), by_allocated()),
{
    let ghost c = as_ints(cands@);
    let mut keys: Vec<i128> = Vec::new();
    let mut k: usize = 0;
    while k < cands.len()
        invariant
            k <= cands@.len(),
            c == as_ints(cands@),
            forall|j: int| 0 <= j < cands@.len() ==> (#[trigger] cands@[j] as int) < nodes@.len(),
            keys@ == desc_keys(dto_views(nodes@), c, by_allocated()).take(k as int),
        decreases cands@.len() - k,
    {
        keys.push(-(nodes[cands[k]].total_allocated as i128));
        k += 1;
        assert(keys@ =~= desc_keys(dto_views(nodes@), c, by_allocated()).take(k as int));
    }
    assert(keys@ =~= desc_keys(dto_views(nodes@), c, by_allocated()));
    keys
}

/// Sort keys that put larger sizes first, for the nodes `cands`.
fn size_desc_keys(nodes: &Vec<NodeDto>, cands: &Vec<usize>) -> (keys: Vec<i128>)
    requires
        forall|j: int| 0 <= j < cands@.len() ==> (#[trigger] cands@[j] as int) < nodes@.len(),
    ensures
        keys@ == desc_keys(dto_views(nodes@), as_ints(cands@), by_size()),
{
    let ghost c = as_ints(cands@);
    let mut keys: Vec<i128> = Vec::new();
    let mut k: usize = 0;
    while k < cands.len()
        invariant
            k <= cands@.len(),
            c == as_ints(cands@),
            forall|j: int| 0 <= j < cands@.len() ==> (#[trigger] cands@[j] as int) < nodes@.len(),
            keys@ == desc_keys(dto_views(nodes@), c, by_size()).take(k as int),
        decreases cands@.len() - k,
    {
        keys.push(-(nodes[cands[k]].size as i128));
        k += 1;
        assert(keys@ =~= desc_keys(dto_views(nodes@), c, by_size()).take(k as int));
    }
    assert(keys@ =~= desc_keys(dto_views(nodes@), c, by_size()));
    keys
}

// ---------------------------------------------------------------------------
// Name search

/// The filters of a name search; `extension` is taken as typed (see
/// [`normalize_extension_filter`]) and `older_than_secs` is the Unix time
/// before which a match must have been modified.
pub struct SearchFilter {
    pub query: String,
    pub max_results: usize,
    pub min_size: Option<u64>,
    pub max_size: Option<u64>,
    pub extension: Option<String>,
    pub is_dir: Option<bool>,
    pub older_than_secs: Option<i64>,
}

/// Whether node `n` matches a search for the lowercase text `q` under `f`,
/// whose extension filter is `ext` once normalised.
pub open spec fn search_match(f: SearchFilter, q: Seq<char>, ext: Option<Seq<char>>) -> spec_fn(NodeView) -> bool {
    |n: NodeView| {
        &&& contains_seq(lower(n.name), q)
        &&& (f.is_dir matches Some(d) ==> n.is_dir == d)
        &&& extension_admits(ext, n.extension)
        &&& (f.min_size matches Some(mn) ==> n.size >= mn)
        &&& (f.max_size matches Some(mx) ==> n.size <= mx)
        &&& (f.older_than_secs matches Some(t) ==> (n.modified matches Some(m) && m < t))
    }
}

/// The nodes found by a filtered search, in result order: the first
/// `max_results` matches after the root, ordered by allocated total, largest
/// first (ties in node order).
pub open spec fn spec_search(nodes: Seq<NodeView>, f: SearchFilter) -> Seq<int> {
    if f.query@.len() == 0 || nodes.len() == 0 {
        seq![]
    } else {
        let p = search_match(f, lower(f.query@), norm_ext(opt_string_view(f.extension)));
        let c = at_most(select(nodes, p, 1, nodes.len() as int), f.max_results as int);
        order_desc(nodes, c, by_allocated())
    }
}

/// The first `max` indices `from..` of the nodes on which `pred` holds, in order.
fn select_first_where<F: Fn(&NodeDto) -> bool>(
    nodes: &Vec<NodeDto>,
    from: usize,
    max: usize,
    pred: F,
    Ghost(p): Ghost<spec_fn(NodeView) -> bool>,
) -> (r: Vec<usize>)
    requires
        0 < from <= nodes@.len(),
        forall|n: &NodeDto| #[trigger] pred.requires((n,)),
        forall|n: &NodeDto, b: bool| pred.ensures((n,), b) ==> b == p(n@),
    ensures
        as_ints(r@) == at_most(select(dto_views(nodes@), p, from as int, nodes@.len() as int), max as int),
        forall|k: int| 0 <= k < r@.len() ==> (#[trigger] r@[k] as int) < nodes@.len(),
{
    let ghost nv = dto_views(nodes@);
    let ghost all = select(nv, p, from as int, nodes@.len() as int);
    let mut cands: Vec<usize> = Vec::new();
    let mut i: usize = from;
    while i < nodes.len() && cands.len() < max
        invariant
            from <= i <= nodes@.len(),
            nv == dto_views(nodes@),
            forall|n: &NodeDto| #[trigger] pred.requires((n,)),
            forall|n: &NodeDto, b: bool| pred.ensures((n,), b) ==> b == p(n@),
            cands@.len() <= max,
            as_ints(cands@) == select(nv, p, from as int, i as int),
        decreases nodes@.len() - i,
    {
        let ghost before = cands@;
        if pred(&nodes[i]) {
            cands.push(i);
            assert(as_ints(cands@) =~= as_ints(before).push(i as int));
        }
        i += 1;
    }
    proof {
        lemma_select_prefix(nv, p, from as int, i as int, nodes@.len() as int);
        lemma_select_range(nv, p, from as int, nodes@.len() as int);
        assert(as_ints(cands@).len() == cands@.len());
        if i == nodes@.len() {
            assert(all == as_ints(cands@));
        } else {
            assert(cands@.len() == max);
        }
        assert(as_ints(cands@) =~= at_most(all, max as int));
        assert forall|j: int| 0 <= j < cands@.len() implies (#[trigger] cands@[j] as int) < nodes@.len() by {
            assert(as_ints(cands@)[j] == cands@[j] as int);
            assert(at_most(all, max as int)[j] == all[j]);
        }
    }
    cands
}

fn search_match_exec(node: &NodeDto, q: &Vec<char>, f: &SearchFilter, ext: &Option<String>) -> (r: bool)
    ensures
        r == search_match(*f, q@, opt_string_view(*ext))(node@),
{
    let name = lower_chars(node.name.as_str());
    if !contains_chars(&name, q) {
        return false;
    }
    if let Some(d) = f.is_dir {
        if node.is_dir != d {
            return false;
        }
    }
    if !extension_admits_exec(ext, &node.extension) {
        return false;
    }
    if let Some(mn) = f.min_size {
        if node.size < mn {
            return false;
        }
    }
    if let Some(mx) = f.max_size {
        if node.size > mx {
            return false;
        }
    }
    if let Some(t) = f.older_than_secs {
        match node.modified {
            Some(m) => if !(m < t) { return false; },
            None => return false,
        }
    }
    true
}

/// Searches node names (case-insensitively) under the filters `f`: the
/// first `max_results` matches after the root, largest allocated total first,
/// each with its path (the scan root's text for node 0).
pub fn search_nodes(nodes: &Vec<NodeDto>, root_str: &str, f: &SearchFilter) -> (r: Vec<SearchResult>)
    requires
        parents_acyclic(dto_views(nodes@)),
    ensures
        r@.len() == spec_search(dto_views(nodes@), *f).len(),
        forall|k: int| 0 <= k < r@.len() ==> {
            let n = dto_views(nodes@)[spec_search(dto_views(nodes@), *f)[k]];
            is_search_result_of(#[trigger] r@[k], n, node_path(dto_views(nodes@), n, root_str@))
        },
{
    let ghost nv = dto_views(nodes@);
    if f.query.as_str().is_empty() || nodes.len() == 0 {
        return Vec::new();
    }
    let q = lower_chars(f.query.as_str());
    let ext = match &f.extension {
        Some(e) => Some(normalize_extension_filter(e.as_str())),
        None => None,
    };
    let ghost p = search_match(*f, q@, opt_string_view(ext));
    let cands = select_first_where(nodes, 1, f.max_results, |n: &NodeDto| -> (b: bool)
        ensures b == search_match(*f, q@, opt_string_view(ext))(n@)
        { search_match_exec(n, &q, f, &ext) }, Ghost(p));
    let ghost c = as_ints(cands@);
    let keys = allocated_desc_keys(nodes, &cands);
    let ordered = reorder(&cands, &keys);
    let ghost o = order_desc(nv, c, by_allocated());
    proof {
        assert forall|x: int| 0 <= x < ordered@.len() implies (#[trigger] ordered@[x] as int) < nv.len() by {
            assert(cands@.contains(ordered@[x]));
            let j = choose|j: int| 0 <= j < cands@.len() && cands@[j] == ordered@[x];
            assert((cands@[j] as int) < nodes@.len());
        }
    }
    let mut r: Vec<SearchResult> = Vec::new();
    let mut k: usize = 0;
    while k < ordered.len()
        invariant
            k <= ordered@.len(),
            nv == dto_views(nodes@),
            parents_acyclic(nv),
            as_ints(ordered@) == o,
            forall|x: int| 0 <= x < ordered@.len() ==> (#[trigger] ordered@[x] as int) < nv.len(),
            r@.len() == k,
            forall|x: int| 0 <= x < k ==> {
                let n = nv[o[x]];
                is_search_result_of(#[trigger] r@[x], n, node_path(nv, n, root_str@))
            },
        decreases ordered@.len() - k,
    {
        let idx = ordered[k];
        assert(o[k as int] == idx as int);
        let node = &nodes[idx];
        let path = if node.id == 0 {
            root_str.to_owned()
        } else {
            proof { assert(chain_ends(nv, node.id)); }
            build_path(node.id, nodes, root_str)
        };
        r.push(search_result(node, path));
        k += 1;
    }
    r
}

/// Joins `parts` onto `start` with [`path_push`], in order.
pub open spec fn push_parts(start: Seq<char>, parts: Seq<Seq<char>>) -> Seq<char>
    decreases parts.len(),
{
    if parts.len() == 0 { start } else { path_push(push_parts(start, parts.drop_last()), parts.last()) }
}

/// The path a plain name search shows for node `n`: the scan root's text for
/// node 0; else the names of its ancestors joined onto the scan root's text,
/// a `\` unless that already ends in one, and its own name.
pub open spec fn listed_path(nodes: Seq<NodeView>, n: NodeView, root: Seq<char>) -> Seq<char> {
    if n.id == 0 {
        root
    } else {
        let anc = match n.parent { Some(pid) => ancestors(nodes, pid), None => Seq::<u32>::empty() };
        let dir = push_parts(root, anc.reverse().map_values(|x: u32| nodes[x as int].name));
        let sep = if dir.len() > 0 && dir.last() == '\\' { dir } else { dir.push('\\') };
        sep + n.name
    }
}

/// Whether node `n` has the lowercase text `q` in its name.
pub open spec fn name_match(q: Seq<char>) -> spec_fn(NodeView) -> bool {
    |n: NodeView| contains_seq(lower(n.name), q)
}

/// The nodes found by a plain name search, in result order: the first
/// `max_results` nodes after the root whose lowercase name contains the
/// lowercase query, largest allocated total first (ties in node order).
pub open spec fn spec_search_names(nodes: Seq<NodeView>, query: Seq<char>, max_results: int) -> Seq<int> {
    if query.len() == 0 || nodes.len() == 0 {
        seq![]
    } else {
        let c = at_most(select(nodes, name_match(lower(query)), 1, nodes.len() as int), max_results);
        order_desc(nodes, c, by_allocated())
    }
}

fn listed_path_exec(nodes: &Vec<NodeDto>, node: &NodeDto, root_str: &str) -> (r: String)
    requires
        parents_acyclic(dto_views(nodes@)),
    ensures
        r@ == listed_path(dto_views(nodes@), node@, root_str@),
{
    let ghost nv = dto_views(nodes@);
    if node.id == 0 {
        return root_str.to_owned();
    }
    let ids: Vec<u32> = match node.parent {
        Some(pid) => {
            proof { assert(chain_ends(nv, pid)); }
            ancestor_ids(pid, nodes)
        },
        None => Vec::new(),
    };
    let ghost anc = match node@.parent { Some(pid) => ancestors(nv, pid), None => Seq::<u32>::empty() };
    let ghost parts = anc.reverse().map_values(|x: u32| nv[x as int].name);
    assert(ids@ == anc);
    let mut path = chars_of(root_str);
    let mut k: usize = 0;
    assert(parts.take(0) =~= Seq::<Seq<char>>::empty());
    while k < ids.len()
        invariant
            k <= ids@.len(),
            nv == dto_views(nodes@),
            ids@ == anc,
            parts == anc.reverse().map_values(|x: u32| nv[x as int].name),
            forall|x: int| 0 <= x < ids@.len() ==> (#[trigger] ids@[x] as int) < nodes@.len(),
            path@ == push_parts(root_str@, parts.take(k as int)),
        decreases ids@.len() - k,
    {
        let id = ids[ids.len() - 1 - k];
        let part = chars_of(nodes[id as usize].name.as_str());
        assert(part@ == parts[k as int]);
        assert(parts.take(k + 1).drop_last() =~= parts.take(k as int));
        let n = path.len();
        if n == 0 || !(path[n - 1] == '\\' || path[n - 1] == '/') {
            path.push('\\');
        }
        push_chars(&mut path, &part);
        k += 1;
    }
    assert(parts.take(k as int) =~= parts);
    let n = path.len();
    if !(n > 0 && path[n - 1] == '\\') {
        path.push('\\');
    }
    let name = chars_of(node.name.as_str());
    push_chars(&mut path, &name);
    string_from_chars(&path)
}

/// Searches node names (case-insensitively) for `query`: the first
/// `max_results` matches after the root, largest allocated total first, each
/// with its path (see [`listed_path`]).
pub fn search_files(nodes: &Vec<NodeDto>, root_str: &str, query: &str, max_results: u32) -> (r: Vec<SearchResult>)
    requires
        parents_acyclic(dto_views(nodes@)),
    ensures
        ({
            let nv = dto_views(nodes@);
            let o = spec_search_names(nv, query@, max_results as int);
            &&& r@.len() == o.len()
            &&& forall|k: int| 0 <= k < r@.len() ==>
                is_search_result_of(#[trigger] r@[k], nv[o[k]], listed_path(nv, nv[o[k]], root_str@))
        }),
{
    let ghost nv = dto_views(nodes@);
    if query.is_empty() || nodes.len() == 0 {
        return Vec::new();
    }
    let q = lower_chars(query);
    let ghost p = name_match(q@);
    let cands = select_first_where(nodes, 1, max_results as usize, |n: &NodeDto| -> (b: bool)
        ensures b == name_match(q@)(n@)
        {
            let name = lower_chars(n.name.as_str());
            contains_chars(&name, &q)
        }, Ghost(p));
    let ghost c = as_ints(cands@);
    let keys = allocated_desc_keys(nodes, &cands);
    let ordered = reorder(&cands, &keys);
    let ghost o = order_desc(nv, c, by_allocated());
    proof {
        assert forall|x: int| 0 <= x < ordered@.len() implies (#[trigger] ordered@[x] as int) < nv.len() by {
            assert(cands@.contains(ordered@[x]));
            let j = choose|j: int| 0 <= j < cands@.len() && cands@[j] == ordered@[x];
            assert((cands@[j] as int) < nodes@.len());
        }
    }
    let mut r: Vec<SearchResult> = Vec::new();
    let mut k: usize = 0;
    while k < ordered.len()
        invariant
            k <= ordered@.len(),
            nv == dto_views(nodes@),
            parents_acyclic(nv),
            as_ints(ordered@) == o,
            forall|x: int| 0 <= x < ordered@.len() ==> (#[trigger] ordered@[x] as int) < nv.len(),
            r@.len() == k,
            forall|x: int| 0 <= x < k ==> is_search_result_of(#[trigger] r@[x], nv[o[x]], listed_path(nv, nv[o[x]], root_str@)),
        decreases ordered@.len() - k,
    {
        let idx = ordered[k];
        assert(o[k as int] == idx as int);
        let node = &nodes[idx];
        let path = listed_path_exec(nodes, node, root_str);
        r.push(search_result(node, path));
        k += 1;
    }
    r
}

// ---------------------------------------------------------------------------
// Largest, empty and old entries

/// An extension filter as typed, normalised (see [`normalize_extension_filter`]).
pub open spec fn norm_ext(ext: Option<Seq<char>>) -> Option<Seq<char>> {
    match ext { Some(e) => Some(lower(trim_leading_dots(e))), None => None }
}

/// Normalises an optional extension filter.
pub fn normalize_extension_option(ext: Option<&str>) -> (r: Option<String>)
    ensures
        opt_string_view(r) == norm_ext(match ext { Some(e) => Some(e@), None => None }),
{
    match ext {
        Some(e) => Some(normalize_extension_filter(e)),
        None => None,
    }
}

/// The indices `from..` of the nodes on which `pred` holds, in order.
fn select_where<F: Fn(&NodeDto) -> bool>(
    nodes: &Vec<NodeDto>,
    from: usize,
    pred: F,
    Ghost(p): Ghost<spec_fn(NodeView) -> bool>,
) -> (r: Vec<usize>)
    requires
        from <= nodes@.len(),
        forall|n: &NodeDto| #[trigger] pred.requires((n,)),
        forall|n: &NodeDto, b: bool| pred.ensures((n,), b) ==> b == p(n@),
    ensures
        as_ints(r@) == select(dto_views(nodes@), p, from as int, nodes@.len() as int),
        forall|k: int| 0 <= k < r@.len() ==> (#[trigger] r@[k] as int) < nodes@.len(),
{
    let ghost nv = dto_views(nodes@);
    let mut r: Vec<usize> = Vec::new();
    let mut i: usize = from;
    while i < nodes.len()
        invariant
            from <= i <= nodes@.len(),
            nv == dto_views(nodes@),
            forall|n: &NodeDto| #[trigger] pred.requires((n,)),
            forall|n: &NodeDto, b: bool| pred.ensures((n,), b) ==> b == p(n@),
            as_ints(r@) == select(nv, p, from as int, i as int),
        decreases nodes@.len() - i,
    {
        let ghost before = r@;
        if pred(&nodes[i]) {
            r.push(i);
            assert(as_ints(r@) =~= as_ints(before).push(i as int));
        }
        i += 1;
    }
    proof {
        lemma_select_range(nv, p, from as int, nodes@.len() as int);
        assert forall|k: int| 0 <= k < r@.len() implies (#[trigger] r@[k] as int) < nodes@.len() by {
            assert(as_ints(r@)[k] == r@[k] as int);
        }
    }
    r
}

/// The first `limit` of the indices `cands` ordered by `keys`.
fn ordered_prefix(cands: &Vec<usize>, keys: &Vec<i128>, limit: usize) -> (r: Vec<usize>)
    requires
        cands@.len() == keys@.len(),
    ensures
        as_ints(r@) == at_most(order_by(as_ints(cands@), keys@), limit as int),
        forall|k: int| 0 <= k < r@.len() ==> cands@.contains(#[trigger] r@[k]),
{
    let mut o = reorder(cands, keys);
    let ghost full = o@;
    o.truncate(limit);
    proof {
        assert(as_ints(full).len() == full.len());
        if limit < full.len() {
            assert(as_ints(o@) =~= as_ints(full).take(limit as int));
        } else {
            assert(as_ints(o@) =~= as_ints(full));
        }
        assert forall|k: int| 0 <= k < o@.len() implies cands@.contains(#[trigger] o@[k]) by {
            assert(o@[k] == full[k]);
        }
    }
    o
}

/// Whether node `n` is a file of at least `min_size` bytes that the
/// normalised extension filter `ext` admits.
pub open spec fn large_file(min_size: u64, ext: Option<Seq<char>>) -> spec_fn(NodeView) -> bool {
    |n: NodeView| !n.is_dir && n.size >= min_size && extension_admits(ext, n.extension)
}

/// The nodes listed as the largest files: all files of at least `min_size`
/// bytes that the extension filter admits, largest first (ties in node
/// order), at most `limit` of them.
pub open spec fn spec_largest_files(nodes: Seq<NodeView>, limit: int, min_size: u64, ext: Option<Seq<char>>) -> Seq<int> {
    let c = select(nodes, large_file(min_size, norm_ext(ext)), 0, nodes.len() as int);
    at_most(order_desc(nodes, c, by_size()), limit)
}

fn file_infos(nodes: &Vec<NodeDto>, root_str: &str, picked: &Vec<usize>, Ghost(o): Ghost<Seq<int>>) -> (r: Vec<FileInfo>)
    requires
        parents_acyclic(dto_views(nodes@)),
        as_ints(picked@) == o,
        forall|k: int| 0 <= k < picked@.len() ==> (#[trigger] picked@[k] as int) < nodes@.len(),
    ensures
        r@.len() == o.len(),
        forall|k: int| 0 <= k < r@.len() ==> {
            let n = dto_views(nodes@)[o[k]];
            is_file_info_of(#[trigger] r@[k], n, spec_build_path(dto_views(nodes@), n.id, root_str@))
        },
{
    let ghost nv = dto_views(nodes@);
    let mut r: Vec<FileInfo> = Vec::new();
    let mut k: usize = 0;
    while k < picked.len()
        invariant
            k <= picked@.len(),
            nv == dto_views(nodes@),
            parents_acyclic(nv),
            as_ints(picked@) == o,
            forall|x: int| 0 <= x < picked@.len() ==> (#[trigger] picked@[x] as int) < nodes@.len(),
            r@.len() == k,
            forall|x: int| 0 <= x < k ==> {
                let n = nv[o[x]];
                is_file_info_of(#[trigger] r@[x], n, spec_build_path(nv, n.id, root_str@))
            },
        decreases picked@.len() - k,
    {
        let idx = picked[k];
        assert(o[k as int] == idx as int);
        let node = &nodes[idx];
        proof { assert(chain_ends(nv, node.id)); }
        let path = build_path(node.id, nodes, root_str);
        r.push(file_info(node, path));
        k += 1;
    }
    r
}

fn dir_infos(nodes: &Vec<NodeDto>, root_str: &str, picked: &Vec<usize>, Ghost(o): Ghost<Seq<int>>, no_children: bool) -> (r: Vec<DirInfo>)
    requires
        parents_acyclic(dto_views(nodes@)),
        as_ints(picked@) == o,
        forall|k: int| 0 <= k < picked@.len() ==> (#[trigger] picked@[k] as int) < nodes@.len(),
    ensures
        r@.len() == o.len(),
        forall|k: int| 0 <= k < r@.len() ==> {
            let n = dto_views(nodes@)[o[k]];
            is_dir_info_of(#[trigger] r@[k], n, spec_build_path(dto_views(nodes@), n.id, root_str@),
                if no_children { 0 } else { n.children.len() as u32 })
        },
{
    let ghost nv = dto_views(nodes@);
    let mut r: Vec<DirInfo> = Vec::new();
    let mut k: usize = 0;
    while k < picked.len()
        invariant
            k <= picked@.len(),
            nv == dto_views(nodes@),
            parents_acyclic(nv),
            as_ints(picked@) == o,
            forall|x: int| 0 <= x < picked@.len() ==> (#[trigger] picked@[x] as int) < nodes@.len(),
            r@.len() == k,
            forall|x: int| 0 <= x < k ==> {
                let n = nv[o[x]];
                is_dir_info_of(#[trigger] r@[x], n, spec_build_path(nv, n.id, root_str@),
                    if no_children { 0 } else { n.children.len() as u32 })
            },
        decreases picked@.len() - k,
    {
        let idx = picked[k];
        assert(o[k as int] == idx as int);
        let node = &nodes[idx];
        proof { assert(chain_ends(nv, node.id)); }
        let path = build_path(node.id, nodes, root_str);
        let count: u32 = if no_children { 0 } else { node.children.len() as u32 };
        r.push(dir_info(node, path, count));
        k += 1;
    }
    r
}

/// The largest files (see [`spec_largest_files`]), each with its full path;
/// `extension` is taken as typed and normalised here.
pub fn get_largest_files(nodes: &Vec<NodeDto>, root_str: &str, limit: usize, min_size: u64, extension: Option<&str>) -> (r: Vec<FileInfo>)
    requires
        parents_acyclic(dto_views(nodes@)),
    ensures
        ({
            let nv = dto_views(nodes@);
            let o = spec_largest_files(nv, limit as int, min_size, match extension { Some(e) => Some(e@), None => None });
            &&& r@.len() == o.len()
            &&& forall|k: int| 0 <= k < r@.len() ==>
                is_file_info_of(#[trigger] r@[k], nv[o[k]], spec_build_path(nv, nv[o[k]].id, root_str@))
        }),
{
    let ghost nv = dto_views(nodes@);
    let ext = normalize_extension_option(extension);
    let ghost p = large_file(min_size, opt_string_view(ext));
    let cands = select_where(nodes, 0, |n: &NodeDto| -> (b: bool)
        ensures b == large_file(min_size, opt_string_view(ext))(n@)
        { !n.is_dir && n.size >= min_size && extension_admits_exec(&ext, &n.extension) }, Ghost(p));
    let keys = size_desc_keys(nodes, &cands);
    let picked = ordered_prefix(&cands, &keys, limit);
    let ghost o = at_most(order_desc(nv, as_ints(cands@), by_size()), limit as int);
    proof {
        assert forall|x: int| 0 <= x < picked@.len() implies (#[trigger] picked@[x] as int) < nodes@.len() by {
            assert(cands@.contains(picked@[x]));
            let j = choose|j: int| 0 <= j < cands@.len() && cands@[j] == picked@[x];
            assert((cands@[j] as int) < nodes@.len());
        }
    }
    file_infos(nodes, root_str, &picked, Ghost(o))
}

/// Whether node `n` is a directory other than the root with an allocated
/// total of at least `min_size` bytes.
pub open spec fn large_dir(min_size: u64) -> spec_fn(NodeView) -> bool {
    |n: NodeView| n.is_dir && n.id != 0 && n.total_allocated >= min_size
}

/// The nodes listed as the largest directories: all directories but the
/// root with an allocated total of at least `min_size`, largest first (ties
/// in node order), at most `limit` of them.
pub open spec fn spec_largest_directories(nodes: Seq<NodeView>, limit: int, min_size: u64) -> Seq<int> {
    let c = select(nodes, large_dir(min_size), 0, nodes.len() as int);
    at_most(order_desc(nodes, c, by_allocated()), limit)
}

/// The largest directories (see [`spec_largest_directories`]), each with its
/// full path and number of children.
pub fn get_largest_directories(nodes: &Vec<NodeDto>, root_str: &str, limit: usize, min_size: u64) -> (r: Vec<DirInfo>)
    requires
        parents_acyclic(dto_views(nodes@)),
    ensures
        ({
            let nv = dto_views(nodes@);
            let o = spec_largest_directories(nv, limit as int, min_size);
            &&& r@.len() == o.len()
            &&& forall|k: int| 0 <= k < r@.len() ==>
                is_dir_info_of(#[trigger] r@[k], nv[o[k]], spec_build_path(nv, nv[o[k]].id, root_str@),
                    nv[o[k]].children.len() as u32)
        }),
{
    let ghost nv = dto_views(nodes@);
    let ghost p = large_dir(min_size);
    let cands = select_where(nodes, 0, |n: &NodeDto| -> (b: bool)
        ensures b == large_dir(min_size)(n@)
        { n.is_dir && n.id != 0 && n.total_allocated >= min_size }, Ghost(p));
    let keys = allocated_desc_keys(nodes, &cands);
    let picked = ordered_prefix(&cands, &keys, limit);
    let ghost o = at_most(order_desc(nv, as_ints(cands@), by_allocated()), limit as int);
    proof {
        assert forall|x: int| 0 <= x < picked@.len() implies (#[trigger] picked@[x] as int) < nodes@.len() by {
            assert(cands@.contains(picked@[x]));
            let j = choose|j: int| 0 <= j < cands@.len() && cands@[j] == picked@[x];
            assert((cands@[j] as int) < nodes@.len());
        }
    }
    dir_infos(nodes, root_str, &picked, Ghost(o), false)
}

/// Whether node `n` is a directory other than the root without children.
pub open spec fn empty_dir() -> spec_fn(NodeView) -> bool {
    |n: NodeView| n.is_dir && n.id != 0 && n.children.len() == 0
}

/// The nodes listed as empty directories: all directories but the root
/// without children, largest allocated total first (ties in node order), at
/// most `max_results` of them.
pub open spec fn spec_empty_directories(nodes: Seq<NodeView>, max_results: int) -> Seq<int> {
    let c = select(nodes, empty_dir(), 0, nodes.len() as int);
    at_most(order_desc(nodes, c, by_allocated()), max_results)
}

/// The empty directories (see [`spec_empty_directories`]), each with its full path.
pub fn find_empty_directories(nodes: &Vec<NodeDto>, root_str: &str, max_results: usize) -> (r: Vec<DirInfo>)
    requires
        parents_acyclic(dto_views(nodes@)),
    ensures
        ({
            let nv = dto_views(nodes@);
            let o = spec_empty_directories(nv, max_results as int);
            &&& r@.len() == o.len()
            &&& forall|k: int| 0 <= k < r@.len() ==>
                is_dir_info_of(#[trigger] r@[k], nv[o[k]], spec_build_path(nv, nv[o[k]].id, root_str@), 0)
        }),
{
    let ghost nv = dto_views(nodes@);
    let ghost p = empty_dir();
    let cands = select_where(nodes, 0, |n: &NodeDto| -> (b: bool)
        ensures b == empty_dir()(n@)
        { n.is_dir && n.id != 0 && n.children.len() == 0 }, Ghost(p));
    let keys = allocated_desc_keys(nodes, &cands);
    let picked = ordered_prefix(&cands, &keys, max_results);
    let ghost o = at_most(order_desc(nv, as_ints(cands@), by_allocated()), max_results as int);
    proof {
        assert forall|x: int| 0 <= x < picked@.len() implies (#[trigger] picked@[x] as int) < nodes@.len() by {
            assert(cands@.contains(picked@[x]));
            let j = choose|j: int| 0 <= j < cands@.len() && cands@[j] == picked@[x];
            assert((cands@[j] as int) < nodes@.len());
        }
    }
    dir_infos(nodes, root_str, &picked, Ghost(o), true)
}

proof fn lemma_select_contains(nodes: Seq<NodeView>, p: spec_fn(NodeView) -> bool, from: int, k: int)
    requires
        0 <= from,
    ensures
        select(nodes, p, from, k).len() <= if k > from { k - from } else { 0 },
        forall|i: int| from <= i < k && p(nodes[i]) ==> #[trigger] select(nodes, p, from, k).contains(i),
    decreases k - from,
{
    if k > from {
        lemma_select_contains(nodes, p, from, k - 1);
        let r = select(nodes, p, from, k - 1);
        let s2 = select(nodes, p, from, k);
        assert forall|i: int| from <= i < k && p(nodes[i]) implies #[trigger] s2.contains(i) by {
            if i < k - 1 {
                assert(r.contains(i));
                let w = choose|w: int| 0 <= w < r.len() && r[w] == i;
                if p(nodes[k - 1]) {
                    assert(s2[w] == i);
                }
            } else {
                assert(s2[s2.len() - 1] == i);
            }
        }
    }
}

/// Law: every node listed as an empty directory is a directory other than
/// the root (id 0) that lists no children (neither files nor
/// subdirectories), and none is listed twice; where fewer than `max_results`
/// are listed, every such directory is listed.
pub proof fn law_empty_directories(nodes: Seq<NodeView>, max_results: int)
    requires
        nodes.len() <= usize::MAX,
        0 <= max_results,
    ensures
        ({
            let o = spec_empty_directories(nodes, max_results);
            &&& forall|k: int| 0 <= k < o.len() ==> 0 <= #[trigger] o[k] < nodes.len() && nodes[o[k]].is_dir
                    && nodes[o[k]].id != 0 && nodes[o[k]].children.len() == 0
            &&& o.no_duplicates()
            &&& o.len() < max_results ==> forall|i: int| #![trigger nodes[i]] 0 <= i < nodes.len() && nodes[i].is_dir
                    && nodes[i].id != 0 && nodes[i].children.len() == 0 ==> o.contains(i)
        }),
{
    let n = nodes.len() as int;
    let p = empty_dir();
    let c = select(nodes, p, 0, n);
    lemma_select_range(nodes, p, 0, n);
    lemma_select_contains(nodes, p, 0, n);
    lemma_select_prefix(nodes, p, 0, 0, n);
    let keys = desc_keys(nodes, c, by_allocated());
    lemma_key_order(keys);
    let ko = key_order(keys);
    let ord = order_desc(nodes, c, by_allocated());
    assert(ord == ko.map_values(|j: usize| c[j as int]));
    let o = spec_empty_directories(nodes, max_results);
    assert(o == at_most(ord, max_results));
    assert(ko.len() == c.len() && ord.len() == c.len());
    assert(o.len() <= ord.len());
    assert forall|k: int| 0 <= k < o.len() implies 0 <= #[trigger] o[k] < nodes.len() && nodes[o[k]].is_dir
        && nodes[o[k]].id != 0 && nodes[o[k]].children.len() == 0 by {
        assert(o[k] == ord[k]);
        assert(ord[k] == c[ko[k] as int]);
        assert(p(nodes[c[ko[k] as int]]));
    }
    assert forall|a: int, b: int| 0 <= a < o.len() && 0 <= b < o.len() && a != b implies o[a] != o[b] by {
        assert(o[a] == c[ko[a] as int] && o[b] == c[ko[b] as int]);
        assert(ko[a] != ko[b]);
        lemma_select_increasing(nodes, p, 0, n);
        let x = ko[a] as int;
        let y = ko[b] as int;
        if x < y { assert(c[x] < c[y]); } else { assert(c[y] < c[x]); }
    }
    if o.len() < max_results {
        assert(o == ord);
        assert forall|i: int| #![trigger nodes[i]] 0 <= i < nodes.len() && nodes[i].is_dir
            && nodes[i].id != 0 && nodes[i].children.len() == 0 implies o.contains(i) by {
            assert(p(nodes[i]));
            assert(c.contains(i));
            let j = choose|j: int| 0 <= j < c.len() && c[j] == i;
            assert(ko.contains(j as usize));
            let m = choose|m: int| 0 <= m < ko.len() && ko[m] == j as usize;
            assert(ord[m] == i);
        }
    }
}

proof fn lemma_select_increasing(nodes: Seq<NodeView>, p: spec_fn(NodeView) -> bool, from: int, k: int)
    requires
        0 <= from,
    ensures
        forall|a: int, b: int| 0 <= a < b < select(nodes, p, from, k).len() ==>
            #[trigger] select(nodes, p, from, k)[a] < #[trigger] select(nodes, p, from, k)[b],
    decreases k - from,
{
    if k > from {
        lemma_select_increasing(nodes, p, from, k - 1);
        lemma_select_range(nodes, p, from, k - 1);
        let r = select(nodes, p, from, k - 1);
        let s2 = select(nodes, p, from, k);
        assert forall|a: int, b: int| 0 <= a < b < s2.len() implies #[trigger] s2[a] < #[trigger] s2[b] by {
            assert(s2[a] == r[a]);
            if b < r.len() {
                assert(s2[b] == r[b]);
            } else {
                assert(s2[b] == k - 1);
            }
        }
    }
}

/// Whether node `n` is a file of at least `min_size` bytes, last modified
/// before `cutoff`, that the normalised extension filter `ext` admits.
pub open spec fn old_file(cutoff: i64, min_size: u64, ext: Option<Seq<char>>) -> spec_fn(NodeView) -> bool {
    |n: NodeView| {
        &&& !n.is_dir
        &&& n.size >= min_size
        &&& (n.modified matches Some(m) && m < cutoff)
        &&& extension_admits(ext, n.extension)
    }
}

/// A node's modification time (the earliest time where it has none).
pub open spec fn by_modified() -> spec_fn(NodeView) -> int {
    |n: NodeView| match n.modified { Some(m) => m as int, None => i64::MIN as int }
}

/// The nodes listed as old files: all files of at least `min_size` bytes
/// modified before `cutoff` that the extension filter admits, oldest first
/// (ties in node order), at most `max_results` of them.
pub open spec fn spec_files_by_age(nodes: Seq<NodeView>, cutoff: i64, max_results: int, min_size: u64, ext: Option<Seq<char>>) -> Seq<int> {
    let c = select(nodes, old_file(cutoff, min_size, norm_ext(ext)), 0, nodes.len() as int);
    at_most(order_asc(nodes, c, by_modified()), max_results)
}

/// Sort keys that put earlier modification times first, for the nodes `cands`.
fn modified_asc_keys(nodes: &Vec<NodeDto>, cands: &Vec<usize>) -> (keys: Vec<i128>)
    requires
        forall|j: int| 0 <= j < cands@.len() ==> (#[trigger] cands@[j] as int) < nodes@.len(),
    ensures
        keys@ == asc_keys(dto_views(nodes@), as_ints(cands@), by_modified()),
{
    let ghost c = as_ints(cands@);
    let mut keys: Vec<i128> = Vec::new();
    let mut k: usize = 0;
    while k < cands.len()
        invariant
            k <= cands@.len(),
            c == as_ints(cands@),
            forall|j: int| 0 <= j < cands@.len() ==> (#[trigger] cands@[j] as int) < nodes@.len(),
            keys@ == asc_keys(dto_views(nodes@), c, by_modified()).take(k as int),
        decreases cands@.len() - k,
    {
        let m: i64 = match nodes[cands[k]].modified { Some(m) => m, None => i64::MIN };
        keys.push(m as i128);
        k += 1;
        assert(keys@ =~= asc_keys(dto_views(nodes@), c, by_modified()).take(k as int));
    }
    assert(keys@ =~= asc_keys(dto_views(nodes@), c, by_modified()));
    keys
}

/// Whether `days` whole days before the Unix time `now` is an `i64`.
pub open spec fn days_before_fits(now: i64, days: u64) -> bool {
    days * 86400 <= i64::MAX && now - days * 86400 >= i64::MIN
}

/// The Unix time `days` whole days before `now`: the cutoff of an age filter.
pub fn days_before(now: i64, days: u64) -> (r: i64)
    requires
        days_before_fits(now, days),
    ensures
        r == now - days * 86400,
{
    now - (days as i64) * 86400
}

/// The files not modified since `cutoff` (see [`spec_files_by_age`]), each
/// with its full path; `extension` is taken as typed and normalised here.
pub fn find_files_by_age(
    nodes: &Vec<NodeDto>,
    root_str: &str,
    cutoff: i64,
    max_results: usize,
    min_size: u64,
    extension: Option<&str>,
) -> (r: Vec<FileInfo>)
    requires
        parents_acyclic(dto_views(nodes@)),
    ensures
        ({
            let nv = dto_views(nodes@);
            let o = spec_files_by_age(nv, cutoff, max_results as int, min_size,
                match extension { Some(e) => Some(e@), None => None });
            &&& r@.len() == o.len()
            &&& forall|k: int| 0 <= k < r@.len() ==>
                is_file_info_of(#[trigger] r@[k], nv[o[k]], spec_build_path(nv, nv[o[k]].id, root_str@))
        }),
{
    let ghost nv = dto_views(nodes@);
    let ext = normalize_extension_option(extension);
    let ghost p = old_file(cutoff, min_size, opt_string_view(ext));
    let cands = select_where(nodes, 0, |n: &NodeDto| -> (b: bool)
        ensures b == old_file(cutoff, min_size, opt_string_view(ext))(n@)
        {
            if n.is_dir || n.size < min_size {
                return false;
            }
            match n.modified {
                Some(m) => if !(m < cutoff) { return false; },
                None => { return false; },
            }
            extension_admits_exec(&ext, &n.extension)
        }, Ghost(p));
    let keys = modified_asc_keys(nodes, &cands);
    let picked = ordered_prefix(&cands, &keys, max_results);
    let ghost o = at_most(order_asc(nv, as_ints(cands@), by_modified()), max_results as int);
    proof {
        assert forall|x: int| 0 <= x < picked@.len() implies (#[trigger] picked@[x] as int) < nodes@.len() by {
            assert(cands@.contains(picked@[x]));
            let j = choose|j: int| 0 <= j < cands@.len() && cands@[j] == picked@[x];
            assert((cands@[j] as int) < nodes@.len());
        }
    }
    file_infos(nodes, root_str, &picked, Ghost(o))
}

} // verus!
