//! Files that look like copies of each other: the same lowercase name and
//! the same size.
use vstd::prelude::*;
use crate::models::{DuplicateGroup, FileInfo, NodeDto};
use crate::order::{key_order, key_order_exec, lemma_key_order};
use crate::query::{build_path, chain_ends, is_file_info_of, parents_acyclic, spec_build_path};
use crate::text::{lower, lower_chars, string_from_chars};
use crate::tree::{NodeView, clone_opt_string, dto_views};

verus! {

/// Files sharing a key: their lowercase name, their size, and the nodes.
pub struct DupGroup {
    pub name: Seq<char>,
    pub size: u64,
    pub members: Seq<int>,
}

/// Whether a node takes part: a file of at least `min_size` bytes.
pub open spec fn dup_candidate(n: NodeView, min_size: u64) -> bool {
    !n.is_dir && n.size >= min_size
}

/// The position of the group with key (`name`, `size`) in `g`, or -1.
pub open spec fn group_index(g: Seq<DupGroup>, name: Seq<char>, size: u64) -> int
    decreases g.len(),
{
    if g.len() == 0 {
        -1
    } else {
        let r = group_index(g.drop_last(), name, size);
        if r >= 0 { r } else if g.last().name == name && g.last().size == size { g.len() - 1 } else { -1 }
    }
}

/// The groups of the candidates among nodes `1..k` (the root is left out),
/// in the order in which each key first occurs, members in node order.
pub open spec fn dup_groups(nodes: Seq<NodeView>, min_size: u64, k: int) -> Seq<DupGroup>
    decreases k,
{
    if k <= 1 {
        seq![]
    } else {
        let g = dup_groups(nodes, min_size, k - 1);
        let n = nodes[k - 1];
        if !dup_candidate(n, min_size) {
            g
        } else {
            let j = group_index(g, lower(n.name), n.size);
            if j >= 0 {
                g.update(j, DupGroup { members: g[j].members.push(k - 1), ..g[j] })
            } else {
                g.push(DupGroup { name: lower(n.name), size: n.size, members: seq![k - 1] })
            }
        }
    }
}

/// The groups with more than one file.
pub open spec fn shared_groups(nodes: Seq<NodeView>, min_size: u64) -> Seq<DupGroup> {
    dup_groups(nodes, min_size, nodes.len() as int).filter(|g: DupGroup| g.members.len() >= 2)
}

/// The groups listed: those with more than one file, most files first (ties
/// in first-occurrence order), at most `max_results` of them.
pub open spec fn spec_duplicates(nodes: Seq<NodeView>, min_size: u64, max_results: int) -> Seq<DupGroup> {
    let d = shared_groups(nodes, min_size);
    let order = key_order(Seq::new(d.len(), |j: int| (-(d[j].members.len() as int)) as i128));
    let kept = if order.len() <= max_results { order } else { order.take(max_results) };
    kept.map_values(|j: usize| d[j as int])
}

/// The size of `count` files of `size` bytes, saturating at `u64::MAX`.
pub open spec fn group_total(size: u64, count: int) -> u64 {
    if size * count > u64::MAX { u64::MAX } else { (size * count) as u64 }
}

/// Whether `r` reports the group `g`, with each file's full path.
pub open spec fn is_group_of(r: DuplicateGroup, g: DupGroup, nodes: Seq<NodeView>, root: Seq<char>) -> bool {
    &&& r.file_name@ == g.name
    &&& r.size == g.size
    &&& r.file_count == g.members.len()
    &&& r.total_size == group_total(g.size, g.members.len() as int)
    &&& r.truncated is None
    &&& r.files@.len() == g.members.len()
    &&& forall|m: int| 0 <= m < g.members.len() ==>
            is_file_info_of(#[trigger] r.files@[m], nodes[g.members[m]],
                spec_build_path(nodes, nodes[g.members[m]].id, root))
}

/// A prime that keeps the name hash small.
pub open spec fn hash_modulus() -> int {
    1_000_000_007
}

/// A hash of a name: its characters in base 31 modulo [`hash_modulus`].
pub open spec fn name_hash(s: Seq<char>) -> int
    decreases s.len(),
{
    if s.len() == 0 { 0 } else { (name_hash(s.drop_last()) * 31 + s.last() as u32) % hash_modulus() }
}

/// The bucket of a key among `nb` buckets.
pub open spec fn bucket_of(name: Seq<char>, size: u64, nb: int) -> int {
    (name_hash(name) + (size as int) % hash_modulus()) % nb
}

fn bucket_exec(name: &Vec<char>, size: u64, nb: usize) -> (r: usize)
    requires
        nb > 0,
    ensures
        r as int == bucket_of(name@, size, nb as int),
        r < nb,
{
    let mut h: u64 = 0;
    let mut i: usize = 0;
    assert(name@.take(0) =~= Seq::<char>::empty());
    while i < name.len()
        invariant
            i <= name@.len(),
            h as int == name_hash(name@.take(i as int)),
            h < 1_000_000_007,
        decreases name@.len() - i,
    {
        assert(name@.take(i + 1).drop_last() =~= name@.take(i as int));
        let c = name[i] as u32;
        h = (h * 31 + c as u64) % 1_000_000_007;
        i += 1;
    }
    assert(name@.take(i as int) =~= name@);
    let b = (h + size % 1_000_000_007) % (nb as u64);
    b as usize
}

pub open spec fn group_views(names: Seq<Vec<char>>, sizes: Seq<u64>, members: Seq<Vec<usize>>) -> Seq<DupGroup> {
    Seq::new(names.len(), |g: int| DupGroup {
        name: names[g]@,
        size: sizes[g],
        members: members[g]@.map_values(|x: usize| x as int),
    })
}

proof fn lemma_group_index_found(g: Seq<DupGroup>, name: Seq<char>, size: u64, j: int)
    requires
        0 <= j < g.len(),
        g[j].name == name && g[j].size == size,
        forall|a: int, b: int| #![trigger g[a], g[b]] 0 <= a < b < g.len() ==> !(g[a].name == g[b].name && g[a].size == g[b].size),
    ensures
        group_index(g, name, size) == j,
    decreases g.len(),
{
    if j < g.len() - 1 {
        assert forall|a: int, b: int| #![trigger g.drop_last()[a], g.drop_last()[b]] 0 <= a < b < g.drop_last().len() implies
            !(g.drop_last()[a].name == g.drop_last()[b].name && g.drop_last()[a].size == g.drop_last()[b].size) by {
            assert(g.drop_last()[a] == g[a]);
            assert(g.drop_last()[b] == g[b]);
        }
        lemma_group_index_found(g.drop_last(), name, size, j);
    } else {
        lemma_group_index_absent(g.drop_last(), name, size);
    }
}

proof fn lemma_group_index_absent(g: Seq<DupGroup>, name: Seq<char>, size: u64)
    requires
        forall|a: int| #![trigger g[a]] 0 <= a < g.len() ==> !(g[a].name == name && g[a].size == size),
    ensures
        group_index(g, name, size) == -1,
    decreases g.len(),
{
    if g.len() > 0 {
        assert forall|a: int| #![trigger g.drop_last()[a]] 0 <= a < g.drop_last().len() implies !(g.drop_last()[a].name == name && g.drop_last()[a].size == size) by {
            assert(g.drop_last()[a] == g[a]);
        }
        lemma_group_index_absent(g.drop_last(), name, size);
    }
}

fn chars_eq(a: &Vec<char>, b: &Vec<char>) -> (r: bool)
    ensures
        r == (a@ == b@),
{
    if a.len() != b.len() {
        return false;
    }
    let mut i: usize = 0;
    while i < a.len()
        invariant
            i <= a@.len(),
            a@.len() == b@.len(),
            forall|j: int| 0 <= j < i ==> a@[j] == b@[j],
        decreases a@.len() - i,
    {
        if a[i] != b[i] {
            return false;
        }
        i += 1;
    }
    assert(a@ =~= b@);
    true
}

/// Groups the candidate files by key, in first-occurrence order.
fn group_files(nodes: &Vec<NodeDto>, min_size: u64) -> (r: (Vec<Vec<char>>, Vec<u64>, Vec<Vec<usize>>))
    requires
        nodes@.len() >= 1,
    ensures
        r.0@.len() == r.1@.len() && r.1@.len() == r.2@.len(),
        group_views(r.0@, r.1@, r.2@) == dup_groups(dto_views(nodes@), min_size, nodes@.len() as int),
        forall|g: int, m: int| 0 <= g < r.2@.len() && 0 <= m < r.2@[g]@.len() ==> (#[trigger] r.2@[g]@[m] as int) < nodes@.len(),
{
    let ghost nv = dto_views(nodes@);
    let nb = nodes.len();
    let mut buckets: Vec<Vec<usize>> = Vec::new();
    let mut b: usize = 0;
    while b < nb
        invariant
            b <= nb,
            buckets@.len() == b,
            forall|x: int| 0 <= x < b ==> (#[trigger] buckets@[x])@.len() == 0,
        decreases nb - b,
    {
        buckets.push(Vec::new());
        b += 1;
    }
    let mut names: Vec<Vec<char>> = Vec::new();
    let mut sizes: Vec<u64> = Vec::new();
    let mut members: Vec<Vec<usize>> = Vec::new();
    let mut i: usize = 1;
    assert(group_views(names@, sizes@, members@) =~= dup_groups(nv, min_size, 1));
    while i < nodes.len()
        invariant
            1 <= i <= nodes@.len(),
            nb == nodes@.len(),
            nv == dto_views(nodes@),
            buckets@.len() == nb,
            names@.len() == sizes@.len() && sizes@.len() == members@.len(),
            group_views(names@, sizes@, members@) == dup_groups(nv, min_size, i as int),
            forall|a: int, c: int| #![trigger names@[a], names@[c]] 0 <= a < c < names@.len() ==>
                !(names@[a]@ == names@[c]@ && sizes@[a] == sizes@[c]),
            forall|g: int| 0 <= g < names@.len() ==>
                (#[trigger] buckets@[bucket_of(names@[g]@, sizes@[g], nb as int)])@.contains(g as usize),
            forall|x: int, y: int| 0 <= x < nb && 0 <= y < buckets@[x]@.len() ==> (#[trigger] buckets@[x]@[y] as int) < names@.len(),
            forall|g: int, m: int| 0 <= g < members@.len() && 0 <= m < members@[g]@.len() ==> (#[trigger] members@[g]@[m] as int) < i,
        decreases nodes@.len() - i,
    {
        let node = &nodes[i];
        let ghost gv = group_views(names@, sizes@, members@);
        if !node.is_dir && node.size >= min_size {
            let key = lower_chars(node.name.as_str());
            let bk = bucket_exec(&key, node.size, nb);
            let mut found: usize = 0;
            let mut hit = false;
            let mut y: usize = 0;
            while y < buckets[bk].len() && !hit
                invariant
                    bk < buckets@.len(),
                    y <= buckets@[bk as int]@.len(),
                    names@.len() == sizes@.len(),
                    forall|x: int, yy: int| 0 <= x < nb && 0 <= yy < buckets@[x]@.len() ==> (#[trigger] buckets@[x]@[yy] as int) < names@.len(),
                    buckets@.len() == nb,
                    hit ==> (found as int) < names@.len() && names@[found as int]@ == key@ && sizes@[found as int] == node.size,
                    !hit ==> forall|yy: int| 0 <= yy < y ==> !(names@[buckets@[bk as int]@[yy] as int]@ == key@
                        && sizes@[buckets@[bk as int]@[yy] as int] == node.size),
                decreases buckets@[bk as int]@.len() - y + (if hit { 0int } else { 1int }),
            {
                let gi = buckets[bk][y];
                if sizes[gi] == node.size && chars_eq(&names[gi], &key) {
                    found = gi;
                    hit = true;
                } else {
                    y += 1;
                }
            }
            if hit {
                proof {
                    assert(gv[found as int].name == key@ && gv[found as int].size == node.size);
                    lemma_group_index_found(gv, key@, node.size, found as int);
                }
                let ghost before = members@[found as int]@;
                members[found].push(i);
                proof {
                    let gv2 = group_views(names@, sizes@, members@);
                    assert(members@[found as int]@.map_values(|x: usize| x as int)
                        =~= before.map_values(|x: usize| x as int).push(i as int));
                    assert(gv2 =~= gv.update(found as int, DupGroup { members: gv[found as int].members.push(i as int), ..gv[found as int] }));
                }
            } else {
                proof {
                    assert(y == buckets@[bk as int]@.len());
                    assert forall|a: int| #![trigger gv[a]] 0 <= a < gv.len() implies !(gv[a].name == key@ && gv[a].size == node.size) by {
                        if gv[a].name == key@ && gv[a].size == node.size {
                            assert(gv[a].name == names@[a]@ && gv[a].size == sizes@[a]);
                            assert(names@.len() == names.len());
                            assert((a as usize) as int == a);
                            assert(buckets@[bucket_of(names@[a]@, sizes@[a], nb as int)]@.contains(a as usize));
                            assert(bucket_of(names@[a]@, sizes@[a], nb as int) == bk as int);
                            let yy = choose|yy: int| 0 <= yy < buckets@[bk as int]@.len() && buckets@[bk as int]@[yy] == a as usize;
                            assert(!(names@[buckets@[bk as int]@[yy] as int]@ == key@ && sizes@[buckets@[bk as int]@[yy] as int] == node.size));
                        }
                    }
                    lemma_group_index_absent(gv, key@, node.size);
                }
                let gi = names.len();
                let ghost ob = buckets@;
                let ghost old_names = names@;
                let ghost old_sizes = sizes@;
                names.push(key);
                sizes.push(node.size);
                let mut one: Vec<usize> = Vec::new();
                one.push(i);
                members.push(one);
                buckets[bk].push(gi);
                proof {
                    let gv2 = group_views(names@, sizes@, members@);
                    assert(members@[gi as int]@.map_values(|x: usize| x as int) =~= seq![i as int]);
                    assert(gv2 =~= gv.push(DupGroup { name: lower(nv[i as int].name), size: node.size, members: seq![i as int] }));
                    assert forall|g: int| 0 <= g < names@.len() implies
                        (#[trigger] buckets@[bucket_of(names@[g]@, sizes@[g], nb as int)])@.contains(g as usize) by {
                        let bb = bucket_of(names@[g]@, sizes@[g], nb as int);
                        if g < gi {
                            assert(names@[g] == old_names[g]);
                            assert(sizes@[g] == old_sizes[g]);
                            assert(ob[bb]@.contains(g as usize));
                            let w = choose|w: int| 0 <= w < ob[bb]@.len() && ob[bb]@[w] == g as usize;
                            if bb == bk as int {
                                assert(buckets@[bb]@[w] == g as usize);
                            } else {
                                assert(buckets@[bb] == ob[bb]);
                            }
                        } else {
                            assert(buckets@[bk as int]@[ob[bk as int]@.len() as int] == gi);
                        }
                    }
                    assert forall|x: int, y: int| 0 <= x < nb && 0 <= y < buckets@[x]@.len() implies (#[trigger] buckets@[x]@[y] as int) < names@.len() by {
                        if x == bk as int && y == ob[x]@.len() {
                        } else {
                            assert(buckets@[x]@[y] == ob[x]@[y]);
                        }
                    }
                }
            }
        }
        i += 1;
    }
    (names, sizes, members)
}

/// The groups of files that share their lowercase name and size (see
/// [`spec_duplicates`]), each file with its full path.
pub fn find_duplicate_files(nodes: &Vec<NodeDto>, root_str: &str, min_size: u64, max_results: usize) -> (r: Vec<DuplicateGroup>)
    requires
        parents_acyclic(dto_views(nodes@)),
    ensures
        ({
            let nv = dto_views(nodes@);
            let s = spec_duplicates(nv, min_size, max_results as int);
            &&& r@.len() == s.len()
            &&& forall|k: int| 0 <= k < r@.len() ==> is_group_of(#[trigger] r@[k], s[k], nv, root_str@)
        }),
{
    let ghost nv = dto_views(nodes@);
    if nodes.len() == 0 {
        proof {
            let e = dup_groups(nv, min_size, 0);
            reveal_with_fuel(Seq::<_>::filter, 1);
            assert(e.filter(|g: DupGroup| g.members.len() >= 2) =~= Seq::<DupGroup>::empty());
            lemma_key_order(Seq::<i128>::empty());
            assert(Seq::new(0, |j: int| (-(shared_groups(nv, min_size)[j].members.len() as int)) as i128) =~= Seq::<i128>::empty());
        }
        return Vec::new();
    }
    let (names, sizes, members) = group_files(nodes, min_size);
    let ghost all = group_views(names@, sizes@, members@);
    // the groups with more than one file
    let ghost pred = |g: DupGroup| g.members.len() >= 2;
    let mut shared: Vec<usize> = Vec::new();
    let ghost mut picked: Seq<DupGroup> = seq![];
    let mut g: usize = 0;
    while g < members.len()
        invariant
            g <= members@.len(),
            names@.len() == sizes@.len() && sizes@.len() == members@.len(),
            all == group_views(names@, sizes@, members@),
            pred == (|g: DupGroup| g.members.len() >= 2),
            picked == all.take(g as int).filter(pred),
            shared@.len() == picked.len(),
            forall|k: int| 0 <= k < shared@.len() ==> (#[trigger] shared@[k] as int) < members@.len() && all[shared@[k] as int] == picked[k],
        decreases members@.len() - g,
    {
        proof {
            reveal_with_fuel(Seq::<_>::filter, 1);
            assert(all.take(g + 1).drop_last() =~= all.take(g as int));
        }
        if members[g].len() >= 2 {
            shared.push(g);
            proof { picked = picked.push(all[g as int]); }
        }
        g += 1;
    }
    assert(all.take(g as int) =~= all);
    let ghost d = picked;
    let mut keys: Vec<i128> = Vec::new();
    let mut k: usize = 0;
    while k < shared.len()
        invariant
            k <= shared@.len(),
            shared@.len() == d.len(),
            names@.len() == sizes@.len() && sizes@.len() == members@.len(),
            all == group_views(names@, sizes@, members@),
            forall|x: int| 0 <= x < shared@.len() ==> (#[trigger] shared@[x] as int) < members@.len() && all[shared@[x] as int] == d[x],
            keys@ == Seq::new(d.len(), |j: int| (-(d[j].members.len() as int)) as i128).take(k as int),
        decreases shared@.len() - k,
    {
        assert(d[k as int].members.len() == members@[shared@[k as int] as int]@.len());
        keys.push(-(members[shared[k]].len() as i128));
        k += 1;
        assert(keys@ =~= Seq::new(d.len(), |j: int| (-(d[j].members.len() as int)) as i128).take(k as int));
    }
    assert(keys@ =~= Seq::new(d.len(), |j: int| (-(d[j].members.len() as int)) as i128));
    let mut order = key_order_exec(&keys);
    let ghost full = order@;
    order.truncate(max_results);
    let ghost kept = if full.len() <= max_results { full } else { full.take(max_results as int) };
    assert(order@ =~= kept);
    let ghost target = kept.map_values(|j: usize| d[j as int]);
    let mut r: Vec<DuplicateGroup> = Vec::new();
    let mut x: usize = 0;
    while x < order.len()
        invariant
            x <= order@.len(),
            order@ == kept,
            target == kept.map_values(|j: usize| d[j as int]),
            nv == dto_views(nodes@),
            parents_acyclic(nv),
            shared@.len() == d.len(),
            names@.len() == sizes@.len() && sizes@.len() == members@.len(),
            all == group_views(names@, sizes@, members@),
            forall|y: int| 0 <= y < order@.len() ==> (#[trigger] order@[y] as int) < d.len(),
            forall|z: int| 0 <= z < shared@.len() ==> (#[trigger] shared@[z] as int) < members@.len() && all[shared@[z] as int] == d[z],
            forall|gg: int, m: int| 0 <= gg < members@.len() && 0 <= m < members@[gg]@.len() ==> (#[trigger] members@[gg]@[m] as int) < nodes@.len(),
            r@.len() == x,
            forall|y: int| 0 <= y < x ==> is_group_of(#[trigger] r@[y], target[y], nv, root_str@),
        decreases order@.len() - x,
    {
        let gi = shared[order[x]];
        let ghost grp = d[order@[x as int] as int];
        assert(grp == all[gi as int]);
        let list = &members[gi];
        let mut files: Vec<FileInfo> = Vec::new();
        let mut m: usize = 0;
        while m < list.len()
            invariant
                m <= list@.len(),
                nv == dto_views(nodes@),
                parents_acyclic(nv),
                grp.members == list@.map_values(|q: usize| q as int),
                forall|mm: int| 0 <= mm < list@.len() ==> (#[trigger] list@[mm] as int) < nodes@.len(),
                files@.len() == m,
                forall|mm: int| 0 <= mm < m ==> is_file_info_of(#[trigger] files@[mm], nv[grp.members[mm]],
                    spec_build_path(nv, nv[grp.members[mm]].id, root_str@)),
            decreases list@.len() - m,
        {
            let idx = list[m];
            let node = &nodes[idx];
            proof { assert(chain_ends(nv, node.id)); }
            let path = build_path(node.id, nodes, root_str);
            files.push(FileInfo {
                id: node.id,
                name: node.name.clone(),
                path,
                size: node.size,
                allocated: node.allocated,
                extension: clone_opt_string(&node.extension),
                created: node.created,
                modified: node.modified,
                accessed: node.accessed,
            });
            m += 1;
        }
        let count = list.len();
        let total = match sizes[gi].checked_mul(count as u64) {
            Some(t) => t,
            None => u64::MAX,
        };
        let item = DuplicateGroup {
            file_name: string_from_chars(&names[gi]),
            size: sizes[gi],
            file_count: count,
            total_size: total,
            files,
            truncated: None,
        };
        r.push(item);
        x += 1;
    }
    proof {
        lemma_dup_spec(nv, min_size, max_results as int, all, d, kept, full);
    }
    r
}

proof fn lemma_dup_spec(nv: Seq<NodeView>, min_size: u64, max_results: int, all: Seq<DupGroup>, d: Seq<DupGroup>,
    kept: Seq<usize>, full: Seq<usize>)
    requires
        all == dup_groups(nv, min_size, nv.len() as int),
        d == all.filter(|g: DupGroup| g.members.len() >= 2),
        full == key_order(Seq::new(d.len(), |j: int| (-(d[j].members.len() as int)) as i128)),
        kept == (if full.len() <= max_results { full } else { full.take(max_results) }),
    ensures
        spec_duplicates(nv, min_size, max_results) == kept.map_values(|j: usize| d[j as int]),
{
}

} // verus!
