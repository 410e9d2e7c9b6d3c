//! Space used per file extension.
use vstd::prelude::*;
use crate::models::{ExtensionStat, NodeDto};
use crate::order::{key_order, key_order_exec, lemma_key_order};
use crate::text::{lower, lower_chars, string_from_chars};
use crate::tree::{NodeView, dto_views};

verus! {

/// The most extensions listed.
pub const MAX_EXTENSIONS: usize = 100;

/// The key files without an extension are counted under.
pub open spec fn no_extension_key() -> Seq<char> {
    "(无扩展名)"@
}

/// The key a file is counted under: its lowercase extension, or
/// [`no_extension_key`] where it has none or an empty one.
pub open spec fn ext_key(n: NodeView) -> Seq<char> {
    match n.extension {
        Some(e) => if e.len() > 0 { lower(e) } else { no_extension_key() },
        None => no_extension_key(),
    }
}

/// The totals of one extension.
pub struct StatView {
    pub extension: Seq<char>,
    pub size: u64,
    pub allocated: u64,
    pub file_count: u64,
}

pub open spec fn stat_view(s: ExtensionStat) -> StatView {
    StatView { extension: s.extension@, size: s.size, allocated: s.allocated, file_count: s.file_count }
}

pub open spec fn stat_views(s: Seq<ExtensionStat>) -> Seq<StatView> {
    s.map_values(|x: ExtensionStat| stat_view(x))
}

/// The position of the entry for `key` in `g`, or -1.
pub open spec fn key_index(g: Seq<StatView>, key: Seq<char>) -> int
    decreases g.len(),
{
    if g.len() == 0 {
        -1
    } else {
        let r = key_index(g.drop_last(), key);
        if r >= 0 { r } else if g.last().extension == key { g.len() - 1 } else { -1 }
    }
}

/// Adds file `n` to the totals `s`: sizes saturate, the count grows by one.
pub open spec fn add_file(s: StatView, n: NodeView) -> StatView {
    StatView {
        extension: s.extension,
        size: if s.size + n.total_size > u64::MAX { u64::MAX } else { (s.size + n.total_size) as u64 },
        allocated: if s.allocated + n.total_allocated > u64::MAX { u64::MAX } else { (s.allocated + n.total_allocated) as u64 },
        file_count: (s.file_count + 1) as u64,
    }
}

/// The totals per extension of the files among `nodes[..k]`, in the order in
/// which each extension first occurs.
pub open spec fn ext_groups(nodes: Seq<NodeView>, k: int) -> Seq<StatView>
    decreases k,
{
    if k <= 0 {
        seq![]
    } else {
        let g = ext_groups(nodes, k - 1);
        let n = nodes[k - 1];
        if n.is_dir {
            g
        } else {
            let j = key_index(g, ext_key(n));
            if j >= 0 {
                g.update(j, add_file(g[j], n))
            } else {
                g.push(add_file(StatView { extension: ext_key(n), size: 0, allocated: 0, file_count: 0 }, n))
            }
        }
    }
}

/// The statistics listed: the per-extension totals ordered by allocated
/// bytes, largest first (ties in first-occurrence order), at most
/// [`MAX_EXTENSIONS`] of them.
pub open spec fn spec_extension_stats(nodes: Seq<NodeView>) -> Seq<StatView> {
    let g = ext_groups(nodes, nodes.len() as int);
    let order = key_order(Seq::new(g.len(), |j: int| (-(g[j].allocated as int)) as i128));
    let kept = if order.len() <= MAX_EXTENSIONS { order } else { order.take(MAX_EXTENSIONS as int) };
    kept.map_values(|j: usize| g[j as int])
}

proof fn lemma_key_index_bounds(g: Seq<StatView>, key: Seq<char>)
    ensures
        -1 <= key_index(g, key) < g.len(),
        key_index(g, key) >= 0 ==> g[key_index(g, key)].extension == key,
        key_index(g, key) == -1 ==> forall|j: int| 0 <= j < g.len() ==> (#[trigger] g[j]).extension != key,
    decreases g.len(),
{
    if g.len() > 0 {
        lemma_key_index_bounds(g.drop_last(), key);
        assert forall|j: int| 0 <= j < g.len() - 1 implies #[trigger] g[j] == g.drop_last()[j] by {}
    }
}

proof fn lemma_ext_groups_counts(nodes: Seq<NodeView>, k: int)
    requires
        0 <= k <= nodes.len(),
    ensures
        forall|j: int| 0 <= j < ext_groups(nodes, k).len() ==> (#[trigger] ext_groups(nodes, k)[j]).file_count <= k,
    decreases k,
{
    if k > 0 {
        lemma_ext_groups_counts(nodes, k - 1);
        let g = ext_groups(nodes, k - 1);
        lemma_key_index_bounds(g, ext_key(nodes[k - 1]));
    }
}

fn ext_key_exec(node: &NodeDto) -> (r: Vec<char>)
    ensures
        r@ == ext_key(node@),
{
    match &node.extension {
        Some(e) => {
            let l = lower_chars(e.as_str());
            if l.len() > 0 {
                return l;
            }
        },
        None => {},
    }
    let v = crate::text::chars_of("(无扩展名)");
    v
}

fn chars_eq(a: &Vec<char>, b: &Vec<char>) -> (r: bool)
    ensures
        r == (a@ == b@),
{
    if a.len() != b.len() {
        return false;
    }
    let mut i: usize = 0;
    while i < a.len()
        invariant
            i <= a@.len(),
            a@.len() == b@.len(),
            forall|j: int| 0 <= j < i ==> a@[j] == b@[j],
        decreases a@.len() - i,
    {
        if a[i] != b[i] {
            return false;
        }
        i += 1;
    }
    assert(a@ =~= b@);
    true
}

/// The per-extension totals of the files of a scan (see
/// [`spec_extension_stats`]).
pub fn get_extension_stats(nodes: &Vec<NodeDto>) -> (r: Vec<ExtensionStat>)
    ensures
        stat_views(r@) == spec_extension_stats(dto_views(nodes@)),
{
    let ghost nv = dto_views(nodes@);
    let mut groups: Vec<ExtensionStat> = Vec::new();
    let mut keys: Vec<Vec<char>> = Vec::new();
    let mut i: usize = 0;
    while i < nodes.len()
        invariant
            i <= nodes@.len(),
            nv == dto_views(nodes@),
            keys@.len() == groups@.len(),
            forall|j: int| 0 <= j < keys@.len() ==> (#[trigger] keys@[j])@ == groups@[j].extension@,
            stat_views(groups@) == ext_groups(nv, i as int),
        decreases nodes@.len() - i,
    {
        proof { lemma_ext_groups_counts(nv, i as int); }
        let node = &nodes[i];
        if !node.is_dir {
            let key = ext_key_exec(node);
            let ghost g = stat_views(groups@);
            proof { lemma_key_index_bounds(g, key@); }
            let mut j: usize = 0;
            let mut found = false;
            while j < keys.len() && !found
                invariant
                    j <= keys@.len(),
                    keys@.len() == groups@.len(),
                    g == stat_views(groups@),
                    g.len() == groups@.len(),
                    forall|x: int| 0 <= x < keys@.len() ==> (#[trigger] keys@[x])@ == groups@[x].extension@,
                    !found ==> key_index(g.take(j as int), key@) == -1,
                    found ==> j < keys@.len() && key_index(g, key@) == j,
                decreases keys@.len() - j + (if found { 0int } else { 1int }),
            {
                if chars_eq(&keys[j], &key) {
                    proof {
                        assert(g[j as int] == stat_view(groups@[j as int]));
                        lemma_key_key_index_prefix(g, key@, j as int);
                    }
                    found = true;
                } else {
                    proof {
                        assert(g[j as int] == stat_view(groups@[j as int]));
                        assert(g.take(j + 1).drop_last() =~= g.take(j as int));
                        assert(g.take(j + 1).last() == g[j as int]);
                    }
                    j += 1;
                }
            }
            if found {
                proof {
                    assert(g[j as int].file_count <= i);
                }
                let old_stat = &groups[j];
                let updated = ExtensionStat {
                    extension: old_stat.extension.clone(),
                    size: old_stat.size.saturating_add(node.total_size),
                    allocated: old_stat.allocated.saturating_add(node.total_allocated),
                    file_count: old_stat.file_count + 1,
                };
                groups.set(j, updated);
                proof {
                    assert(stat_views(groups@) =~= g.update(j as int, add_file(g[j as int], nv[i as int])));
                }
            } else {
                proof {
                    assert(g.take(j as int) =~= g);
                }
                let stat = ExtensionStat {
                    extension: string_from_chars(&key),
                    size: 0u64.saturating_add(node.total_size),
                    allocated: 0u64.saturating_add(node.total_allocated),
                    file_count: 1,
                };
                groups.push(stat);
                keys.push(key);
                proof {
                    assert(stat_views(groups@) =~= g.push(add_file(
                        StatView { extension: ext_key(nv[i as int]), size: 0, allocated: 0, file_count: 0 }, nv[i as int])));
                }
            }
        }
        i += 1;
    }
    let ghost g = stat_views(groups@);
    let mut sort_keys: Vec<i128> = Vec::new();
    let mut k: usize = 0;
    while k < groups.len()
        invariant
            k <= groups@.len(),
            g == stat_views(groups@),
            sort_keys@ == Seq::new(g.len(), |j: int| (-(g[j].allocated as int)) as i128).take(k as int),
        decreases groups@.len() - k,
    {
        sort_keys.push(-(groups[k].allocated as i128));
        k += 1;
        assert(sort_keys@ =~= Seq::new(g.len(), |j: int| (-(g[j].allocated as int)) as i128).take(k as int));
    }
    assert(sort_keys@ =~= Seq::new(g.len(), |j: int| (-(g[j].allocated as int)) as i128));
    let mut order = key_order_exec(&sort_keys);
    let ghost full = order@;
    order.truncate(MAX_EXTENSIONS);
    let ghost kept = if full.len() <= MAX_EXTENSIONS { full } else { full.take(MAX_EXTENSIONS as int) };
    assert(order@ =~= kept);
    let mut r: Vec<ExtensionStat> = Vec::new();
    let mut x: usize = 0;
    while x < order.len()
        invariant
            x <= order@.len(),
            order@ == kept,
            g == stat_views(groups@),
            forall|y: int| 0 <= y < order@.len() ==> (#[trigger] order@[y] as int) < groups@.len(),
            stat_views(r@) == kept.take(x as int).map_values(|j: usize| g[j as int]),
        decreases order@.len() - x,
    {
        let s = &groups[order[x]];
        let ghost before = r@;
        let stat = ExtensionStat {
            extension: s.extension.clone(),
            size: s.size,
            allocated: s.allocated,
            file_count: s.file_count,
        };
        assert(stat_view(stat) == g[order@[x as int] as int]);
        r.push(stat);
        assert(stat_views(r@) =~= stat_views(before).push(stat_view(stat)));
        assert(kept.take(x + 1).map_values(|j: usize| g[j as int])
            =~= kept.take(x as int).map_values(|j: usize| g[j as int]).push(g[kept[x as int] as int]));
        x += 1;
    }
    assert(kept.take(x as int) =~= kept);
    r
}

proof fn lemma_key_key_index_prefix(g: Seq<StatView>, key: Seq<char>, j: int)
    requires
        0 <= j < g.len(),
        key_index(g.take(j), key) == -1,
        g[j].extension == key,
    ensures
        key_index(g, key) == j,
    decreases g.len(),
{
    if g.len() - 1 > j {
        assert(g.drop_last().take(j) =~= g.take(j));
        lemma_key_key_index_prefix(g.drop_last(), key, j);
    } else {
        assert(g.drop_last() =~= g.take(j));
    }
}

/// What node `n` adds to the totals of extension key `key`: for a file (a
/// node that is not a directory) counted under `key`, its total size
/// (`fld` 0), its allocated total (`fld` 1) or one file (`fld` 2); else 0.
pub open spec fn file_part(n: NodeView, key: Seq<char>, fld: int) -> int {
    if !n.is_dir && ext_key(n) == key {
        if fld == 0 { n.total_size as int } else if fld == 1 { n.total_allocated as int } else { 1 }
    } else {
        0
    }
}

/// The sum of [`file_part`] over `nodes[..k]`.
pub open spec fn ext_total(nodes: Seq<NodeView>, key: Seq<char>, k: int, fld: int) -> int
    decreases k,
{
    if k <= 0 { 0 } else { ext_total(nodes, key, k - 1, fld) + file_part(nodes[k - 1], key, fld) }
}

/// `x`, capped at `u64::MAX`.
pub open spec fn capped(x: int) -> int {
    if x > u64::MAX { u64::MAX as int } else { x }
}

/// Whether `s` holds the totals of the files among `nodes[..k]` counted under its extension.
pub open spec fn group_totals(nodes: Seq<NodeView>, k: int, s: StatView) -> bool {
    &&& s.size as int == capped(ext_total(nodes, s.extension, k, 0))
    &&& s.allocated as int == capped(ext_total(nodes, s.extension, k, 1))
    &&& s.file_count as int == ext_total(nodes, s.extension, k, 2)
    &&& s.file_count > 0
}

proof fn lemma_ext_total_nonneg(nodes: Seq<NodeView>, key: Seq<char>, k: int, fld: int)
    ensures
        0 <= ext_total(nodes, key, k, fld),
        fld == 2 ==> ext_total(nodes, key, k, fld) <= if k < 0 { 0 } else { k },
    decreases k,
{
    if k > 0 {
        lemma_ext_total_nonneg(nodes, key, k - 1, fld);
    }
}

proof fn lemma_ext_groups_totals(nodes: Seq<NodeView>, k: int)
    requires
        0 <= k <= nodes.len(),
        nodes.len() <= u64::MAX,
    ensures
        ext_groups(nodes, k).len() <= k,
        forall|a: int, b: int| 0 <= a < b < ext_groups(nodes, k).len() ==>
            (#[trigger] ext_groups(nodes, k)[a]).extension != (#[trigger] ext_groups(nodes, k)[b]).extension,
        forall|j: int| 0 <= j < ext_groups(nodes, k).len() ==> group_totals(nodes, k, #[trigger] ext_groups(nodes, k)[j]),
        forall|key: Seq<char>, fld: int| key_index(ext_groups(nodes, k), key) == -1 ==> #[trigger] ext_total(nodes, key, k, fld) == 0,
    decreases k,
{
    if k > 0 {
        lemma_ext_groups_totals(nodes, k - 1);
        let g = ext_groups(nodes, k - 1);
        let g2 = ext_groups(nodes, k);
        let n = nodes[k - 1];
        let kk = ext_key(n);
        lemma_key_index_bounds(g, kk);
        assert forall|key: Seq<char>, fld: int| #[trigger] ext_total(nodes, key, k, fld)
            == ext_total(nodes, key, k - 1, fld) + file_part(n, key, fld) by {}
        assert forall|j: int| 0 <= j < g.len() implies (#[trigger] g[j]).file_count <= k - 1 by {
            lemma_ext_total_nonneg(nodes, g[j].extension, k - 1, 2);
        }
        if n.is_dir {
            assert(g2 == g);
            assert forall|j: int| 0 <= j < g2.len() implies group_totals(nodes, k, #[trigger] g2[j]) by {
                assert(group_totals(nodes, k - 1, g[j]));
            }
            assert forall|key: Seq<char>, fld: int| key_index(g2, key) == -1 implies #[trigger] ext_total(nodes, key, k, fld) == 0 by {
                assert(ext_total(nodes, key, k - 1, fld) == 0);
            }
        } else {
            let j = key_index(g, kk);
            if j >= 0 {
                assert(g2 == g.update(j, add_file(g[j], n)));
                assert forall|x: int| 0 <= x < g2.len() implies group_totals(nodes, k, #[trigger] g2[x]) by {
                    assert(group_totals(nodes, k - 1, g[x]));
                    lemma_ext_total_nonneg(nodes, g[x].extension, k - 1, 0);
                    lemma_ext_total_nonneg(nodes, g[x].extension, k - 1, 1);
                    if x != j {
                        assert(g[x].extension != g[j].extension);
                        assert(g2[x] == g[x]);
                    }
                }
                assert forall|key: Seq<char>, fld: int| key_index(g2, key) == -1 implies #[trigger] ext_total(nodes, key, k, fld) == 0 by {
                    lemma_key_index_bounds(g2, key);
                    lemma_key_index_bounds(g, key);
                    if key_index(g, key) >= 0 {
                        assert(g2[key_index(g, key)].extension == key);
                    }
                    assert(g2[j].extension == kk);
                    assert(ext_total(nodes, key, k - 1, fld) == 0);
                }
            } else {
                let fresh = add_file(StatView { extension: kk, size: 0, allocated: 0, file_count: 0 }, n);
                assert(g2 == g.push(fresh));
                assert(ext_total(nodes, kk, k - 1, 0) == 0);
                assert(ext_total(nodes, kk, k - 1, 1) == 0);
                assert(ext_total(nodes, kk, k - 1, 2) == 0);
                assert forall|x: int| 0 <= x < g2.len() implies group_totals(nodes, k, #[trigger] g2[x]) by {
                    if x < g.len() {
                        assert(group_totals(nodes, k - 1, g[x]));
                        assert(g[x].extension != kk);
                        assert(g2[x] == g[x]);
                    }
                }
                assert forall|a: int, b: int| 0 <= a < b < g2.len() implies
                    (#[trigger] g2[a]).extension != (#[trigger] g2[b]).extension by {
                    if b == g.len() {
                        assert(g[a].extension != kk);
                    } else {
                        assert(g2[a] == g[a] && g2[b] == g[b]);
                    }
                }
                assert forall|key: Seq<char>, fld: int| key_index(g2, key) == -1 implies #[trigger] ext_total(nodes, key, k, fld) == 0 by {
                    lemma_key_index_bounds(g2, key);
                    lemma_key_index_bounds(g, key);
                    if key_index(g, key) >= 0 {
                        assert(g2[key_index(g, key)].extension == key);
                    }
                    assert(g2[g.len() as int].extension == kk);
                    assert(ext_total(nodes, key, k - 1, fld) == 0);
                }
            }
        }
    }
}

/// Law: each extension listed carries the totals of exactly the files (nodes
/// that are not directories) counted under it (see [`ext_key`]): its size is
/// the sum of their total sizes and its allocated size the sum of their
/// allocated totals, each capped at `u64::MAX`, and its file count is their
/// number, at least one; no extension is listed twice.
pub proof fn law_extension_totals(nodes: Seq<NodeView>)
    requires
        nodes.len() <= usize::MAX,
    ensures
        forall|k: int| 0 <= k < spec_extension_stats(nodes).len() ==> {
            let e = #[trigger] spec_extension_stats(nodes)[k];
            &&& e.size as int == capped(ext_total(nodes, e.extension, nodes.len() as int, 0))
            &&& e.allocated as int == capped(ext_total(nodes, e.extension, nodes.len() as int, 1))
            &&& e.file_count as int == ext_total(nodes, e.extension, nodes.len() as int, 2)
            &&& e.file_count > 0
        },
        forall|a: int, b: int| 0 <= a < b < spec_extension_stats(nodes).len() ==>
            (#[trigger] spec_extension_stats(nodes)[a]).extension != (#[trigger] spec_extension_stats(nodes)[b]).extension,
{
    let n = nodes.len() as int;
    lemma_ext_groups_totals(nodes, n);
    let g = ext_groups(nodes, n);
    let keys = Seq::new(g.len(), |j: int| (-(g[j].allocated as int)) as i128);
    lemma_key_order(keys);
    let order = key_order(keys);
    let kept = if order.len() <= MAX_EXTENSIONS { order } else { order.take(MAX_EXTENSIONS as int) };
    let res = spec_extension_stats(nodes);
    assert(res == kept.map_values(|j: usize| g[j as int]));
    assert forall|k: int| 0 <= k < res.len() implies {
        let e = #[trigger] res[k];
        &&& e.size as int == capped(ext_total(nodes, e.extension, n, 0))
        &&& e.allocated as int == capped(ext_total(nodes, e.extension, n, 1))
        &&& e.file_count as int == ext_total(nodes, e.extension, n, 2)
        &&& e.file_count > 0
    } by {
        assert(kept[k] == order[k]);
        assert(res[k] == g[order[k] as int]);
        assert(group_totals(nodes, n, g[order[k] as int]));
    }
    assert forall|a: int, b: int| 0 <= a < b < res.len() implies
        (#[trigger] res[a]).extension != (#[trigger] res[b]).extension by {
        assert(kept[a] == order[a] && kept[b] == order[b]);
        assert(res[a] == g[order[a] as int] && res[b] == g[order[b] as int]);
        assert(order[a] != order[b]);
        let x = order[a] as int;
        let y = order[b] as int;
        if x < y {
            assert(g[x].extension != g[y].extension);
        } else {
            assert(g[y].extension != g[x].extension);
        }
    }
}

} // verus!
