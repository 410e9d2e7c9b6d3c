//! The directory tree of a scan: nodes, size aggregation from the leaves up,
//! and the order in which children are listed.
use vstd::prelude::*;
use vstd::set_lib::{set_int_range, lemma_int_range, lemma_len_subset};
use crate::models::NodeDto;
use crate::text::{lower, lower_chars, lex_less, lex_less_exec, string_from_chars};

verus! {

/// A file or directory while the tree is being built; `id` is its index.
#[derive(Debug, Clone)]
pub struct TreeNode {
    pub id: u32,
    pub parent: Option<u32>,
    pub name: String,
    pub is_dir: bool,
    pub size: u64,
    pub allocated: u64,
    pub total_size: u64,
    pub total_allocated: u64,
    pub children: Vec<u32>,
    pub file_count: u64,
    pub dir_count: u64,
    pub extension: Option<String>,
    pub created: Option<i64>,
    pub modified: Option<i64>,
    pub accessed: Option<i64>,
}

/// The mathematical content of a tree node.
pub struct NodeView {
    pub id: u32,
    pub parent: Option<u32>,
    pub name: Seq<char>,
    pub is_dir: bool,
    pub size: u64,
    pub allocated: u64,
    pub total_size: u64,
    pub total_allocated: u64,
    pub children: Seq<u32>,
    pub file_count: u64,
    pub dir_count: u64,
    pub extension: Option<Seq<char>>,
    pub created: Option<i64>,
    pub modified: Option<i64>,
    pub accessed: Option<i64>,
}

impl View for TreeNode {
    type V = NodeView;

    open spec fn view(&self) -> NodeView {
        NodeView {
            id: self.id,
            parent: self.parent,
            name: self.name@,
            is_dir: self.is_dir,
            size: self.size,
            allocated: self.allocated,
            total_size: self.total_size,
            total_allocated: self.total_allocated,
            children: self.children@,
            file_count: self.file_count,
            dir_count: self.dir_count,
            extension: opt_string_view(self.extension),
            created: self.created,
            modified: self.modified,
            accessed: self.accessed,
        }
    }
}

/// The views of a sequence of nodes.
pub open spec fn views(nodes: Seq<TreeNode>) -> Seq<NodeView> {
    nodes.map_values(|n: TreeNode| n@)
}

pub open spec fn opt_string_view(o: Option<String>) -> Option<Seq<char>> {
    match o { Some(s) => Some(s@), None => None }
}

/// Whether a name holds no `/`, `\` or `:`, so that every platform reads it
/// as one file name.
pub open spec fn plain_name(name: Seq<char>) -> bool {
    !name.contains('/') && !name.contains('\\') && !name.contains(':')
}

/// The position of the last `.` in `s`, or -1 when it has none.
pub open spec fn last_dot(s: Seq<char>) -> int
    decreases s.len(),
{
    if s.len() == 0 {
        -1
    } else if s.last() == '.' {
        s.len() - 1
    } else {
        last_dot(s.drop_last())
    }
}

/// The extension of a file name as `std::path::Path::extension` documents
/// it: none for `..`, for a name without a `.`, or for one whose only `.` is
/// its first character; otherwise what follows the last `.`.
pub open spec fn file_name_extension(name: Seq<char>) -> Option<Seq<char>> {
    if name == ".."@ || last_dot(name) <= 0 {
        None
    } else {
        Some(name.subrange(last_dot(name) + 1, name.len() as int))
    }
}

/// The extension of a path, read with `std::path::Path::extension`.
/// Trusted: for a plain name (see [`plain_name`]) the contract states the
/// rule of the function's documentation; for other names, whose file name
/// depends on the platform's separators and prefixes, it states only what
/// holds on every platform: a name without a `.` has no extension, and an
/// extension, following the last `.` of the file name, holds no `.`.
#[verifier::external_body]
fn path_extension_of(name: &str) -> (r: Option<String>)
    ensures
        plain_name(name@) ==> opt_string_view(r) == file_name_extension(name@),
        !name@.contains('.') ==> r is None,
        r matches Some(e) ==> !e@.contains('.'),
{
    match std::path::Path::new(name).extension() {
        Some(e) => e.to_str().map(String::from),
        None => None,
    }
}

/// The lowercase extension of a plain file name, `None` when it has none or
/// it is empty.
pub open spec fn spec_extension_of(name: Seq<char>) -> Option<Seq<char>> {
    match file_name_extension(name) {
        Some(e) => if e.len() == 0 { None } else { Some(lower(e)) },
        None => None,
    }
}

/// The extension a node carries: none for a directory; for a file with a
/// plain name, its lowercase extension when it has a non-empty one; for other
/// names, none or a non-empty lowercase text without a `.`.
pub open spec fn extension_rule(is_dir: bool, name: Seq<char>, ext: Option<Seq<char>>) -> bool {
    if is_dir {
        ext is None
    } else if plain_name(name) {
        ext == spec_extension_of(name)
    } else {
        ext matches Some(e) ==> e.len() > 0 && !e.contains('.') && lower(e) == e
    }
}

proof fn lemma_lower_keeps(e: Seq<char>)
    requires
        !e.contains('.'),
    ensures
        !lower(e).contains('.'),
        lower(lower(e)) == lower(e),
{
    assert forall|i: int| 0 <= i < lower(e).len() implies lower(e)[i] != '.' by {
        assert(e[i] != '.');
    }
    assert(lower(lower(e)) =~= lower(e));
}

/// The lowercase extension of a file name, `None` when it has none or it is
/// empty (see [`extension_rule`]).
pub fn extension_of(name: &str) -> (r: Option<String>)
    ensures
        extension_rule(false, name@, opt_string_view(r)),
{
    match path_extension_of(name) {
        Some(e) => {
            let l = lower_chars(e.as_str());
            proof { lemma_lower_keeps(e@); }
            if l.len() == 0 {
                None
            } else {
                Some(string_from_chars(&l))
            }
        },
        None => None,
    }
}

impl TreeNode {
    /// The root directory of a tree: id 0, no parent, nothing counted yet.
    pub fn root(name: String) -> (r: Self)
        ensures
            r.id == 0,
            r.parent is None,
            r.name@ == name@,
            r.is_dir,
            r.size == 0 && r.allocated == 0 && r.total_size == 0 && r.total_allocated == 0,
            r.children@.len() == 0,
            r.file_count == 0 && r.dir_count == 0,
            r.extension is None,
            r.created is None && r.modified is None && r.accessed is None,
    {
        TreeNode {
            id: 0,
            parent: None,
            name,
            is_dir: true,
            size: 0,
            allocated: 0,
            total_size: 0,
            total_allocated: 0,
            children: Vec::new(),
            file_count: 0,
            dir_count: 0,
            extension: None,
            created: None,
            modified: None,
            accessed: None,
        }
    }

    /// A node without children whose totals are its own size and counts: one
    /// file, or one directory; files carry their lowercase extension.
    pub fn new(
        id: u32,
        name: String,
        parent: Option<u32>,
        is_dir: bool,
        size: u64,
        allocated: u64,
        created: Option<i64>,
        modified: Option<i64>,
        accessed: Option<i64>,
    ) -> (r: Self)
        ensures
            r.id == id,
            r.parent == parent,
            r.name@ == name@,
            r.is_dir == is_dir,
            r.size == size && r.allocated == allocated,
            r.total_size == size && r.total_allocated == allocated,
            r.children@.len() == 0,
            r.file_count == (if is_dir { 0u64 } else { 1u64 }),
            r.dir_count == (if is_dir { 1u64 } else { 0u64 }),
            extension_rule(is_dir, name@, opt_string_view(r.extension)),
            r.created == created && r.modified == modified && r.accessed == accessed,
    {
        let extension = if is_dir { None } else { extension_of(name.as_str()) };
        TreeNode {
            id,
            parent,
            extension,
            name,
            is_dir,
            size,
            allocated,
            total_size: size,
            total_allocated: allocated,
            children: Vec::new(),
            file_count: if is_dir { 0 } else { 1 },
            dir_count: if is_dir { 1 } else { 0 },
            created,
            modified,
            accessed,
        }
    }
}


// ---------------------------------------------------------------------------
// Dropping dangling and self references

/// The children of node `i` of an `n`-node tree that name an existing node other than `i`.
pub open spec fn kept_children(ch: Seq<u32>, i: int, n: int) -> Seq<u32> {
    ch.filter(keep_child(i, n))
}

/// Whether a child id names an existing node of an `n`-node tree other than `i`.
pub open spec fn keep_child(i: int, n: int) -> spec_fn(u32) -> bool {
    |c: u32| (c as int) < n && c as int != i
}

/// Whether `b` is `a` with other children and totals.
pub open spec fn same_entry(a: NodeView, b: NodeView) -> bool {
    &&& a.id == b.id
    &&& a.parent == b.parent
    &&& a.name == b.name
    &&& a.is_dir == b.is_dir
    &&& a.size == b.size
    &&& a.allocated == b.allocated
    &&& a.extension == b.extension
    &&& a.created == b.created
    &&& a.modified == b.modified
    &&& a.accessed == b.accessed
}

/// Whether `b` is `a` with other children.
pub open spec fn same_but_children(a: NodeView, b: NodeView) -> bool {
    &&& same_entry(a, b)
    &&& a.total_size == b.total_size
    &&& a.total_allocated == b.total_allocated
    &&& a.file_count == b.file_count
    &&& a.dir_count == b.dir_count
}

fn filter_children(ch: &Vec<u32>, i: usize, n: usize) -> (r: Vec<u32>)
    ensures
        r@ == kept_children(ch@, i as int, n as int),
{
    let ghost pred = keep_child(i as int, n as int);
    let mut r: Vec<u32> = Vec::new();
    let mut k: usize = 0;
    while k < ch.len()
        invariant
            k <= ch@.len(),
            pred == keep_child(i as int, n as int),
            r@ == ch@.take(k as int).filter(pred),
        decreases ch@.len() - k,
    {
        proof {
            reveal_with_fuel(Seq::<_>::filter, 1);
            assert(ch@.take(k + 1).drop_last() =~= ch@.take(k as int));
        }
        let c = ch[k];
        if (c as usize) < n && c as usize != i {
            r.push(c);
        }
        k += 1;
    }
    assert(ch@.take(k as int) =~= ch@);
    r
}

pub(crate) fn retain_children(nodes: &mut Vec<TreeNode>)
    ensures
        views(final(nodes)@) == retained(views(old(nodes)@)),
{
    let n = nodes.len();
    let mut i: usize = 0;
    while i < n
        invariant
            i <= n,
            nodes@.len() == n,
            n == old(nodes)@.len(),
            forall|j: int| 0 <= j < n ==> same_but_children(#[trigger] old(nodes)@[j]@, nodes@[j]@),
            forall|j: int| 0 <= j < i ==> (#[trigger] nodes@[j]).children@
                == kept_children(old(nodes)@[j].children@, j, n as int),
            forall|j: int| i <= j < n ==> (#[trigger] nodes@[j]).children@ == old(nodes)@[j].children@,
        decreases n - i,
    {
        let kept = filter_children(&nodes[i].children, i, n);
        nodes[i].children = kept;
        i += 1;
    }
    proof {
        assert forall|j: int| 0 <= j < n implies #[trigger] views(nodes@)[j] == retained(views(old(nodes)@))[j] by {
            assert(same_but_children(old(nodes)@[j]@, nodes@[j]@));
        }
        assert(views(nodes@) =~= retained(views(old(nodes)@)));
    }
}

// ---------------------------------------------------------------------------
// Breadth-first discovery from the root

/// The queue of a breadth-first walk over the child lists `ch` once it has
/// finished, continuing from the state where `queue[head]` is being expanded
/// at its `k`-th child. A child is queued when it names an existing node that
/// is not queued yet.
pub open spec fn bfs_from(ch: Seq<Seq<u32>>, queue: Seq<usize>, head: int, k: int) -> Seq<usize>
    decreases ch.len() - queue.len(), queue.len() - head, ch[queue[head] as int].len() - k,
{
    if head < 0 || head >= queue.len() || queue.len() > ch.len() || k < 0 {
        queue
    } else {
        let cs = ch[queue[head] as int];
        if k >= cs.len() {
            bfs_from(ch, queue, head + 1, 0)
        } else {
            let c = cs[k];
            if (c as int) < ch.len() && !queue.contains(c as usize) && queue.len() < ch.len() {
                bfs_from(ch, queue.push(c as usize), head, k + 1)
            } else {
                bfs_from(ch, queue, head, k + 1)
            }
        }
    }
}

/// The nodes reachable from the root, in breadth-first discovery order.
pub open spec fn bfs_order(ch: Seq<Seq<u32>>) -> Seq<usize> {
    bfs_from(ch, seq![0usize], 0, 0)
}

pub(crate) proof fn lemma_distinct_bounded(q: Seq<usize>, n: int)
    requires
        q.no_duplicates(),
        forall|j: int| 0 <= j < q.len() ==> (#[trigger] q[j] as int) < n,
        n >= 0,
    ensures
        q.len() <= n,
{
    let qi = q.map_values(|x: usize| x as int);
    assert(qi.no_duplicates()) by {
        assert forall|a: int, b: int| 0 <= a < qi.len() && 0 <= b < qi.len() && a != b implies qi[a] != qi[b] by {
            assert(q[a] != q[b]);
        }
    }
    qi.unique_seq_to_set();
    lemma_int_range(0, n);
    assert forall|x: int| qi.to_set().contains(x) implies set_int_range(0, n).contains(x) by {
        let j = choose|j: int| 0 <= j < qi.len() && qi[j] == x;
        assert(q[j] as int == x);
    }
    lemma_len_subset(qi.to_set(), set_int_range(0, n));
}

fn breadth_first_order(nodes: &Vec<TreeNode>) -> (order: Vec<usize>)
    requires
        nodes@.len() >= 1,
    ensures
        order@ == bfs_order(Seq::new(nodes@.len(), |i: int| nodes@[i].children@)),
        forall|x: int| 0 <= x < order@.len() ==> (#[trigger] order@[x] as int) < nodes@.len(),
{
    let n = nodes.len();
    let ghost ch = Seq::new(nodes@.len(), |i: int| nodes@[i].children@);
    let mut visited: Vec<bool> = Vec::new();
    let mut j: usize = 0;
    while j < n
        invariant
            j <= n,
            visited@.len() == j,
            forall|x: int| 0 <= x < j ==> visited@[x] == (x == 0),
        decreases n - j,
    {
        visited.push(j == 0);
        j += 1;
    }
    let mut queue: Vec<usize> = Vec::new();
    queue.push(0);
    proof {
        assert forall|x: int| 0 <= x < n implies (#[trigger] visited@[x] <==> queue@.contains(x as usize)) by {
            if x == 0 { assert(queue@[0] == 0); }
        }
    }
    let mut head: usize = 0;
    while head < queue.len()
        invariant
            n == nodes@.len(),
            n >= 1,
            ch == Seq::new(nodes@.len(), |i: int| nodes@[i].children@),
            visited@.len() == n,
            head <= queue@.len(),
            queue@.len() <= n,
            queue@.no_duplicates(),
            forall|x: int| 0 <= x < queue@.len() ==> (#[trigger] queue@[x] as int) < n,
            forall|x: int| 0 <= x < n ==> (#[trigger] visited@[x] <==> queue@.contains(x as usize)),
            bfs_order(ch) == bfs_from(ch, queue@, head as int, 0),
        decreases n - queue@.len(), queue@.len() - head,
    {
        proof { lemma_distinct_bounded(queue@, n as int); }
        let p = queue[head];
        let cs = &nodes[p].children;
        let mut k: usize = 0;
        let ghost qlen0 = queue@.len();
        while k < cs.len()
            invariant
                queue@.len() >= qlen0,
                n == nodes@.len(),
                n >= 1,
                ch == Seq::new(nodes@.len(), |i: int| nodes@[i].children@),
                visited@.len() == n,
                head < queue@.len(),
                queue@[head as int] == p,
                p < n,
                cs@ == ch[p as int],
                k <= cs@.len(),
                queue@.len() <= n,
                queue@.no_duplicates(),
                forall|x: int| 0 <= x < queue@.len() ==> (#[trigger] queue@[x] as int) < n,
                forall|x: int| 0 <= x < n ==> (#[trigger] visited@[x] <==> queue@.contains(x as usize)),
                bfs_order(ch) == bfs_from(ch, queue@, head as int, k as int),
            decreases n - queue@.len(), cs@.len() - k,
        {
            proof { lemma_distinct_bounded(queue@, n as int); }
            let c = cs[k] as usize;
            if c < n && !visited[c] {
                proof {
                    if queue@.len() >= n {
                        lemma_distinct_bounded(queue@.push(c), n as int);
                    }
                }
                visited.set(c, true);
                let ghost before = queue@;
                queue.push(c);
                proof {
                    assert forall|x: int| 0 <= x < n implies (#[trigger] visited@[x] <==> queue@.contains(x as usize)) by {
                        if x == c as int {
                            assert(queue@[queue@.len() - 1] == c);
                        } else {
                            if before.contains(x as usize) {
                                let w = choose|w: int| 0 <= w < before.len() && before[w] == x as usize;
                                assert(queue@[w] == x as usize);
                            }
                            if queue@.contains(x as usize) {
                                let w = choose|w: int| 0 <= w < queue@.len() && queue@[w] == x as usize;
                                assert(before[w] == x as usize);
                            }
                        }
                    }
                }
            }
            k += 1;
        }
        head += 1;
    }
    queue
}


// ---------------------------------------------------------------------------
// Aggregation of sizes and counts

/// Sizes and counts of a subtree.
#[derive(Debug, Clone, Copy, PartialEq, Eq, Structural)]
pub struct Totals {
    pub size: u64,
    pub allocated: u64,
    pub files: u64,
    pub dirs: u64,
}

/// `u64` addition modulo 2^64.
pub open spec fn wadd(a: u64, b: u64) -> u64 {
    if a + b > u64::MAX { (a + b - 0x1_0000_0000_0000_0000) as u64 } else { (a + b) as u64 }
}

pub open spec fn tadd(a: Totals, b: Totals) -> Totals {
    Totals {
        size: wadd(a.size, b.size),
        allocated: wadd(a.allocated, b.allocated),
        files: wadd(a.files, b.files),
        dirs: wadd(a.dirs, b.dirs),
    }
}

/// What node `i` counts by itself: its sizes, one file or one directory; the
/// root counts no directory.
pub open spec fn own_total(nodes: Seq<NodeView>, i: int) -> Totals {
    Totals {
        size: nodes[i].size,
        allocated: nodes[i].allocated,
        files: if nodes[i].is_dir { 0 } else { 1 },
        dirs: if i == 0 { 0 } else if nodes[i].is_dir { 1 } else { 0 },
    }
}

pub open spec fn own_totals(nodes: Seq<NodeView>) -> Seq<Totals> {
    Seq::new(nodes.len(), |i: int| own_total(nodes, i))
}

/// The totals that the nodes currently carry.
pub open spec fn current_totals(nodes: Seq<NodeView>) -> Seq<Totals> {
    Seq::new(nodes.len(), |i: int| Totals {
        size: nodes[i].total_size,
        allocated: nodes[i].total_allocated,
        files: nodes[i].file_count,
        dirs: nodes[i].dir_count,
    })
}

pub open spec fn child_lists(nodes: Seq<NodeView>) -> Seq<Seq<u32>> {
    Seq::new(nodes.len(), |i: int| nodes[i].children)
}

/// Adds the totals of `order[k-1]`, `order[k-2]`, ..., `order[1]`, each in
/// turn, into the totals of its parent, when the parent names another
/// existing node.
pub open spec fn agg_fold(nodes: Seq<NodeView>, order: Seq<usize>, k: int, t: Seq<Totals>) -> Seq<Totals>
    decreases k,
{
    if k <= 1 {
        t
    } else {
        let idx = order[k - 1] as int;
        let t2 = match nodes[idx].parent {
            Some(p) => if (p as int) < t.len() && p as int != idx {
                t.update(p as int, tadd(t[p as int], t[idx]))
            } else {
                t
            },
            None => t,
        };
        agg_fold(nodes, order, k - 1, t2)
    }
}

/// Sum of what nodes `1..k` count by themselves, as files and directories.
pub open spec fn rest_sum(nodes: Seq<NodeView>, k: int) -> Totals
    decreases k,
{
    if k <= 1 {
        Totals { size: 0, allocated: 0, files: 0, dirs: 0 }
    } else {
        let r = rest_sum(nodes, k - 1);
        let nd = nodes[k - 1];
        Totals {
            size: wadd(r.size, nd.size),
            allocated: wadd(r.allocated, nd.allocated),
            files: wadd(r.files, if nd.is_dir { 0 } else { 1 }),
            dirs: wadd(r.dirs, if nd.is_dir { 1 } else { 0 }),
        }
    }
}

/// The totals after aggregation of a tree whose child lists only name other
/// existing nodes. Nodes reachable from the root are visited breadth first and
/// then, from the last discovered back to the first after the root, add their
/// totals into their parent's; every node starts from what it counts by
/// itself. A root without children instead counts every other node directly
/// and the other nodes keep their totals; a tree of one node is left as it is.
pub open spec fn aggregated_totals(nodes: Seq<NodeView>) -> Seq<Totals> {
    if nodes.len() <= 1 {
        current_totals(nodes)
    } else {
        let order = bfs_order(child_lists(nodes));
        if order.len() == 1 {
            current_totals(nodes).update(0, rest_sum(nodes, nodes.len() as int))
        } else {
            agg_fold(nodes, order, order.len() as int, own_totals(nodes))
        }
    }
}

fn add_totals(a: Totals, b: Totals) -> (r: Totals)
    ensures
        r == tadd(a, b),
{
    Totals {
        size: a.size.wrapping_add(b.size),
        allocated: a.allocated.wrapping_add(b.allocated),
        files: a.files.wrapping_add(b.files),
        dirs: a.dirs.wrapping_add(b.dirs),
    }
}

fn aggregate(nodes: &mut Vec<TreeNode>)
    ensures
        views(final(nodes)@) == with_totals(views(old(nodes)@), aggregated_totals(views(old(nodes)@))),
{
    let n = nodes.len();
    if n <= 1 {
        assert(views(nodes@) =~= with_totals(views(nodes@), current_totals(views(nodes@))));
        return;
    }
    let ghost orig = nodes@;
    let order = breadth_first_order(nodes);
    assert(Seq::new(nodes@.len(), |i: int| nodes@[i].children@) =~= child_lists(views(nodes@)));
    let mut t: Vec<Totals> = Vec::new();
    if order.len() == 1 {
        let mut acc = Totals { size: 0, allocated: 0, files: 0, dirs: 0 };
        let mut i: usize = 1;
        while i < n
            invariant
                1 <= i <= n,
                n == nodes@.len(),
                acc == rest_sum(views(nodes@), i as int),
            decreases n - i,
        {
            let nd = &nodes[i];
            acc = Totals {
                size: acc.size.wrapping_add(nd.size),
                allocated: acc.allocated.wrapping_add(nd.allocated),
                files: acc.files.wrapping_add(if nd.is_dir { 0 } else { 1 }),
                dirs: acc.dirs.wrapping_add(if nd.is_dir { 1 } else { 0 }),
            };
            i += 1;
        }
        nodes[0].total_size = acc.size;
        nodes[0].total_allocated = acc.allocated;
        nodes[0].file_count = acc.files;
        nodes[0].dir_count = acc.dirs;
        assert(current_totals(views(nodes@)) =~= current_totals(views(orig)).update(0, rest_sum(views(orig), n as int)));
        proof {
            let target = with_totals(views(orig), aggregated_totals(views(orig)));
            assert forall|x: int| 0 <= x < n implies #[trigger] views(nodes@)[x] == target[x] by {
                if x != 0 {
                    assert(nodes@[x] == orig[x]);
                }
            }
            assert(views(nodes@) =~= target);
        }
        return;
    }
    let mut i: usize = 0;
    while i < n
        invariant
            i <= n,
            n == nodes@.len(),
            t@ == own_totals(views(nodes@)).take(i as int),
        decreases n - i,
    {
        let nd = &nodes[i];
        t.push(Totals {
            size: nd.size,
            allocated: nd.allocated,
            files: if nd.is_dir { 0 } else { 1 },
            dirs: if i == 0 { 0 } else if nd.is_dir { 1 } else { 0 },
        });
        i += 1;
        assert(t@ =~= own_totals(views(nodes@)).take(i as int));
    }
    assert(t@ =~= own_totals(views(nodes@)));
    let ghost bfs = order@;
    let mut k: usize = order.len();
    while k > 1
        invariant
            k <= order@.len(),
            n == nodes@.len(),
            t@.len() == n,
            order@ == bfs_order(child_lists(views(nodes@))),
            forall|x: int| 0 <= x < order@.len() ==> (#[trigger] order@[x] as int) < n,
            agg_fold(views(nodes@), order@, order@.len() as int, own_totals(views(nodes@)))
                == agg_fold(views(nodes@), order@, k as int, t@),
        decreases k,
    {
        k -= 1;
        let idx = order[k];
        match nodes[idx].parent {
            Some(p) => {
                if (p as usize) < n && p as usize != idx {
                    let sum = add_totals(t[p as usize], t[idx]);
                    t.set(p as usize, sum);
                }
            },
            None => {},
        }
    }
    let mut j: usize = 0;
    while j < n
        invariant
            j <= n,
            n == nodes@.len(),
            n == orig.len(),
            t@.len() == n,
            forall|x: int| 0 <= x < n ==> same_entry(#[trigger] orig[x]@, nodes@[x]@),
            forall|x: int| 0 <= x < n ==> (#[trigger] nodes@[x]).children@ == orig[x].children@,
            forall|x: int| 0 <= x < j ==> current_totals(views(nodes@))[x] == #[trigger] t@[x],
        decreases n - j,
    {
        let tj = t[j];
        nodes[j].total_size = tj.size;
        nodes[j].total_allocated = tj.allocated;
        nodes[j].file_count = tj.files;
        nodes[j].dir_count = tj.dirs;
        j += 1;
    }
    assert(current_totals(views(nodes@)) =~= t@);
    proof {
        let target = with_totals(views(orig), aggregated_totals(views(orig)));
        assert forall|x: int| 0 <= x < n implies #[trigger] views(nodes@)[x] == target[x] by {
            assert(same_entry(orig[x]@, nodes@[x]@));
            assert(current_totals(views(nodes@))[x] == t@[x]);
        }
        assert(views(nodes@) =~= target);
    }
}


// ---------------------------------------------------------------------------
// Child order: largest allocated total first, then by lowercase name

/// Whether child `a` is listed before child `b`: larger allocated total
/// first, then lowercase name order.
pub open spec fn child_before(totals: Seq<u64>, names: Seq<Seq<char>>, a: u32, b: u32) -> bool {
    let ai = a as int;
    let bi = b as int;
    if ai >= totals.len() || bi >= totals.len() || ai >= names.len() || bi >= names.len() {
        false
    } else {
        totals[bi] < totals[ai] || (totals[bi] == totals[ai] && lex_less(names[ai], names[bi]))
    }
}

/// Where `x` goes into the ordered `s`: before the first element it precedes.
pub open spec fn insert_pos(s: Seq<u32>, x: u32, totals: Seq<u64>, names: Seq<Seq<char>>, j: int) -> int
    decreases s.len() - j,
{
    if j < 0 || j >= s.len() {
        s.len() as int
    } else if child_before(totals, names, x, s[j]) {
        j
    } else {
        insert_pos(s, x, totals, names, j + 1)
    }
}

/// Stable insertion sort of child ids.
pub open spec fn sort_ids(s: Seq<u32>, totals: Seq<u64>, names: Seq<Seq<char>>) -> Seq<u32>
    decreases s.len(),
{
    if s.len() == 0 {
        s
    } else {
        let r = sort_ids(s.drop_last(), totals, names);
        r.insert(insert_pos(r, s.last(), totals, names, 0), s.last())
    }
}

pub open spec fn char_rows(rows: Seq<Vec<char>>) -> Seq<Seq<char>> {
    rows.map_values(|r: Vec<char>| r@)
}

pub(crate) proof fn lemma_insert_pos_range(s: Seq<u32>, x: u32, totals: Seq<u64>, names: Seq<Seq<char>>, j: int)
    requires 0 <= j <= s.len(),
    ensures j <= insert_pos(s, x, totals, names, j) <= s.len(),
    decreases s.len() - j,
{
    if j < s.len() && !child_before(totals, names, x, s[j]) {
        lemma_insert_pos_range(s, x, totals, names, j + 1);
    }
}

fn child_before_exec(totals: &Vec<u64>, names: &Vec<Vec<char>>, a: u32, b: u32) -> (r: bool)
    ensures
        r == child_before(totals@, char_rows(names@), a, b),
{
    let ai = a as usize;
    let bi = b as usize;
    if ai >= totals.len() || bi >= totals.len() || ai >= names.len() || bi >= names.len() {
        return false;
    }
    if totals[bi] != totals[ai] {
        return totals[bi] < totals[ai];
    }
    lex_less_exec(&names[ai], &names[bi])
}

fn sorted_ids(ch: &Vec<u32>, totals: &Vec<u64>, names: &Vec<Vec<char>>) -> (r: Vec<u32>)
    ensures
        r@ == sort_ids(ch@, totals@, char_rows(names@)),
{
    let ghost rows = char_rows(names@);
    let mut r: Vec<u32> = Vec::new();
    let mut i: usize = 0;
    while i < ch.len()
        invariant
            i <= ch@.len(),
            rows == char_rows(names@),
            r@ == sort_ids(ch@.take(i as int), totals@, rows),
        decreases ch@.len() - i,
    {
        let x = ch[i];
        let mut j: usize = 0;
        while j < r.len() && !child_before_exec(totals, names, x, r[j])
            invariant
                j <= r@.len(),
                rows == char_rows(names@),
                insert_pos(r@, x, totals@, rows, 0) == insert_pos(r@, x, totals@, rows, j as int),
            decreases r@.len() - j,
        {
            j += 1;
        }
        assert(insert_pos(r@, x, totals@, rows, j as int) == j);
        proof {
            assert(ch@.take(i + 1).drop_last() =~= ch@.take(i as int));
            assert(ch@.take(i + 1).last() == x);
        }
        r.insert(j, x);
        i += 1;
    }
    assert(ch@.take(i as int) =~= ch@);
    r
}

/// Per node, the nodes' child lists after dropping dangling and self references.
pub open spec fn retained(s: Seq<NodeView>) -> Seq<NodeView> {
    Seq::new(s.len(), |i: int| NodeView { children: kept_children(s[i].children, i, s.len() as int), ..s[i] })
}

/// The nodes carrying the totals `t`.
pub open spec fn with_totals(s: Seq<NodeView>, t: Seq<Totals>) -> Seq<NodeView> {
    Seq::new(s.len(), |i: int| NodeView {
        total_size: t[i].size,
        total_allocated: t[i].allocated,
        file_count: t[i].files,
        dir_count: t[i].dirs,
        ..s[i]
    })
}

pub open spec fn allocated_totals(s: Seq<NodeView>) -> Seq<u64> {
    Seq::new(s.len(), |i: int| s[i].total_allocated)
}

pub open spec fn lower_names(s: Seq<NodeView>) -> Seq<Seq<char>> {
    Seq::new(s.len(), |i: int| lower(s[i].name))
}

/// The nodes with their children in listing order.
pub open spec fn with_sorted_children(s: Seq<NodeView>) -> Seq<NodeView> {
    Seq::new(s.len(), |i: int| NodeView {
        children: sort_ids(s[i].children, allocated_totals(s), lower_names(s)),
        ..s[i]
    })
}

/// A root directory named `name`.
pub open spec fn root_view(name: Seq<char>) -> NodeView {
    NodeView {
        id: 0,
        parent: None,
        name,
        is_dir: true,
        size: 0,
        allocated: 0,
        total_size: 0,
        total_allocated: 0,
        children: seq![],
        file_count: 0,
        dir_count: 0,
        extension: None,
        created: None,
        modified: None,
        accessed: None,
    }
}

/// A finished tree: an empty tree gets a root named `root`; child lists lose
/// dangling and self references; totals are aggregated; children are listed
/// largest first.
pub open spec fn finalized(s: Seq<NodeView>) -> Seq<NodeView> {
    let s0 = if s.len() == 0 { seq![root_view("root"@)] } else { s };
    let r = retained(s0);
    with_sorted_children(with_totals(r, aggregated_totals(r)))
}

pub(crate) fn sort_all_children(nodes: &mut Vec<TreeNode>)
    ensures
        views(final(nodes)@) == with_sorted_children(views(old(nodes)@)),
{
    let n = nodes.len();
    let mut totals: Vec<u64> = Vec::new();
    let mut names: Vec<Vec<char>> = Vec::new();
    let mut i: usize = 0;
    while i < n
        invariant
            i <= n,
            n == nodes@.len(),
            totals@ == allocated_totals(views(nodes@)).take(i as int),
            char_rows(names@) == lower_names(views(nodes@)).take(i as int),
        decreases n - i,
    {
        totals.push(nodes[i].total_allocated);
        let l = lower_chars(nodes[i].name.as_str());
        let ghost before = names@;
        names.push(l);
        assert(char_rows(names@) =~= char_rows(before).push(l@));
        i += 1;
        assert(totals@ =~= allocated_totals(views(nodes@)).take(i as int));
        assert(char_rows(names@) =~= lower_names(views(nodes@)).take(i as int));
    }
    assert(totals@ =~= allocated_totals(views(nodes@)));
    assert(char_rows(names@) =~= lower_names(views(nodes@)));
    let ghost orig = views(nodes@);
    let mut j: usize = 0;
    while j < n
        invariant
            j <= n,
            n == nodes@.len(),
            orig.len() == n,
            totals@ == allocated_totals(orig),
            char_rows(names@) == lower_names(orig),
            forall|x: int| 0 <= x < j ==> (#[trigger] views(nodes@)[x]) == with_sorted_children(orig)[x],
            forall|x: int| j <= x < n ==> (#[trigger] views(nodes@)[x]) == orig[x],
        decreases n - j,
    {
        let sorted = sorted_ids(&nodes[j].children, &totals, &names);
        let ghost prev = nodes@;
        nodes[j].children = sorted;
        proof {
            assert(views(prev)[j as int] == orig[j as int]);
            assert(nodes@[j as int]@ == with_sorted_children(orig)[j as int]);
            assert forall|x: int| 0 <= x < n && x != j implies #[trigger] views(nodes@)[x] == views(prev)[x] by {
                assert(nodes@[x] == prev[x]);
            }
        }
        j += 1;
    }
    assert(views(nodes@) =~= with_sorted_children(orig));
}


impl View for NodeDto {
    type V = NodeView;

    open spec fn view(&self) -> NodeView {
        NodeView {
            id: self.id,
            parent: self.parent,
            name: self.name@,
            is_dir: self.is_dir,
            size: self.size,
            allocated: self.allocated,
            total_size: self.total_size,
            total_allocated: self.total_allocated,
            children: self.children@,
            file_count: self.file_count,
            dir_count: self.dir_count,
            extension: opt_string_view(self.extension),
            created: self.created,
            modified: self.modified,
            accessed: self.accessed,
        }
    }
}

/// The views of a sequence of scan results.
pub open spec fn dto_views(nodes: Seq<NodeDto>) -> Seq<NodeView> {
    nodes.map_values(|n: NodeDto| n@)
}

/// Whether every result's child count is the length of its child list, as a `u32`.
pub open spec fn child_counts_match(nodes: Seq<NodeDto>) -> bool {
    forall|i: int| 0 <= i < nodes.len() ==> (#[trigger] nodes[i]).child_count == nodes[i].children@.len() as u32
}

pub fn clone_opt_string(o: &Option<String>) -> (r: Option<String>)
    ensures
        opt_string_view(r) == opt_string_view(*o),
{
    match o {
        Some(s) => Some(s.clone()),
        None => None,
    }
}

pub fn clone_ids(v: &Vec<u32>) -> (r: Vec<u32>)
    ensures
        r@ == v@,
{
    let mut r: Vec<u32> = Vec::new();
    let mut i: usize = 0;
    while i < v.len()
        invariant
            i <= v@.len(),
            r@ == v@.take(i as int),
        decreases v@.len() - i,
    {
        r.push(v[i]);
        i += 1;
        assert(r@ =~= v@.take(i as int));
    }
    assert(v@.take(i as int) =~= v@);
    r
}

/// The scan result for a tree node.
pub fn node_dto(node: &TreeNode) -> (r: NodeDto)
    ensures
        r@ == node@,
        r.child_count == node.children@.len() as u32,
{
    NodeDto {
        id: node.id,
        parent: node.parent,
        name: node.name.clone(),
        is_dir: node.is_dir,
        size: node.size,
        allocated: node.allocated,
        total_size: node.total_size,
        total_allocated: node.total_allocated,
        child_count: node.children.len() as u32,
        children: clone_ids(&node.children),
        file_count: node.file_count,
        dir_count: node.dir_count,
        extension: clone_opt_string(&node.extension),
        created: node.created,
        modified: node.modified,
        accessed: node.accessed,
    }
}

pub(crate) fn tree_to_node_dtos(nodes: &Vec<TreeNode>) -> (r: Vec<NodeDto>)
    ensures
        dto_views(r@) == views(nodes@),
        child_counts_match(r@),
{
    let mut r: Vec<NodeDto> = Vec::new();
    let mut i: usize = 0;
    while i < nodes.len()
        invariant
            i <= nodes@.len(),
            dto_views(r@) == views(nodes@).take(i as int),
            child_counts_match(r@),
        decreases nodes@.len() - i,
    {
        let d = node_dto(&nodes[i]);
        let ghost before = r@;
        r.push(d);
        assert(dto_views(r@) =~= dto_views(before).push(d@));
        i += 1;
        assert(dto_views(r@) =~= views(nodes@).take(i as int));
    }
    assert(views(nodes@).take(i as int) =~= views(nodes@));
    r
}

/// Finishes a tree in place: an empty tree gets a root named `root`, child
/// lists lose ids of missing nodes and of the node itself, sizes and counts
/// are aggregated from the leaves up, and each node's children are ordered by
/// allocated total, largest first, then by lowercase name.
pub fn finalize_tree_in_place(nodes: &mut Vec<TreeNode>)
    ensures
        views(final(nodes)@) == finalized(views(old(nodes)@)),
{
    if nodes.len() == 0 {
        let name = "root".to_owned();
        let root = TreeNode::root(name);
        assert(root.children@ =~= Seq::<u32>::empty());
        assert(root@ == root_view("root"@));
        nodes.push(root);
        assert(views(nodes@) =~= seq![root_view("root"@)]);
    }
    retain_children(nodes);
    aggregate(nodes);
    sort_all_children(nodes);
}

/// Finishes a tree (see [`finalize_tree_in_place`]) and returns it as scan results.
pub fn finalize_tree(nodes: Vec<TreeNode>) -> (r: Vec<NodeDto>)
    ensures
        dto_views(r@) == finalized(views(nodes@)),
        child_counts_match(r@),
{
    let mut nodes = nodes;
    finalize_tree_in_place(&mut nodes);
    tree_to_node_dtos(&nodes)
}

} // verus!
