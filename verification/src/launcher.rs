//! Where the desktop application looks for the server binary that it starts,
//! and which one it takes.
use vstd::prelude::*;
use crate::error::push_text;
use crate::text::string_from_chars;

verus! {

/// The server binary's file name, with `.exe` on Windows.
pub open spec fn spec_binary_name(windows: bool) -> Seq<char> {
    if windows { "fastscan-mcp.exe"@ } else { "fastscan-mcp"@ }
}

/// The server binary's file name, with `.exe` on Windows.
pub fn mcp_binary_name(windows: bool) -> (r: String)
    ensures
        r@ == spec_binary_name(windows),
{
    if windows { "fastscan-mcp.exe".to_owned() } else { "fastscan-mcp".to_owned() }
}

/// A place to look for the binary: a directory and the path components to
/// join to it, the last one being the file name.
pub struct BinaryCandidate {
    pub base: String,
    pub parts: Vec<String>,
}

pub struct CandidateView {
    pub base: Seq<char>,
    pub parts: Seq<Seq<char>>,
}

pub open spec fn texts(v: Seq<String>) -> Seq<Seq<char>> {
    v.map_values(|s: String| s@)
}

impl View for BinaryCandidate {
    type V = CandidateView;

    open spec fn view(&self) -> CandidateView {
        CandidateView { base: self.base@, parts: texts(self.parts@) }
    }
}

pub open spec fn candidate_views(v: Seq<BinaryCandidate>) -> Seq<CandidateView> {
    v.map_values(|c: BinaryCandidate| c@)
}

/// The places below the running executable's directory, in the order they
/// are tried: the directory itself, its `binaries` and `bin` subdirectories,
/// the workspace build outputs two levels up (release, then debug), and those
/// of a separate build of the server crate three levels up.
pub open spec fn exe_layouts(name: Seq<char>) -> Seq<Seq<Seq<char>>> {
    seq![
        seq![name],
        seq!["binaries"@, name],
        seq!["bin"@, name],
        seq![".."@, ".."@, "target"@, "release"@, name],
        seq![".."@, ".."@, "target"@, "debug"@, name],
        seq![".."@, ".."@, ".."@, "crates"@, "fastscan-mcp"@, "target"@, "release"@, name],
        seq![".."@, ".."@, ".."@, "crates"@, "fastscan-mcp"@, "target"@, "debug"@, name],
    ]
}

/// Every place tried, in order: those below the executable's directory when
/// it is known, then the binary in each directory of the search path.
pub open spec fn binary_candidates(exe_dir: Option<Seq<char>>, path_dirs: Seq<Seq<char>>, name: Seq<char>) -> Seq<CandidateView> {
    let near = match exe_dir {
        Some(d) => exe_layouts(name).map_values(|l: Seq<Seq<char>>| CandidateView { base: d, parts: l }),
        None => Seq::<CandidateView>::empty(),
    };
    near + path_dirs.map_values(|d: Seq<char>| CandidateView { base: d, parts: seq![name] })
}

fn candidate(base: &String, parts: Vec<String>) -> (r: BinaryCandidate)
    ensures
        r@ == (CandidateView { base: base@, parts: texts(parts@) }),
{
    BinaryCandidate { base: base.clone(), parts }
}

/// Every place where the desktop application looks for the server binary, in
/// order (see [`binary_candidates`]).
pub fn mcp_binary_candidates(exe_dir: Option<String>, path_dirs: &Vec<String>, windows: bool) -> (r: Vec<BinaryCandidate>)
    ensures
        candidate_views(r@) == binary_candidates(
            match exe_dir { Some(d) => Some(d@), None => None },
            texts(path_dirs@),
            spec_binary_name(windows),
        ),
{
    let name = mcp_binary_name(windows);
    let ghost nm = name@;
    let mut r: Vec<BinaryCandidate> = Vec::new();
    let ghost near: Seq<CandidateView> = Seq::empty();
    match &exe_dir {
        Some(d) => {
            let ghost lay = exe_layouts(nm);
            let up = "..".to_owned();
            let target = "target".to_owned();
            let release = "release".to_owned();
            let debug = "debug".to_owned();
            let crates = "crates".to_owned();
            let server = "fastscan-mcp".to_owned();
            let p0 = vec![name.clone()];
            assert(texts(p0@) =~= lay[0]);
            let p1 = vec!["binaries".to_owned(), name.clone()];
            assert(texts(p1@) =~= lay[1]);
            let p2 = vec!["bin".to_owned(), name.clone()];
            assert(texts(p2@) =~= lay[2]);
            let p3 = vec![up.clone(), up.clone(), target.clone(), release.clone(), name.clone()];
            assert(texts(p3@) =~= lay[3]);
            let p4 = vec![up.clone(), up.clone(), target.clone(), debug.clone(), name.clone()];
            assert(texts(p4@) =~= lay[4]);
            let p5 = vec![
                up.clone(), up.clone(), up.clone(), crates.clone(), server.clone(), target.clone(), release, name.clone(),
            ];
            assert(texts(p5@) =~= lay[5]);
            let p6 = vec![up.clone(), up.clone(), up, crates, server, target, debug, name.clone()];
            assert(texts(p6@) =~= lay[6]);
            r.push(candidate(d, p0));
            r.push(candidate(d, p1));
            r.push(candidate(d, p2));
            r.push(candidate(d, p3));
            r.push(candidate(d, p4));
            r.push(candidate(d, p5));
            r.push(candidate(d, p6));
            proof {
                near = lay.map_values(|l: Seq<Seq<char>>| CandidateView { base: d@, parts: l });
                assert(candidate_views(r@) =~= near);
            }
        },
        None => {
            assert(candidate_views(r@) =~= near);
        },
    }
    let ghost start = r@;
    let mut i: usize = 0;
    while i < path_dirs.len()
        invariant
            i <= path_dirs@.len(),
            name@ == nm,
            candidate_views(start) == near,
            r@.len() == start.len() + i,
            candidate_views(r@) == near + texts(path_dirs@).take(i as int).map_values(
                |d: Seq<char>| CandidateView { base: d, parts: seq![nm] }),
        decreases path_dirs@.len() - i,
    {
        let ghost before = r@;
        let one = vec![name.clone()];
        assert(texts(one@) =~= seq![nm]);
        r.push(candidate(&path_dirs[i], one));
        i += 1;
        assert(candidate_views(r@) =~= candidate_views(before).push(r@.last()@));
        assert(texts(path_dirs@).take(i as int) =~= texts(path_dirs@).take(i - 1).push(path_dirs@[i - 1]@));
        assert(candidate_views(r@) =~= near + texts(path_dirs@).take(i as int).map_values(
            |d: Seq<char>| CandidateView { base: d, parts: seq![nm] }));
    }
    assert(texts(path_dirs@).take(i as int) =~= texts(path_dirs@));
    r
}

/// The position of the first `true` among the first `k` flags, or -1.
pub open spec fn first_true(b: Seq<bool>, k: int) -> int
    decreases k,
{
    if k <= 0 {
        -1
    } else {
        let r = first_true(b, k - 1);
        if r >= 0 { r } else if b[k - 1] { k - 1 } else { -1 }
    }
}

/// One line per path tried, each as `  - ` and the path, joined by newlines.
pub open spec fn tried_lines(tried: Seq<Seq<char>>) -> Seq<char>
    decreases tried.len(),
{
    if tried.len() == 0 {
        seq![]
    } else if tried.len() == 1 {
        "  - "@ + tried[0]
    } else {
        tried_lines(tried.drop_last()) + "\n"@ + "  - "@ + tried.last()
    }
}

/// The error when no binary is found: a heading, then every path tried.
pub open spec fn not_found_message(tried: Seq<Seq<char>>) -> Seq<char> {
    "找不到 fastscan-mcp 二进制文件。已尝试以下路径:\n"@ + tried_lines(tried)
}

/// The binary that the desktop application starts: the path that overrides
/// the search when it names an existing file; else the first path tried that
/// exists; else an error listing every path tried.
pub open spec fn spec_pick(over: Option<Seq<char>>, over_exists: bool, tried: Seq<Seq<char>>, exists: Seq<bool>)
    -> Result<Seq<char>, Seq<char>>
{
    if over is Some && over_exists {
        Ok(over->0)
    } else if first_true(exists, exists.len() as int) >= 0 {
        Ok(tried[first_true(exists, exists.len() as int)])
    } else {
        Err(not_found_message(tried))
    }
}

proof fn lemma_first_true_range(b: Seq<bool>, k: int)
    requires
        0 <= k <= b.len(),
    ensures
        -1 <= first_true(b, k) < k,
        first_true(b, k) >= 0 ==> b[first_true(b, k)],
        first_true(b, k) < 0 ==> forall|j: int| 0 <= j < k ==> !#[trigger] b[j],
    decreases k,
{
    if k > 0 {
        lemma_first_true_range(b, k - 1);
    }
}

pub open spec fn opt_text(o: Option<String>) -> Option<Seq<char>> {
    match o { Some(s) => Some(s@), None => None }
}

/// The desktop application's choice of server binary (see [`spec_pick`]):
/// `over` is the override path with whether it exists, `tried` the paths
/// searched, in order, with whether each exists.
pub fn pick_mcp_binary(over: Option<String>, over_exists: bool, tried: &Vec<String>, exists: &Vec<bool>)
    -> (r: Result<String, String>)
    requires
        tried@.len() == exists@.len(),
    ensures
        match r {
            Ok(p) => spec_pick(opt_text(over), over_exists, texts(tried@), exists@) == Ok::<Seq<char>, Seq<char>>(p@),
            Err(m) => spec_pick(opt_text(over), over_exists, texts(tried@), exists@) == Err::<Seq<char>, Seq<char>>(m@),
        },
{
    let ghost ov = opt_text(over);
    if let Some(o) = &over {
        if over_exists {
            return Ok(o.clone());
        }
    }
    let mut i: usize = 0;
    while i < exists.len()
        invariant
            i <= exists@.len(),
            tried@.len() == exists@.len(),
            !(ov is Some && over_exists),
            ov == opt_text(over),
            first_true(exists@, i as int) == -1,
        decreases exists@.len() - i,
    {
        if exists[i] {
            proof {
                lemma_first_true_range(exists@, exists@.len() as int);
                assert(first_true(exists@, i + 1) == i);
                lemma_first_true_from(exists@, i as int, exists@.len() as int);
                assert(texts(tried@)[i as int] == tried@[i as int]@);
            }
            return Ok(tried[i].clone());
        }
        i += 1;
    }
    let mut v: Vec<char> = Vec::new();
    push_text(&mut v, "找不到 fastscan-mcp 二进制文件。已尝试以下路径:\n");
    let ghost head = v@;
    let mut k: usize = 0;
    while k < tried.len()
        invariant
            k <= tried@.len(),
            tried@.len() == exists@.len(),
            !(ov is Some && over_exists),
            ov == opt_text(over),
            first_true(exists@, exists@.len() as int) == -1,
            v@ == head + tried_lines(texts(tried@).take(k as int)),
        decreases tried@.len() - k,
    {
        if k > 0 {
            push_text(&mut v, "\n");
        }
        push_text(&mut v, "  - ");
        push_text(&mut v, tried[k].as_str());
        k += 1;
        proof {
            let t = texts(tried@).take(k as int);
            assert(t.drop_last() =~= texts(tried@).take(k - 1));
            if k == 1 {
                assert(tried_lines(t) == "  - "@ + t[0]);
                assert(tried_lines(texts(tried@).take(0)) =~= Seq::<char>::empty());
            }
        }
        assert(v@ =~= head + tried_lines(texts(tried@).take(k as int)));
    }
    assert(texts(tried@).take(k as int) =~= texts(tried@));
    Err(string_from_chars(&v))
}

proof fn lemma_first_true_from(b: Seq<bool>, i: int, k: int)
    requires
        0 <= i < k <= b.len(),
        first_true(b, i + 1) == i,
    ensures
        first_true(b, k) == i,
    decreases k - i,
{
    if k > i + 1 {
        lemma_first_true_from(b, i, k - 1);
    }
}

} // verus!
