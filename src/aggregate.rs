use vstd::prelude::*;
use crate::path::{FsPath, PathV, parent_of, prefix_of, is_ancestor_or_self, is_proper_ancestor};
use crate::model::{
    File, FileV, Directory, DirectoryV, FileType, FileTypeV, files_v, dir_of, total_size, fresh_dir, opt_path,
};
use crate::tree_sums::{child_sum, lemma_child_sum_push, lemma_child_sum_update, lemma_child_sum_zero};

verus! {

/// Everything a scan found, and the views derived from it.
pub struct DirInfo {
    /// One group per lowercase extension, in the order first seen.
    pub filetypes: Vec<FileType>,
    /// All files, in the order found.
    pub files: Vec<File>,
    /// Files, ordered by size, descending.
    pub files_by_size: Vec<File>,
    /// File types, ordered by size, descending.
    pub types_by_size: Vec<FileType>,
    /// Directories, ordered by their own size, descending.
    pub dirs_by_size: Vec<Directory>,
    /// The directory tree, one node per path.
    pub tree: Vec<Directory>,
    /// Sum of the sizes of all files.
    pub combined_size: u64,
    /// Groups of two or more files with the same content hash.
    pub duplicates: Vec<(u64, Vec<File>)>,
    /// The parent of the scan root: no size reaches it or anything above it.
    pub boundary: Option<FsPath>,
}

/// The first ancestor length of `dir` that receives sizes: one below the
/// boundary when the boundary is an ancestor of `dir`, else the bare anchor.
pub open spec fn chain_floor(dir: PathV, b: Option<PathV>) -> int {
    match b {
        Some(bp) => if is_ancestor_or_self(bp, dir) {
            bp.1.len() + 1int
        } else {
            0
        },
        None => 0,
    }
}

/// `a` is on the ancestor chain of `dir`: `dir` or an ancestor of it,
/// walking up from `dir` and stopping before the boundary.
pub open spec fn in_chain(dir: PathV, b: Option<PathV>, a: PathV) -> bool {
    is_ancestor_or_self(a, dir) && a.1.len() >= chain_floor(dir, b)
}

/// `p` lies inside the scanned region: strictly below the boundary.
pub open spec fn inside(b: Option<PathV>, p: PathV) -> bool {
    match b {
        Some(bp) => is_proper_ancestor(bp, p),
        None => true,
    }
}

/// The files of `s` with extension `e`.
pub open spec fn with_ext(s: Seq<FileV>, e: Seq<char>) -> Seq<FileV> {
    s.filter(|f: FileV| f.ext == Some(e))
}

pub proof fn lemma_inside_child(b: Option<PathV>, c: PathV)
    requires
        parent_of(c) is Some,
        inside(b, parent_of(c)->0),
    ensures
        inside(b, c),
{
    if let Some(bp) = b {
        let p = parent_of(c)->0;
        assert(c.1.subrange(0, bp.1.len() as int) =~= p.1.subrange(0, bp.1.len() as int));
    }
}

pub open spec fn has_dir(tree: Seq<Directory>, p: PathV) -> bool {
    exists|i: int| 0 <= i < tree.len() && tree[i].path@ == p
}

pub open spec fn paths_unique(tree: Seq<Directory>) -> bool {
    forall|i: int, j: int|
        0 <= i < tree.len() && 0 <= j < tree.len() && i != j ==> tree[i].path@ != tree[j].path@
}

/// Each directory inside the region has a combined size equal to its own
/// size plus the combined sizes of its child directories.
pub open spec fn sizes_propagate(tree: Seq<Directory>, b: Option<PathV>) -> bool {
    forall|i: int|
        0 <= i < tree.len() && inside(b, #[trigger] tree[i].path@) ==> tree[i].combined_size
            == tree[i].size + child_sum(tree, tree[i].path@)
}

/// A directory inside the region that holds some size has its parent in the
/// tree, when that parent is inside the region too.
pub open spec fn filled_upward(tree: Seq<Directory>, b: Option<PathV>) -> bool {
    forall|i: int|
        0 <= i < tree.len() && #[trigger] tree[i].combined_size > 0 && inside(b, tree[i].path@)
            && parent_of(tree[i].path@) is Some && inside(b, parent_of(tree[i].path@)->0)
            ==> has_dir(tree, parent_of(tree[i].path@)->0)
}

pub open spec fn tree_wf(tree: Seq<Directory>, b: Option<PathV>, total: u64) -> bool {
    &&& paths_unique(tree)
    &&& sizes_propagate(tree, b)
    &&& filled_upward(tree, b)
    &&& forall|i: int|
        0 <= i < tree.len() ==> {
            &&& (#[trigger] tree[i])@.parent == parent_of(tree[i].path@)
            &&& tree[i].size <= total
            &&& tree[i].combined_size <= total
        }
}

pub open spec fn types_wf(types: Seq<FileType>, files: Seq<FileV>) -> bool {
    &&& forall|i: int, j: int|
        0 <= i < types.len() && 0 <= j < types.len() && i != j ==> types[i].ext@ != types[j].ext@
    &&& forall|i: int|
        0 <= i < types.len() ==> {
            &&& (#[trigger] types[i])@.files == with_ext(files, types[i].ext@)
            &&& types[i].size == total_size(types[i]@.files)
        }
    &&& forall|k: int|
        0 <= k < files.len() && (#[trigger] files[k]).ext is Some ==> exists|i: int|
            0 <= i < types.len() && types[i].ext@ == files[k].ext->0
}

/// The index of the directory at `p` in `tree`, if there is one.
fn find_in(tree: &Vec<Directory>, p: &FsPath) -> (r: Option<usize>)
    ensures
        r matches Some(i) ==> i < tree@.len() && tree@[i as int].path@ == p@ && forall|j: int|
            0 <= j < i ==> tree@[j].path@ != p@,
        r is None ==> !has_dir(tree@, p@),
{
    let mut i: usize = 0;
    while i < tree.len()
        invariant
            i <= tree@.len(),
            forall|j: int| 0 <= j < i ==> tree@[j].path@ != p@,
        decreases tree@.len() - i,
    {
        if tree[i].path.same_as(p) {
            return Some(i);
        }
        i = i + 1;
    }
    None
}

/// The index of the directory at `p`, adding an empty one first if the
/// tree has none.
fn dir_index(
    tree: &mut Vec<Directory>,
    Ghost(b): Ghost<Option<PathV>>,
    Ghost(total): Ghost<u64>,
    p: &FsPath,
) -> (r: usize)
    requires
        tree_wf(old(tree)@, b, total),
    ensures
        tree_wf(final(tree)@, b, total),
        r < final(tree)@.len(),
        final(tree)@[r as int].path@ == p@,
        has_dir(old(tree)@, p@) ==> final(tree)@ == old(tree)@,
        !has_dir(old(tree)@, p@) ==> final(tree)@.len() == old(tree)@.len() + 1
            && final(tree)@.drop_last() == old(tree)@ && final(tree)@.last()@ == fresh_dir(p@),
{
    match find_in(tree, p) {
        Some(i) => i,
        None => {
            let ghost t0 = tree@;
            let d = Directory::placeholder(p.copy());
            tree.push(d);
            let ghost t1 = tree@;
            assert(t1.drop_last() =~= t0);
            proof {
                assert forall|q: PathV| true implies #[trigger] child_sum(t1, q) == child_sum(t0, q)
                    by {
                    lemma_child_sum_push(t0, t1.last(), q);
                }
                if inside(b, p@) {
                    assert forall|i: int|
                        0 <= i < t0.len() && parent_of(#[trigger] t0[i].path@) == Some(p@)
                            implies t0[i].combined_size == 0 by {
                        lemma_inside_child(b, t0[i].path@);
                    }
                    lemma_child_sum_zero(t0, p@);
                }
                assert forall|i: int|
                    0 <= i < t1.len() && #[trigger] t1[i].combined_size > 0 && inside(b, t1[i].path@)
                        && parent_of(t1[i].path@) is Some && inside(b, parent_of(t1[i].path@)->0)
                        implies has_dir(t1, parent_of(t1[i].path@)->0) by {
                    assert(t1[i] == t0[i]);
                    let q = parent_of(t1[i].path@)->0;
                    let w = choose|w: int| 0 <= w < t0.len() && t0[w].path@ == q;
                    assert(t1[w] == t0[w]);
                }
            }
            tree.len() - 1
        },
    }
}

/// A directory after a file is recorded: the file's own directory gains its
/// size and the file; each directory on its ancestor chain gains its size in
/// the combined size.
pub open spec fn bumped(n: DirectoryV, f: FileV, b: Option<PathV>) -> DirectoryV {
    let here = dir_of(f) == Some(n.path);
    let up = dir_of(f) is Some && in_chain(dir_of(f)->0, b, n.path);
    DirectoryV {
        size: if here {
            (n.size + f.size) as u64
        } else {
            n.size
        },
        combined_size: if up {
            (n.combined_size + f.size) as u64
        } else {
            n.combined_size
        },
        files: if here {
            n.files.push(f)
        } else {
            n.files
        },
        ..n
    }
}

/// Recording `f` touches the directory at `p`: its own directory or one on
/// its ancestor chain.
pub open spec fn touched(f: FileV, b: Option<PathV>, p: PathV) -> bool {
    dir_of(f) is Some && (dir_of(f)->0 == p || in_chain(dir_of(f)->0, b, p))
}

proof fn lemma_chain_is_prefix(dir: PathV, b: Option<PathV>, a: PathV)
    requires
        in_chain(dir, b, a),
    ensures
        a == prefix_of(dir, a.1.len() as int),
{
}

proof fn lemma_prefix_in_chain(dir: PathV, b: Option<PathV>, j: int)
    requires
        chain_floor(dir, b) <= j <= dir.1.len(),
    ensures
        in_chain(dir, b, prefix_of(dir, j)),
        prefix_of(dir, j).1.len() == j,
{
    assert(prefix_of(dir, j).1 =~= dir.1.subrange(0, j));
}

proof fn lemma_boundary_prefix(dir: PathV, b: Option<PathV>)
    requires
        chain_floor(dir, b) >= 1,
    ensures
        !inside(b, prefix_of(dir, chain_floor(dir, b) - 1)),
{
    let bp = b->0;
    assert(prefix_of(dir, chain_floor(dir, b) - 1) =~= bp);
}

/// The tree while the ancestor chain is being filled: every directory of
/// `t1` whose path is on the chain and has at least `k` components holds
/// `s` more, and the directory with `k - 1` components still waits for it.
spec fn chain_state(
    t: Seq<Directory>,
    t1: Seq<Directory>,
    dv: PathV,
    b: Option<PathV>,
    s: u64,
    k: int,
) -> bool {
    &&& t.len() == t1.len()
    &&& forall|i: int|
        0 <= i < t.len() ==> (#[trigger] t[i])@ == (DirectoryV {
            combined_size: (t1[i].combined_size + (if in_chain(dv, b, t1[i].path@) && t1[i].path@.1.len()
                >= k {
                s
            } else {
                0
            })) as u64,
            ..t1[i]@
        })
    &&& forall|i: int|
        0 <= i < t.len() && inside(b, (#[trigger] t[i]).path@) ==> t[i].combined_size + (if k >= 1
            && t[i].path@ == prefix_of(dv, k - 1) {
            s as int
        } else {
            0
        }) == t[i].size + child_sum(t, t[i].path@)
}

/// Makes sure the tree has `dir` and every directory on its chain; returns
/// the index of `dir`.
fn add_chain_dirs(
    tree: &mut Vec<Directory>,
    Ghost(b): Ghost<Option<PathV>>,
    Ghost(total): Ghost<u64>,
    Ghost(f): Ghost<FileV>,
    dir: &FsPath,
    floor: usize,
) -> (di: usize)
    requires
        tree_wf(old(tree)@, b, total),
        floor == chain_floor(dir@, b),
        dir_of(f) == Some(dir@),
        dir@.1.len() < usize::MAX,
    ensures
        tree_wf(final(tree)@, b, total),
        final(tree)@.len() >= old(tree)@.len(),
        final(tree)@.subrange(0, old(tree)@.len() as int) == old(tree)@,
        forall|i: int|
            old(tree)@.len() <= i < final(tree)@.len() ==> {
                &&& touched(f, b, (#[trigger] final(tree)@[i]).path@)
                &&& !has_dir(old(tree)@, final(tree)@[i].path@)
                &&& final(tree)@[i]@ == fresh_dir(final(tree)@[i].path@)
            },
        di < final(tree)@.len(),
        final(tree)@[di as int].path@ == dir@,
        forall|j: int|
            floor <= j <= dir@.1.len() ==> has_dir(final(tree)@, #[trigger] prefix_of(dir@, j)),
{
    let ghost t_old = tree@;
    let ghost dv = dir@;
    let n = dir.parts.len();
    assert(n == dv.1.len());
    let di = dir_index(tree, Ghost(b), Ghost(total), dir);
    assert(tree@.subrange(0, t_old.len() as int) =~= t_old);
    let mut k: usize = floor;
    while k <= n
        invariant
            tree_wf(tree@, b, total),
            floor == chain_floor(dv, b),
            floor <= k,
            k <= n + 1,
            n == dv.1.len(),
            n < usize::MAX,
            dv == dir@,
            dir_of(f) == Some(dv),
            tree@.len() >= t_old.len(),
            tree@.subrange(0, t_old.len() as int) == t_old,
            forall|i: int|
                t_old.len() <= i < tree@.len() ==> {
                    &&& touched(f, b, (#[trigger] tree@[i]).path@)
                    &&& !has_dir(t_old, tree@[i].path@)
                    &&& tree@[i]@ == fresh_dir(tree@[i].path@)
                },
            di < tree@.len(),
            tree@[di as int].path@ == dv,
            forall|j: int| floor <= j < k ==> has_dir(tree@, #[trigger] prefix_of(dv, j)),
        decreases n + 1 - k,
    {
        let p = dir.prefix(k);
        let ghost t_before = tree@;
        proof {
            lemma_prefix_in_chain(dv, b, k as int);
        }
        let _ = dir_index(tree, Ghost(b), Ghost(total), &p);
        proof {
            assert(tree@.subrange(0, t_old.len() as int) =~= t_before.subrange(
                0,
                t_old.len() as int,
            ));
            assert forall|i: int| t_old.len() <= i < tree@.len() implies {
                &&& touched(f, b, (#[trigger] tree@[i]).path@)
                &&& !has_dir(t_old, tree@[i].path@)
                &&& tree@[i]@ == fresh_dir(tree@[i].path@)
            } by {
                if i < t_before.len() {
                    assert(tree@[i] == t_before[i]);
                } else {
                    assert(!has_dir(t_before, p@));
                    if has_dir(t_old, p@) {
                        let w = choose|w: int| 0 <= w < t_old.len() && t_old[w].path@ == p@;
                        assert(t_before.subrange(0, t_old.len() as int)[w] == t_old[w]);
                    }
                }
            }
            assert forall|j: int| floor <= j < k + 1 implies has_dir(
                tree@,
                #[trigger] prefix_of(dv, j),
            ) by {
                if j < k {
                    let w = choose|w: int|
                        0 <= w < t_before.len() && t_before[w].path@ == prefix_of(dv, j);
                    assert(tree@[w] == t_before[w]);
                }
            }
            assert(tree@[di as int] == t_before[di as int]);
        }
        k = k + 1;
    }
    di
}

/// One step up the chain: the directory with `k - 1` components gains `s`
/// in its combined size.
fn bump_chain_step(
    tree: &mut Vec<Directory>,
    Ghost(t0): Ghost<Seq<Directory>>,
    Ghost(t1): Ghost<Seq<Directory>>,
    Ghost(b): Ghost<Option<PathV>>,
    Ghost(total): Ghost<u64>,
    dir: &FsPath,
    s: u64,
    k: usize,
)
    requires
        chain_state(old(tree)@, t1, dir@, b, s, k as int),
        chain_floor(dir@, b) < k <= dir@.1.len() + 1,
        tree_wf(t0, b, total),
        total + s <= u64::MAX,
        t1.len() == t0.len(),
        forall|i: int|
            0 <= i < t1.len() ==> (#[trigger] t1[i]).path@ == t0[i].path@ && t1[i].combined_size
                == t0[i].combined_size,
        forall|j: int|
            chain_floor(dir@, b) <= j <= dir@.1.len() ==> has_dir(t0, #[trigger] prefix_of(dir@, j)),
    ensures
        chain_state(final(tree)@, t1, dir@, b, s, k - 1),
{
    let ghost dv = dir@;
    let km = k - 1;
    let p = dir.prefix(km);
    proof {
        lemma_prefix_in_chain(dv, b, km as int);
    }
    let ghost t_before = tree@;
    match find_in(tree, &p) {
        Some(j) => {
            proof {
                let w = choose|w: int| 0 <= w < t0.len() && t0[w].path@ == prefix_of(dv, km as int);
                assert(t_before[w].path@ == t1[w].path@);
                assert(t_before[j as int].path@ == t1[j as int].path@);
                assert(j == w);
                assert(t1[w].combined_size <= total);
                assert(t_before[w]@.combined_size == t_before[w].combined_size);
            }
            tree[j].combined_size = tree[j].combined_size + s;
            proof {
                let t2 = tree@;
                assert(t2 == t_before.update(j as int, t2[j as int]));
                assert forall|q: PathV| true implies #[trigger] child_sum(t2, q) == child_sum(
                    t_before,
                    q,
                ) - (if parent_of(t_before[j as int].path@) == Some(q) {
                    t_before[j as int].combined_size as int
                } else {
                    0
                }) + (if parent_of(t2[j as int].path@) == Some(q) {
                    t2[j as int].combined_size as int
                } else {
                    0
                }) by {
                    lemma_child_sum_update(t_before, j as int, t2[j as int], q);
                }
                assert forall|i: int| 0 <= i < t2.len() implies (#[trigger] t2[i])@ == (DirectoryV {
                    combined_size: (t1[i].combined_size + (if in_chain(dv, b, t1[i].path@)
                        && t1[i].path@.1.len() >= km {
                        s
                    } else {
                        0
                    })) as u64,
                    ..t1[i]@
                }) by {
                    assert(t_before[i]@ == t_before[i]@);
                    if i != j {
                        assert(t2[i] == t_before[i]);
                        if in_chain(dv, b, t1[i].path@) {
                            lemma_chain_is_prefix(dv, b, t1[i].path@);
                            assert(t1[i].path@.1.len() != km);
                        }
                    }
                }
                if km >= 1 {
                    assert(parent_of(prefix_of(dv, km as int)) == Some(prefix_of(dv, km - 1))) by {
                        assert(prefix_of(dv, km as int).1.drop_last() =~= prefix_of(dv, km - 1).1);
                    }
                }
                assert forall|i: int|
                    0 <= i < t2.len() && inside(b, (#[trigger] t2[i]).path@) implies t2[i].combined_size
                        + (if km >= 1 && t2[i].path@ == prefix_of(dv, km - 1) {
                        s as int
                    } else {
                        0
                    }) == t2[i].size + child_sum(t2, t2[i].path@) by {
                    assert(t_before[i]@ == t_before[i]@);
                    if i != j {
                        assert(t2[i] == t_before[i]);
                        if t2[i].path@ == prefix_of(dv, km as int) {
                            assert(t0[i].path@ == t0[j as int].path@);
                        }
                    }
                    if parent_of(t2[j as int].path@) == Some(t2[i].path@) && km >= 1 {
                        assert(t2[i].path@ == prefix_of(dv, km - 1));
                    }
                    if parent_of(t2[j as int].path@) == Some(t2[i].path@) && km == 0 {
                        assert(prefix_of(dv, 0).1.len() == 0);
                    }
                }
            }
        },
        None => {},
    }
}

/// Adds `file`, held in `dir`, to the tree: its size goes to `dir` and to the
/// combined size of each directory on the chain from `dir` up to the boundary,
/// adding empty directories where the tree has none.
fn add_file_to_tree(
    tree: &mut Vec<Directory>,
    boundary: &Option<FsPath>,
    file: &File,
    dir: &FsPath,
    Ghost(total): Ghost<u64>,
)
    requires
        tree_wf(old(tree)@, opt_path(*boundary), total),
        total + file.size <= u64::MAX,
        dir_of(file@) == Some(dir@),
        dir@.1.len() < usize::MAX,
    ensures
        tree_wf(final(tree)@, opt_path(*boundary), (total + file.size) as u64),
        final(tree)@.len() >= old(tree)@.len(),
        forall|i: int|
            0 <= i < old(tree)@.len() ==> (#[trigger] final(tree)@[i])@ == bumped(
                old(tree)@[i]@,
                file@,
                opt_path(*boundary),
            ),
        forall|i: int|
            old(tree)@.len() <= i < final(tree)@.len() ==> {
                &&& touched(file@, opt_path(*boundary), (#[trigger] final(tree)@[i]).path@)
                &&& !has_dir(old(tree)@, final(tree)@[i].path@)
                &&& final(tree)@[i]@ == bumped(
                    fresh_dir(final(tree)@[i].path@),
                    file@,
                    opt_path(*boundary),
                )
            },
        forall|p: PathV| touched(file@, opt_path(*boundary), p) ==> has_dir(final(tree)@, p),
{
    let ghost b = opt_path(*boundary);
    let ghost t_old = tree@;
    let ghost dv = dir@;
    let s = file.size;
    let n = dir.parts.len();
    assert(n == dv.1.len());
    let floor: usize = match boundary {
        Some(bp) => if bp.is_ancestor_or_self_of(dir) {
            assert(bp.parts.len() == bp@.1.len());
            bp.parts.len() + 1
        } else {
            0
        },
        None => 0,
    };
    let di = add_chain_dirs(tree, Ghost(b), Ghost(total), Ghost(file@), dir, floor);
    let ghost t0 = tree@;
    // the file's own directory
    tree[di].size = tree[di].size + s;
    tree[di].files.push(file.copy());
    let ghost t1 = tree@;
    proof {
        assert(t1 == t0.update(di as int, t1[di as int]));
        assert forall|q: PathV| true implies #[trigger] child_sum(t1, q) == child_sum(t0, q) by {
            lemma_child_sum_update(t0, di as int, t1[di as int], q);
        }
        assert(t1[di as int]@.files =~= t0[di as int]@.files.push(file@));
        assert forall|i: int| 0 <= i < t1.len() implies (#[trigger] t1[i]).path@ == t0[i].path@
            && t1[i].combined_size == t0[i].combined_size by {}
        assert forall|i: int|
            0 <= i < t1.len() && inside(b, (#[trigger] t1[i]).path@) implies t1[i].combined_size
                + (if n + 1 >= 1 && t1[i].path@ == prefix_of(dv, n + 1 - 1) {
                s as int
            } else {
                0
            }) == t1[i].size + child_sum(t1, t1[i].path@) by {
            assert(prefix_of(dv, n as int) =~= dv);
            if i != di {
                assert(t1[i] == t0[i]);
            }
        }
        assert(chain_state(t1, t1, dv, b, s, n + 1));
    }
    // the ancestor chain, from `dir` up
    let mut k: usize = n + 1;
    while k > floor
        invariant
            floor == chain_floor(dv, b),
            floor <= k <= n + 1,
            n == dv.1.len(),
            dv == dir@,
            s == file.size,
            total + s <= u64::MAX,
            tree_wf(t0, b, total),
            t1.len() == t0.len(),
            forall|i: int|
                0 <= i < t1.len() ==> (#[trigger] t1[i]).path@ == t0[i].path@ && t1[i].combined_size
                    == t0[i].combined_size,
            forall|j: int| floor <= j <= n ==> has_dir(t0, #[trigger] prefix_of(dv, j)),
            chain_state(tree@, t1, dv, b, s, k as int),
        decreases k,
    {
        bump_chain_step(tree, Ghost(t0), Ghost(t1), Ghost(b), Ghost(total), dir, s, k);
        k = k - 1;
    }
    proof {
        lemma_tree_after_file(t_old, t0, t1, tree@, dv, b, file@, total, di as int, floor as int);
    }
}

/// What the tree looks like once `f` has gone to its directory and up its chain.
proof fn lemma_tree_after_file(
    t_old: Seq<Directory>,
    t0: Seq<Directory>,
    t1: Seq<Directory>,
    t: Seq<Directory>,
    dv: PathV,
    b: Option<PathV>,
    f: FileV,
    total: u64,
    di: int,
    floor: int,
)
    requires
        floor == chain_floor(dv, b),
        dir_of(f) == Some(dv),
        total + f.size <= u64::MAX,
        tree_wf(t0, b, total),
        t0.len() >= t_old.len(),
        t0.subrange(0, t_old.len() as int) == t_old,
        forall|i: int|
            t_old.len() <= i < t0.len() ==> {
                &&& touched(f, b, (#[trigger] t0[i]).path@)
                &&& !has_dir(t_old, t0[i].path@)
                &&& t0[i]@ == fresh_dir(t0[i].path@)
            },
        0 <= di < t0.len(),
        t0[di].path@ == dv,
        forall|j: int| floor <= j <= dv.1.len() ==> has_dir(t0, #[trigger] prefix_of(dv, j)),
        t1 == t0.update(di, t1[di]),
        t1[di]@ == (DirectoryV {
            size: (t0[di].size + f.size) as u64,
            files: t0[di]@.files.push(f),
            ..t0[di]@
        }),
        t1[di].size == t0[di].size + f.size,
        t1[di].combined_size == t0[di].combined_size,
        t1[di].path@ == dv,
        chain_state(t, t1, dv, b, f.size, floor),
    ensures
        tree_wf(t, b, (total + f.size) as u64),
        t.len() >= t_old.len(),
        forall|i: int| 0 <= i < t_old.len() ==> (#[trigger] t[i])@ == bumped(t_old[i]@, f, b),
        forall|i: int|
            t_old.len() <= i < t.len() ==> {
                &&& touched(f, b, (#[trigger] t[i]).path@)
                &&& !has_dir(t_old, t[i].path@)
                &&& t[i]@ == bumped(fresh_dir(t[i].path@), f, b)
            },
        forall|p: PathV| touched(f, b, p) ==> has_dir(t, p),
{
    let s = f.size;
    let file_v = f;
        if floor >= 1 {
            lemma_boundary_prefix(dv, b);
        }
        assert forall|i: int| 0 <= i < t_old.len() implies (#[trigger] t[i])@ == bumped(
            t_old[i]@,
            file_v,
            b,
        ) by {
            assert(t0.subrange(0, t_old.len() as int)[i] == t_old[i]);
            if in_chain(dv, b, t1[i].path@) {
                lemma_chain_is_prefix(dv, b, t1[i].path@);
            }
            if i != di {
                assert(t1[i] == t0[i]);
            }
        }
        assert forall|i: int| t_old.len() <= i < t.len() implies {
            &&& touched(file_v, b, (#[trigger] t[i]).path@)
            &&& !has_dir(t_old, t[i].path@)
            &&& t[i]@ == bumped(fresh_dir(t[i].path@), file_v, b)
        } by {
            if i != di {
                assert(t1[i] == t0[i]);
            }
        }
        assert forall|q: PathV| touched(file_v, b, q) implies has_dir(t, q) by {
            if q == dv {
                assert(t[di as int].path@ == dv);
            } else {
                lemma_chain_is_prefix(dv, b, q);
                let w = choose|w: int|
                    0 <= w < t0.len() && t0[w].path@ == prefix_of(dv, q.1.len() as int);
                assert(t[w].path@ == t0[w].path@);
            }
        }
        assert forall|i: int|
            0 <= i < t.len() && #[trigger] t[i].combined_size > 0 && inside(b, t[i].path@)
                && parent_of(t[i].path@) is Some && inside(b, parent_of(t[i].path@)->0)
                implies has_dir(t, parent_of(t[i].path@)->0) by {
            let q = parent_of(t[i].path@)->0;
            assert(t[i]@.combined_size == t[i].combined_size);
            if t0[i].combined_size > 0 {
                let w = choose|w: int| 0 <= w < t0.len() && t0[w].path@ == q;
                assert(t[w].path@ == t0[w].path@);
            } else {
                assert(in_chain(dv, b, t1[i].path@));
                lemma_chain_is_prefix(dv, b, t1[i].path@);
                let m = t[i].path@.1.len() as int;
                assert(q == prefix_of(dv, m - 1)) by {
                    assert(t[i].path@.1.drop_last() =~= prefix_of(dv, m - 1).1);
                }
                if m - 1 < floor {
                    lemma_boundary_prefix(dv, b);
                }
                let w = choose|w: int| 0 <= w < t0.len() && t0[w].path@ == prefix_of(dv, m - 1);
                assert(t[w].path@ == t0[w].path@);
            }
        }
        assert forall|i: int| 0 <= i < t.len() implies {
            &&& (#[trigger] t[i])@.parent == parent_of(t[i].path@)
            &&& t[i].size <= total + s
            &&& t[i].combined_size <= total + s
        } by {
            assert(t[i]@.combined_size == t[i].combined_size);
            assert(t[i]@.size == t[i].size);
            if i != di {
                assert(t1[i] == t0[i]);
            }
        }
        assert forall|i: int, j: int|
            0 <= i < t.len() && 0 <= j < t.len() && i != j implies t[i].path@ != t[j].path@ by {
            assert(t[i].path@ == t0[i].path@);
            assert(t[j].path@ == t0[j].path@);
        }
}

pub proof fn lemma_with_ext_push(s: Seq<FileV>, f: FileV, e: Seq<char>)
    ensures
        with_ext(s.push(f), e) == (if f.ext == Some(e) {
            with_ext(s, e).push(f)
        } else {
            with_ext(s, e)
        }),
{
    reveal(Seq::filter);
    assert(s.push(f).drop_last() =~= s);
}

pub proof fn lemma_with_ext_none(s: Seq<FileV>, e: Seq<char>)
    requires
        forall|k: int| 0 <= k < s.len() ==> (#[trigger] s[k]).ext != Some(e),
    ensures
        with_ext(s, e) == Seq::<FileV>::empty(),
    decreases s.len(),
{
    if s.len() > 0 {
        assert(s.drop_last().push(s.last()) =~= s);
        lemma_with_ext_push(s.drop_last(), s.last(), e);
        lemma_with_ext_none(s.drop_last(), e);
    } else {
        reveal(Seq::filter);
    }
}

pub proof fn lemma_total_push(s: Seq<FileV>, f: FileV)
    ensures
        total_size(s.push(f)) == total_size(s) + f.size,
{
    assert(s.push(f).drop_last() =~= s);
}

pub proof fn lemma_total_with_ext(s: Seq<FileV>, e: Seq<char>)
    ensures
        0 <= total_size(with_ext(s, e)) <= total_size(s),
    decreases s.len(),
{
    if s.len() > 0 {
        lemma_total_with_ext(s.drop_last(), e);
        assert(s.drop_last().push(s.last()) =~= s);
        lemma_with_ext_push(s.drop_last(), s.last(), e);
        lemma_total_push(with_ext(s.drop_last(), e), s.last());
    }
}

/// How the tree changes when `f` is recorded.
pub open spec fn tree_after(t_old: Seq<Directory>, t: Seq<Directory>, f: FileV, b: Option<PathV>) -> bool {
    &&& t.len() >= t_old.len()
    &&& forall|i: int| 0 <= i < t_old.len() ==> (#[trigger] t[i])@ == bumped(t_old[i]@, f, b)
    &&& forall|i: int|
        t_old.len() <= i < t.len() ==> {
            &&& touched(f, b, (#[trigger] t[i]).path@)
            &&& !has_dir(t_old, t[i].path@)
            &&& t[i]@ == bumped(fresh_dir(t[i].path@), f, b)
        }
    &&& forall|p: PathV| touched(f, b, p) ==> has_dir(t, p)
}

pub open spec fn has_type(types: Seq<FileType>, e: Seq<char>) -> bool {
    exists|i: int| 0 <= i < types.len() && types[i].ext@ == e
}

/// How the extension groups change when `f` is recorded: the group of its
/// extension gains it, created at the end if there was none.
pub open spec fn types_after(old_types: Seq<FileType>, types: Seq<FileType>, f: FileV) -> bool {
    match f.ext {
        None => types == old_types,
        Some(e) => {
            &&& forall|i: int|
                0 <= i < old_types.len() ==> (#[trigger] types[i])@ == (if old_types[i].ext@ == e {
                    FileTypeV {
                        size: (old_types[i].size + f.size) as u64,
                        files: old_types[i]@.files.push(f),
                        ext: e,
                    }
                } else {
                    old_types[i]@
                })
            &&& has_type(old_types, e) ==> types.len() == old_types.len()
            &&& !has_type(old_types, e) ==> types.len() == old_types.len() + 1 && types.last()@
                == (FileTypeV { size: f.size, ext: e, files: seq![f] })
        },
    }
}

/// Adds `file` to the group of its extension `e`.
fn add_to_types(
    types: &mut Vec<FileType>,
    e: &String,
    file: &File,
    Ghost(files): Ghost<Seq<FileV>>,
)
    requires
        types_wf(old(types)@, files),
        file.ext == Some(*e),
        total_size(files) + file.size <= u64::MAX,
    ensures
        types_wf(final(types)@, files.push(file@)),
        types_after(old(types)@, final(types)@, file@),
{
    let ghost t0 = types@;
    let ghost fs = files.push(file@);
    proof {
        assert forall|x: Seq<char>| true implies #[trigger] with_ext(fs, x) == (if file@.ext == Some(
            x,
        ) {
            with_ext(files, x).push(file@)
        } else {
            with_ext(files, x)
        }) by {
            lemma_with_ext_push(files, file@, x);
        }
    }
    let mut i: usize = 0;
    while i < types.len() && types[i].ext != *e
        invariant
            types@ == t0,
            types_wf(t0, files),
            file.ext == Some(*e),
            total_size(files) + file.size <= u64::MAX,
            fs == files.push(file@),
            forall|x: Seq<char>| #[trigger] with_ext(fs, x) == (if file@.ext == Some(x) {
                with_ext(files, x).push(file@)
            } else {
                with_ext(files, x)
            }),
            i <= t0.len(),
            forall|j: int| 0 <= j < i ==> t0[j].ext@ != e@,
        decreases t0.len() - i,
    {
        i = i + 1;
    }
    if i < types.len() {
            proof {
                lemma_total_with_ext(files, e@);
            }
            let s = types[i].size + file.size;
            types[i].size = s;
            types[i].files.push(file.copy());
            proof {
                let t1 = types@;
                assert(t1[i as int]@.files =~= t0[i as int]@.files.push(file@));
                lemma_total_push(t0[i as int]@.files, file@);
                assert forall|j: int| 0 <= j < t0.len() implies (#[trigger] t1[j])@ == (if t0[j].ext@
                    == e@ {
                    FileTypeV {
                        size: (t0[j].size + file.size) as u64,
                        files: t0[j]@.files.push(file@),
                        ext: e@,
                    }
                } else {
                    t0[j]@
                }) by {
                    if j != i {
                        assert(t1[j] == t0[j]);
                    }
                }
                assert forall|k: int|
                    0 <= k < fs.len() && (#[trigger] fs[k]).ext is Some implies exists|j: int|
                        0 <= j < t1.len() && t1[j].ext@ == fs[k].ext->0 by {
                    if k < files.len() {
                        assert(fs[k] == files[k]);
                        let j = choose|j: int| 0 <= j < t0.len() && t0[j].ext@ == files[k].ext->0;
                        assert(t1[j].ext@ == t0[j].ext@);
                    } else {
                        assert(t1[i as int].ext@ == e@);
                    }
                }
                assert forall|j: int| 0 <= j < t1.len() implies {
                    &&& (#[trigger] t1[j])@.files == with_ext(fs, t1[j].ext@)
                    &&& t1[j].size == total_size(t1[j]@.files)
                } by {
                    if j != i {
                        assert(t1[j] == t0[j]);
                    }
                }
                assert(t0[i as int].ext@ == e@);
            }
        return;
    }
    let mut g = FileType { size: file.size, ext: e.clone(), files: Vec::new() };
    g.files.push(file.copy());
    types.push(g);
    proof {
        let t1 = types@;
        assert(t1.last()@.files =~= seq![file@]);
        assert(!has_type(t0, e@));
        assert forall|k: int| 0 <= k < files.len() implies (#[trigger] files[k]).ext != Some(e@) by {
            if files[k].ext == Some(e@) {
                let j = choose|j: int| 0 <= j < t0.len() && t0[j].ext@ == files[k].ext->0;
            }
        }
        lemma_with_ext_none(files, e@);
        assert(seq![file@] =~= Seq::<FileV>::empty().push(file@));
        lemma_total_push(Seq::empty(), file@);
        assert forall|k: int|
            0 <= k < fs.len() && (#[trigger] fs[k]).ext is Some implies exists|j: int|
                0 <= j < t1.len() && t1[j].ext@ == fs[k].ext->0 by {
            if k < files.len() {
                assert(fs[k] == files[k]);
                let j = choose|j: int| 0 <= j < t0.len() && t0[j].ext@ == files[k].ext->0;
                assert(t1[j] == t0[j]);
            } else {
                assert(t1[t0.len() as int].ext@ == e@);
            }
        }
        assert forall|j: int| 0 <= j < t1.len() implies {
            &&& (#[trigger] t1[j])@.files == with_ext(fs, t1[j].ext@)
            &&& t1[j].size == total_size(t1[j]@.files)
        } by {
            if j < t0.len() {
                assert(t1[j] == t0[j]);
            }
        }
        assert forall|j: int| 0 <= j < t0.len() implies (#[trigger] t1[j])@ == t0[j]@ by {
            assert(t1[j] == t0[j]);
        }
    }
}

/// How the tree changes when `dir` is noted as a subdirectory of `parent`.
pub open spec fn subdir_after(t_old: Seq<Directory>, t: Seq<Directory>, dir: PathV, parent: PathV) -> bool {
    &&& forall|i: int|
        0 <= i < t_old.len() ==> (#[trigger] t[i])@ == (if t_old[i].path@ == parent {
            DirectoryV { directories: t_old[i]@.directories.push(dir), ..t_old[i]@ }
        } else {
            t_old[i]@
        })
    &&& has_dir(t_old, parent) ==> t.len() == t_old.len()
    &&& !has_dir(t_old, parent) ==> t.len() == t_old.len() + 1 && t.last()@ == (DirectoryV {
        directories: seq![dir],
        ..fresh_dir(parent)
    })
}

/// The files of `files` held directly in `p`.
pub open spec fn in_dir(files: Seq<FileV>, p: PathV) -> Seq<FileV> {
    files.filter(|f: FileV| dir_of(f) == Some(p))
}

/// The files of `files` whose ancestor chain, up to the boundary, passes `p`.
pub open spec fn under(files: Seq<FileV>, b: Option<PathV>, p: PathV) -> Seq<FileV> {
    files.filter(|f: FileV| dir_of(f) is Some && in_chain(dir_of(f)->0, b, p))
}

/// Each directory's files and sizes are those of the recorded files: its
/// files are those held directly in it, its size is their total, and its
/// combined size is the total of the files whose chain passes it. Every
/// directory a file touches is in the tree.
pub open spec fn tree_matches_files(tree: Seq<Directory>, files: Seq<FileV>, b: Option<PathV>) -> bool {
    &&& forall|i: int|
        0 <= i < tree.len() ==> {
            &&& (#[trigger] tree[i])@.files == in_dir(files, tree[i].path@)
            &&& tree[i].size == total_size(in_dir(files, tree[i].path@))
            &&& tree[i].combined_size == total_size(under(files, b, tree[i].path@))
        }
    &&& forall|k: int, p: PathV| 0 <= k < files.len() && #[trigger] touched(files[k], b, p) ==> has_dir(tree, p)
}

pub proof fn lemma_filter_push<A>(s: Seq<A>, x: A, pred: spec_fn(A) -> bool)
    ensures
        s.push(x).filter(pred) == (if pred(x) {
            s.filter(pred).push(x)
        } else {
            s.filter(pred)
        }),
{
    reveal(Seq::filter);
    assert(s.push(x).drop_last() =~= s);
}

/// A path that no file touches has no files directly in it and none under it.
pub proof fn lemma_untouched_empty(files: Seq<FileV>, b: Option<PathV>, p: PathV)
    requires
        forall|k: int| 0 <= k < files.len() ==> !#[trigger] touched(files[k], b, p),
    ensures
        in_dir(files, p) == Seq::<FileV>::empty(),
        under(files, b, p) == Seq::<FileV>::empty(),
    decreases files.len(),
{
    if files.len() == 0 {
        reveal(Seq::filter);
    } else {
        let t = files.drop_last();
        assert(t.push(files.last()) =~= files);
        assert forall|k: int| 0 <= k < t.len() implies !touched(#[trigger] t[k], b, p) by {
            assert(t[k] == files[k]);
        }
        lemma_untouched_empty(t, b, p);
        assert(!touched(files[files.len() - 1], b, p));
        lemma_filter_push(t, files.last(), |f: FileV| dir_of(f) == Some(p));
        lemma_filter_push(t, files.last(), |f: FileV| dir_of(f) is Some && in_chain(dir_of(f)->0, b, p));
    }
}

/// Recording a file keeps each directory in step with the files.
proof fn lemma_matches_after_file(
    t_old: Seq<Directory>,
    t: Seq<Directory>,
    files: Seq<FileV>,
    f: FileV,
    b: Option<PathV>,
    total: u64,
)
    requires
        tree_matches_files(t_old, files, b),
        tree_after(t_old, t, f, b),
        tree_wf(t_old, b, total),
        total + f.size <= u64::MAX,
    ensures
        tree_matches_files(t, files.push(f), b),
{
    let fs = files.push(f);
    assert forall|i: int| 0 <= i < t.len() implies {
        &&& (#[trigger] t[i])@.files == in_dir(fs, t[i].path@)
        &&& t[i].size == total_size(in_dir(fs, t[i].path@))
        &&& t[i].combined_size == total_size(under(fs, b, t[i].path@))
    } by {
        let p = t[i].path@;
        lemma_filter_push(files, f, |g: FileV| dir_of(g) == Some(p));
        lemma_filter_push(files, f, |g: FileV| dir_of(g) is Some && in_chain(dir_of(g)->0, b, p));
        crate::aggregate::lemma_total_push(in_dir(files, p), f);
        crate::aggregate::lemma_total_push(under(files, b, p), f);
        if i < t_old.len() {
            assert(t[i]@ == bumped(t_old[i]@, f, b));
            assert(t_old[i].size <= total && t_old[i].combined_size <= total);
        } else {
            assert(!has_dir(t_old, p));
            assert forall|k: int| 0 <= k < files.len() implies !#[trigger] touched(files[k], b, p) by {
                if touched(files[k], b, p) {
                    assert(has_dir(t_old, p));
                }
            }
            lemma_untouched_empty(files, b, p);
            assert(t[i]@ == bumped(fresh_dir(p), f, b));
        }
        assert(t[i]@.size == t[i].size);
        assert(t[i]@.combined_size == t[i].combined_size);
    }
    assert forall|k: int, p: PathV| 0 <= k < fs.len() && #[trigger] touched(fs[k], b, p) implies has_dir(t, p) by {
        if k < files.len() {
            assert(fs[k] == files[k]);
            let w = choose|w: int| 0 <= w < t_old.len() && t_old[w].path@ == p;
            assert(t[w]@ == bumped(t_old[w]@, f, b));
        }
    }
}

/// Noting a subdirectory keeps each directory in step with the files.
proof fn lemma_matches_after_subdir(
    t_old: Seq<Directory>,
    t: Seq<Directory>,
    files: Seq<FileV>,
    b: Option<PathV>,
    dir: PathV,
    parent: PathV,
)
    requires
        tree_matches_files(t_old, files, b),
        subdir_after(t_old, t, dir, parent),
    ensures
        tree_matches_files(t, files, b),
{
    assert forall|i: int| 0 <= i < t.len() implies {
        &&& (#[trigger] t[i])@.files == in_dir(files, t[i].path@)
        &&& t[i].size == total_size(in_dir(files, t[i].path@))
        &&& t[i].combined_size == total_size(under(files, b, t[i].path@))
    } by {
        assert(t[i]@.size == t[i].size);
        assert(t[i]@.combined_size == t[i].combined_size);
        if i >= t_old.len() {
            assert(!has_dir(t_old, parent));
            assert(t[i]@ == t.last()@);
            assert forall|k: int| 0 <= k < files.len() implies !touched(#[trigger] files[k], b, parent) by {
                if touched(files[k], b, parent) {
                    assert(has_dir(t_old, parent));
                }
            }
            lemma_untouched_empty(files, b, parent);
            reveal(Seq::filter);
        }
    }
    assert forall|k: int, p: PathV| 0 <= k < files.len() && #[trigger] touched(files[k], b, p) implies has_dir(t, p) by {
        let w = choose|w: int| 0 <= w < t_old.len() && t_old[w].path@ == p;
        assert(t[w]@.path == t_old[w]@.path);
    }
}

impl DirInfo {
    /// The aggregate is consistent: totals match the files, each extension
    /// group holds exactly the files with its extension, and the tree's
    /// sizes propagate up to the boundary.
    pub open spec fn wf(&self) -> bool {
        &&& total_size(files_v(self.files@)) == self.combined_size
        &&& types_wf(self.filetypes@, files_v(self.files@))
        &&& tree_wf(self.tree@, opt_path(self.boundary), self.combined_size)
        &&& tree_matches_files(self.tree@, files_v(self.files@), opt_path(self.boundary))
    }

    pub open spec fn bound(&self) -> Option<PathV> {
        opt_path(self.boundary)
    }

    /// An empty aggregate with no boundary.
    pub fn new() -> (r: DirInfo)
        ensures
            r.wf(),
            r.files@.len() == 0,
            r.filetypes@.len() == 0,
            r.tree@.len() == 0,
            r.combined_size == 0,
            r.files_by_size@.len() == 0,
            r.types_by_size@.len() == 0,
            r.dirs_by_size@.len() == 0,
            r.duplicates@.len() == 0,
            r.boundary is None,
    {
        let r = DirInfo {
            filetypes: Vec::new(),
            files: Vec::new(),
            files_by_size: Vec::new(),
            types_by_size: Vec::new(),
            dirs_by_size: Vec::new(),
            tree: Vec::new(),
            combined_size: 0,
            duplicates: Vec::new(),
            boundary: None,
        };
        assert(files_v(r.files@) =~= Seq::empty());
        r
    }

    /// An empty aggregate for a scan of `root`: sizes stop below the root's parent.
    pub fn for_root(root: &FsPath) -> (r: DirInfo)
        ensures
            r.wf(),
            r.files@.len() == 0,
            r.filetypes@.len() == 0,
            r.tree@.len() == 0,
            r.combined_size == 0,
            r.files_by_size@.len() == 0,
            r.types_by_size@.len() == 0,
            r.dirs_by_size@.len() == 0,
            r.duplicates@.len() == 0,
            r.bound() == parent_of(root@),
    {
        let mut r = DirInfo::new();
        r.boundary = root.parent();
        r
    }

    /// The index of the directory at `p`, if the tree has one.
    pub fn find_dir(&self, p: &FsPath) -> (r: Option<usize>)
        ensures
            r matches Some(i) ==> i < self.tree@.len() && self.tree@[i as int].path@ == p@
                && forall|j: int| 0 <= j < i ==> self.tree@[j].path@ != p@,
            r is None ==> !has_dir(self.tree@, p@),
    {
        find_in(&self.tree, p)
    }

    /// Notes that `dir` is a subdirectory of `parent`, adding an empty node
    /// for `parent` if the tree has none. Sizes are left as they are.
    pub fn record_subdirectory(&mut self, dir: &FsPath, parent: &FsPath)
        requires
            old(self).wf(),
        ensures
            final(self).wf(),
            subdir_after(old(self).tree@, final(self).tree@, dir@, parent@),
            final(self).files == old(self).files,
            final(self).filetypes == old(self).filetypes,
            final(self).combined_size == old(self).combined_size,
            final(self).boundary == old(self).boundary,
            final(self).files_by_size == old(self).files_by_size,
            final(self).types_by_size == old(self).types_by_size,
            final(self).dirs_by_size == old(self).dirs_by_size,
            final(self).duplicates == old(self).duplicates,
    {
        let ghost t_old = self.tree@;
        let ghost b = self.bound();
        let i = dir_index(&mut self.tree, Ghost(b), Ghost(self.combined_size), parent);
        let ghost t0 = self.tree@;
        self.tree[i].directories.push(dir.copy());
        let ghost t1 = self.tree@;
        proof {
            assert(t1 == t0.update(i as int, t1[i as int]));
            assert forall|q: PathV| true implies #[trigger] child_sum(t1, q) == child_sum(t0, q) by {
                lemma_child_sum_update(t0, i as int, t1[i as int], q);
            }
            assert forall|k: int| 0 <= k < t1.len() implies #[trigger] t1[k].path@ == t0[k].path@
                && t1[k].combined_size == t0[k].combined_size && t1[k].size == t0[k].size by {}
            assert forall|k: int|
                0 <= k < t1.len() && #[trigger] t1[k].combined_size > 0 && inside(b, t1[k].path@)
                    && parent_of(t1[k].path@) is Some && inside(b, parent_of(t1[k].path@)->0)
                    implies has_dir(t1, parent_of(t1[k].path@)->0) by {
                let q = parent_of(t1[k].path@)->0;
                let w = choose|w: int| 0 <= w < t0.len() && t0[w].path@ == q;
                assert(t1[w].path@ == q);
            }
            assert(t1[i as int]@.directories =~= t0[i as int]@.directories.push(dir@));
            if !has_dir(t_old, parent@) {
                assert(t0[i as int]@.directories =~= Seq::<PathV>::empty());
            }
            lemma_matches_after_subdir(t_old, t1, files_v(self.files@), b, dir@, parent@);
        }
    }

    /// Records one file: it joins the list of all files, the group of its
    /// extension, its directory, and the combined size of each directory from
    /// its own up to the boundary.
    pub fn record_file(&mut self, file: File)
        requires
            old(self).wf(),
            old(self).combined_size + file.size <= u64::MAX,
        ensures
            final(self).wf(),
            final(self).files@ == old(self).files@.push(file),
            final(self).combined_size == old(self).combined_size + file.size,
            tree_after(old(self).tree@, final(self).tree@, file@, old(self).bound()),
            types_after(old(self).filetypes@, final(self).filetypes@, file@),
            final(self).boundary == old(self).boundary,
            final(self).files_by_size == old(self).files_by_size,
            final(self).types_by_size == old(self).types_by_size,
            final(self).dirs_by_size == old(self).dirs_by_size,
            final(self).duplicates == old(self).duplicates,
    {
        let ghost old_files = files_v(self.files@);
        let ghost b = self.bound();
        let ghost t_old = self.tree@;
        let ghost total = self.combined_size;
        match file.path.parent() {
            Some(dir) => {
                let plen = file.path.parts.len();
                assert(plen == file@.path.1.len());
                assert(dir@.1.len() == file@.path.1.len() - 1);
                assert(dir.parts@.len() == dir@.1.len());
                add_file_to_tree(&mut self.tree, &self.boundary, &file, &dir, Ghost(self.combined_size));
            },
            None => {
                proof {
                    assert forall|i: int| 0 <= i < t_old.len() implies (#[trigger] t_old[i])@ == bumped(
                        t_old[i]@,
                        file@,
                        b,
                    ) by {}
                    let t = self.tree@;
                    assert forall|i: int| 0 <= i < t.len() implies {
                        &&& (#[trigger] t[i])@.parent == parent_of(t[i].path@)
                        &&& t[i].size <= self.combined_size + file.size
                        &&& t[i].combined_size <= self.combined_size + file.size
                    } by {}
                }
            },
        }
        match &file.ext {
            Some(e) => {
                add_to_types(&mut self.filetypes, e, &file, Ghost(old_files));
            },
            None => {
                proof {
                    let ts = self.filetypes@;
                    let fs = old_files.push(file@);
                    assert forall|i: int| 0 <= i < ts.len() implies {
                        &&& (#[trigger] ts[i])@.files == with_ext(fs, ts[i].ext@)
                        &&& ts[i].size == total_size(ts[i]@.files)
                    } by {
                        lemma_with_ext_push(old_files, file@, ts[i].ext@);
                    }
                    assert forall|k: int|
                        0 <= k < fs.len() && (#[trigger] fs[k]).ext is Some implies exists|j: int|
                            0 <= j < ts.len() && ts[j].ext@ == fs[k].ext->0 by {
                        assert(fs[k] == old_files[k]);
                    }
                }
            },
        }
        let ghost f_v = file@;
        self.combined_size = self.combined_size + file.size;
        self.files.push(file);
        proof {
            assert(files_v(self.files@) =~= old_files.push(f_v));
            lemma_total_push(old_files, f_v);
            lemma_matches_after_file(t_old, self.tree@, old_files, f_v, b, total);
        }
    }
}

} // verus!
