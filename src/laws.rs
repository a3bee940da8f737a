use vstd::prelude::*;
use crate::path::{PathV, is_ancestor_or_self, is_proper_ancestor, parent_of};
use crate::model::{FileV, DirectoryV, FileTypeV};
use crate::aggregate::{
    DirInfo, inside, bumped, touched, with_ext, lemma_with_ext_push, lemma_untouched_empty, in_chain,
};
use crate::model::{files_v, types_v};
use crate::tree_sums::child_sum;
use crate::order::{stable_desc, keyed, lemma_stable_distinct, lemma_stable_same_items, lemma_stable_unique, lemma_in_keyed, lemma_keyed_member};
use crate::views::{
    file_size, dir_size, type_size, file_hash, members_sorted, is_types_order, is_duplicate_groups,
};

verus! {

/// In a consistent aggregate, every directory inside the scanned region has
/// a combined size equal to its own size plus the combined sizes of its
/// child directories.
pub proof fn lemma_combined_is_own_plus_children(info: DirInfo, i: int)
    requires
        info.wf(),
        0 <= i < info.tree@.len(),
        inside(info.bound(), info.tree@[i].path@),
    ensures
        info.tree@[i].combined_size == info.tree@[i].size + child_sum(info.tree@, info.tree@[i].path@),
{
}

/// Recording a file that lies outside `root` changes no directory at or
/// below `root`, whatever the boundary.
pub proof fn lemma_outside_file_leaves_root(root: PathV, b: Option<PathV>, f: FileV, d: DirectoryV)
    requires
        is_ancestor_or_self(root, d.path),
        !is_ancestor_or_self(root, f.path),
    ensures
        !touched(f, b, d.path),
        bumped(d, f, b) == d,
{
    if touched(f, b, d.path) {
        let dir = crate::model::dir_of(f)->0;
        // `d` is `dir` or above it, `root` is `d` or above it, so `root` is
        // above the file
        if dir == d.path {
            assert(dir.1.subrange(0, dir.1.len() as int) =~= dir.1);
        }
        assert(is_ancestor_or_self(d.path, dir));
        assert(root.1 =~= f.path.1.subrange(0, root.1.len() as int)) by {
            assert(dir.1 =~= f.path.1.drop_last());
            assert forall|k: int| 0 <= k < root.1.len() implies root.1[k] == f.path.1[k] by {
                assert(root.1[k] == d.path.1[k]);
                assert(d.path.1[k] == dir.1[k]);
            }
        }
    }
}

/// Each ordering is non-increasing in its key: files and directories by
/// size, file types by total size, and the files within each file type by
/// size.
pub proof fn lemma_orders_non_increasing(
    files_sorted: Seq<FileV>,
    files: Seq<FileV>,
    types_sorted: Seq<FileTypeV>,
    types: Seq<FileTypeV>,
    dirs_sorted: Seq<DirectoryV>,
    dirs: Seq<DirectoryV>,
)
    requires
        stable_desc(files_sorted, files, file_size()),
        is_types_order(types_sorted, types),
        stable_desc(dirs_sorted, dirs, dir_size()),
    ensures
        forall|i: int, j: int|
            0 <= i < j < files_sorted.len() ==> files_sorted[i].size >= files_sorted[j].size,
        forall|i: int, j: int|
            0 <= i < j < dirs_sorted.len() ==> dirs_sorted[i].size >= dirs_sorted[j].size,
        forall|i: int, j: int|
            0 <= i < j < types_sorted.len() ==> types_sorted[i].size >= types_sorted[j].size,
        forall|t: int, i: int, j: int|
            0 <= t < types_sorted.len() && 0 <= i < j < types_sorted[t].files.len()
                ==> types_sorted[t].files[i].size >= types_sorted[t].files[j].size,
{
    let g = choose|g: Seq<FileTypeV>|
        #![trigger stable_desc(types_sorted, g, type_size())]
        g.len() == types.len() && (forall|i: int|
            0 <= i < g.len() ==> members_sorted(#[trigger] g[i], types[i])) && stable_desc(
            types_sorted,
            g,
            type_size(),
        );
    assert forall|t: int, i: int, j: int|
        0 <= t < types_sorted.len() && 0 <= i < j < types_sorted[t].files.len()
            implies types_sorted[t].files[i].size >= types_sorted[t].files[j].size by {
        let x = types_sorted[t];
        lemma_in_keyed(types_sorted, type_size(), t);
        let f = keyed(types_sorted, type_size(), x.size);
        let w = choose|w: int| 0 <= w < f.len() && #[trigger] f[w] == x;
        assert(keyed(g, type_size(), x.size) == f);
        lemma_keyed_member(g, type_size(), x.size, w);
        let m = choose|m: int| 0 <= m < g.len() && g[m] == x;
        assert(members_sorted(g[m], types[m]));
        assert(file_size()(x.files[i]) >= file_size()(x.files[j]));
    }
    assert forall|i: int, j: int| 0 <= i < j < files_sorted.len() implies files_sorted[i].size
        >= files_sorted[j].size by {
        assert(file_size()(files_sorted[i]) >= file_size()(files_sorted[j]));
    }
    assert forall|i: int, j: int| 0 <= i < j < dirs_sorted.len() implies dirs_sorted[i].size
        >= dirs_sorted[j].size by {
        assert(dir_size()(dirs_sorted[i]) >= dir_size()(dirs_sorted[j]));
    }
    assert forall|i: int, j: int| 0 <= i < j < types_sorted.len() implies types_sorted[i].size
        >= types_sorted[j].size by {
        assert(type_size()(types_sorted[i]) >= type_size()(types_sorted[j]));
    }
}

/// Building the views twice from the same aggregate gives the same
/// sequences: each ordering is determined by what it orders.
pub proof fn lemma_views_deterministic(
    files: Seq<FileV>,
    types: Seq<FileTypeV>,
    dirs: Seq<DirectoryV>,
    f1: Seq<FileV>,
    f2: Seq<FileV>,
    t1: Seq<FileTypeV>,
    t2: Seq<FileTypeV>,
    d1: Seq<DirectoryV>,
    d2: Seq<DirectoryV>,
)
    requires
        stable_desc(f1, files, file_size()),
        stable_desc(f2, files, file_size()),
        is_types_order(t1, types),
        is_types_order(t2, types),
        stable_desc(d1, dirs, dir_size()),
        stable_desc(d2, dirs, dir_size()),
    ensures
        f1 == f2,
        t1 == t2,
        d1 == d2,
{
    lemma_stable_unique(f1, f2, files, file_size());
    lemma_stable_unique(d1, d2, dirs, dir_size());
    let g1 = choose|g: Seq<FileTypeV>|
        #![trigger stable_desc(t1, g, type_size())]
        g.len() == types.len() && (forall|i: int|
            0 <= i < g.len() ==> members_sorted(#[trigger] g[i], types[i])) && stable_desc(
            t1,
            g,
            type_size(),
        );
    let g2 = choose|g: Seq<FileTypeV>|
        #![trigger stable_desc(t2, g, type_size())]
        g.len() == types.len() && (forall|i: int|
            0 <= i < g.len() ==> members_sorted(#[trigger] g[i], types[i])) && stable_desc(
            t2,
            g,
            type_size(),
        );
    assert forall|i: int| 0 <= i < g1.len() implies g1[i] == g2[i] by {
        assert(members_sorted(g1[i], types[i]));
        assert(members_sorted(g2[i], types[i]));
        lemma_stable_unique(g1[i].files, g2[i].files, types[i].files, file_size());
    }
    assert(g1 =~= g2);
    lemma_stable_unique(t1, t2, g1, type_size());
}

/// A hash has a duplicate group exactly when two or more files share it,
/// and the group holds exactly those files.
pub proof fn lemma_duplicate_group_iff(r: Seq<(u64, Seq<FileV>)>, files: Seq<FileV>, h: u64)
    requires
        is_duplicate_groups(r, files),
    ensures
        (exists|j: int| 0 <= j < r.len() && r[j].0 == h) <==> keyed(files, file_hash(), h).len() >= 2,
        forall|j: int| 0 <= j < r.len() && r[j].0 == h ==> r[j].1 == keyed(files, file_hash(), h),
        forall|k: int, j: int|
            0 <= k < files.len() && 0 <= j < r.len() && keyed(files, file_hash(), files[k].hash).len()
                < 2 ==> !(#[trigger] r[j].1.contains(#[trigger] files[k])),
{
    assert forall|k: int, j: int|
        0 <= k < files.len() && 0 <= j < r.len() && keyed(files, file_hash(), files[k].hash).len()
            < 2 implies !(#[trigger] r[j].1.contains(#[trigger] files[k])) by {
        if r[j].1.contains(files[k]) {
            assert(r[j].1 == keyed(files, file_hash(), r[j].0));
            let w = choose|w: int| 0 <= w < r[j].1.len() && r[j].1[w] == files[k];
            lemma_keyed_member(files, file_hash(), r[j].0, w);
        }
    }
    if exists|j: int| 0 <= j < r.len() && r[j].0 == h {
        let j = choose|j: int| 0 <= j < r.len() && r[j].0 == h;
        assert(r[j].1 == keyed(files, file_hash(), r[j].0));
    }
    if keyed(files, file_hash(), h).len() >= 2 {
        assert(exists|j: int| 0 <= j < r.len() && r[j].0 == h);
    }
}

/// Each file with extension `e` is in the extension filter for `e`.
proof fn lemma_in_with_ext(s: Seq<FileV>, e: Seq<char>, i: int)
    requires
        0 <= i < s.len(),
        s[i].ext == Some(e),
    ensures
        with_ext(s, e).contains(s[i]),
    decreases s.len(),
{
    let t = s.drop_last();
    assert(t.push(s.last()) =~= s);
    lemma_with_ext_push(t, s.last(), e);
    if i < s.len() - 1 {
        assert(s[i] == t[i]);
        lemma_in_with_ext(t, e, i);
        let w = choose|w: int| 0 <= w < with_ext(t, e).len() && #[trigger] with_ext(t, e)[w] == s[i];
        assert(with_ext(s, e)[w] == s[i]);
    } else {
        let f = with_ext(s, e);
        assert(f[f.len() - 1] == s[i]);
    }
}

/// Two recorded files with the same extension key land in the same file
/// type, the one keyed by that extension.
pub proof fn lemma_same_extension_same_group(info: DirInfo, a: int, c: int)
    requires
        info.wf(),
        0 <= a < info.files@.len(),
        0 <= c < info.files@.len(),
        info.files@[a]@.ext is Some,
        info.files@[a]@.ext == info.files@[c]@.ext,
    ensures
        exists|g: int|
            0 <= g < info.filetypes@.len() && info.filetypes@[g].ext@ == info.files@[a]@.ext->0
                && info.filetypes@[g]@.files.contains(info.files@[a]@)
                && info.filetypes@[g]@.files.contains(info.files@[c]@),
{
    let fv = files_v(info.files@);
    let e = info.files@[a]@.ext->0;
    assert(fv[a] == info.files@[a]@);
    assert(fv[c] == info.files@[c]@);
    let g = choose|g: int| 0 <= g < info.filetypes@.len() && info.filetypes@[g].ext@ == fv[a].ext->0;
    assert(info.filetypes@[g]@.files == with_ext(fv, e));
    lemma_in_with_ext(fv, e, a);
    lemma_in_with_ext(fv, e, c);
}

/// Some group of `r` is `t` with its files ordered by size.
pub open spec fn has_sorted_copy(r: Seq<FileTypeV>, t: FileTypeV) -> bool {
    exists|i: int| 0 <= i < r.len() && members_sorted(r[i], t)
}

/// `x` is some group of `types` with its files ordered by size.
pub open spec fn sorted_copy_of_some(x: FileTypeV, types: Seq<FileTypeV>) -> bool {
    exists|m: int| 0 <= m < types.len() && members_sorted(x, types[m])
}

/// The file types ordering of a consistent aggregate holds each file type
/// exactly once: as many groups as there are extensions, no extension twice,
/// and each group with the same extension and size as a recorded one and its
/// files ordered by size.
pub proof fn lemma_types_by_size_groups(info: DirInfo, r: Seq<FileTypeV>)
    requires
        info.wf(),
        is_types_order(r, types_v(info.filetypes@)),
    ensures
        r.len() == info.filetypes@.len(),
        forall|i: int, j: int| 0 <= i < j < r.len() ==> r[i].ext != r[j].ext,
        forall|m: int| 0 <= m < info.filetypes@.len() ==> has_sorted_copy(r, #[trigger] info.filetypes@[m]@),
        forall|i: int| 0 <= i < r.len() ==> sorted_copy_of_some(#[trigger] r[i], types_v(info.filetypes@)),
{
    let types = types_v(info.filetypes@);
    let g = choose|g: Seq<FileTypeV>|
        #![trigger stable_desc(r, g, type_size())]
        g.len() == types.len() && (forall|i: int|
            0 <= i < g.len() ==> members_sorted(#[trigger] g[i], types[i])) && stable_desc(
            r,
            g,
            type_size(),
        );
    assert forall|i: int, j: int| 0 <= i < j < g.len() implies g[i] != g[j] by {
        assert(members_sorted(g[i], types[i]) && members_sorted(g[j], types[j]));
        assert(types[i].ext == info.filetypes@[i].ext@);
        assert(types[j].ext == info.filetypes@[j].ext@);
    }
    lemma_stable_distinct(r, g, type_size());
    lemma_stable_same_items(r, g, type_size());
    assert forall|i: int, j: int| 0 <= i < j < r.len() implies r[i].ext != r[j].ext by {
        assert(g.contains(r[i]) && g.contains(r[j]));
        let a = choose|a: int| 0 <= a < g.len() && g[a] == r[i];
        let c = choose|c: int| 0 <= c < g.len() && g[c] == r[j];
        assert(members_sorted(g[a], types[a]) && members_sorted(g[c], types[c]));
        assert(types[a].ext == info.filetypes@[a].ext@);
        assert(types[c].ext == info.filetypes@[c].ext@);
        if r[i].ext == r[j].ext {
            if a != c {
                assert(info.filetypes@[a].ext@ != info.filetypes@[c].ext@);
            }
        }
    }
    assert forall|m: int| 0 <= m < info.filetypes@.len() implies has_sorted_copy(r, #[trigger] info.filetypes@[m]@) by {
        assert(r.contains(g[m]));
        let i = choose|i: int| 0 <= i < r.len() && r[i] == g[m];
        assert(members_sorted(g[m], types[m]));
        assert(types[m] == info.filetypes@[m]@);
    }
    assert forall|i: int| 0 <= i < r.len() implies sorted_copy_of_some(#[trigger] r[i], types) by {
        assert(g.contains(r[i]));
        let a = choose|a: int| 0 <= a < g.len() && g[a] == r[i];
        assert(members_sorted(g[a], types[a]));
        assert(types[a] == info.filetypes@[a]@);
    }
}

/// With the boundary at the root's parent and every recorded file strictly
/// below the root, a directory outside the root's subtree holds nothing: no
/// files, no size, no combined size.
pub proof fn lemma_nothing_leaks_outside_root(info: DirInfo, root: PathV, i: int)
    requires
        info.wf(),
        info.bound() == parent_of(root),
        forall|k: int| 0 <= k < info.files@.len() ==> is_proper_ancestor(root, (#[trigger] info.files@[k])@.path),
        0 <= i < info.tree@.len(),
        !is_ancestor_or_self(root, info.tree@[i].path@),
    ensures
        info.tree@[i].files@.len() == 0,
        info.tree@[i].size == 0,
        info.tree@[i].combined_size == 0,
{
    let b = info.bound();
    let p = info.tree@[i].path@;
    let fv = files_v(info.files@);
    assert forall|k: int| 0 <= k < fv.len() implies !touched(#[trigger] fv[k], b, p) by {
        let f = fv[k];
        assert(f == info.files@[k]@);
        let dir = f.path.1.drop_last();
        let dv = crate::model::dir_of(f)->0;
        assert(dv == (f.path.0, dir));
        // the root is `dv` or above it
        assert(root.1 =~= dir.subrange(0, root.1.len() as int));
        if touched(f, b, p) {
            if dv == p {
                assert(is_ancestor_or_self(root, p));
            } else {
                assert(in_chain(dv, b, p));
                if p.1.len() >= root.1.len() {
                    assert(root.1 =~= p.1.subrange(0, root.1.len() as int));
                    assert(is_ancestor_or_self(root, p));
                } else {
                    assert(root.1.len() > 0);
                    let bp = b->0;
                    assert(bp.1 =~= root.1.drop_last());
                    assert(bp.1 =~= dir.subrange(0, bp.1.len() as int));
                    assert(is_ancestor_or_self(bp, dv));
                }
            }
        }
    }
    lemma_untouched_empty(fv, b, p);
    assert(info.tree@[i]@.files == crate::aggregate::in_dir(fv, p));
    assert(info.tree@[i]@.files.len() == info.tree@[i].files@.len());
}

} // verus!
