use vstd::prelude::*;
use crate::path::{PathV, parent_of};
use crate::model::Directory;

verus! {

/// Sum of the combined sizes of the directories of `tree` whose parent is `p`.
pub open spec fn child_sum(tree: Seq<Directory>, p: PathV) -> int
    decreases tree.len(),
{
    if tree.len() == 0 {
        0
    } else {
        child_sum(tree.drop_last(), p) + (if parent_of(tree.last().path@) == Some(p) {
            tree.last().combined_size as int
        } else {
            0
        })
    }
}

pub proof fn lemma_child_sum_push(tree: Seq<Directory>, d: Directory, p: PathV)
    ensures
        child_sum(tree.push(d), p) == child_sum(tree, p) + (if parent_of(d.path@) == Some(p) {
            d.combined_size as int
        } else {
            0
        }),
{
    assert(tree.push(d).drop_last() =~= tree);
}

pub proof fn lemma_child_sum_update(tree: Seq<Directory>, i: int, d: Directory, p: PathV)
    requires
        0 <= i < tree.len(),
    ensures
        child_sum(tree.update(i, d), p) == child_sum(tree, p) - (if parent_of(tree[i].path@) == Some(
            p,
        ) {
            tree[i].combined_size as int
        } else {
            0
        }) + (if parent_of(d.path@) == Some(p) {
            d.combined_size as int
        } else {
            0
        }),
    decreases tree.len(),
{
    let t2 = tree.update(i, d);
    if i == tree.len() - 1 {
        assert(t2.drop_last() =~= tree.drop_last());
    } else {
        assert(t2.drop_last() =~= tree.drop_last().update(i, d));
        lemma_child_sum_update(tree.drop_last(), i, d, p);
    }
}

/// With no child of `p` holding any size, the children of `p` add nothing.
pub proof fn lemma_child_sum_zero(tree: Seq<Directory>, p: PathV)
    requires
        forall|i: int|
            0 <= i < tree.len() && parent_of(#[trigger] tree[i].path@) == Some(p)
                ==> tree[i].combined_size == 0,
    ensures
        child_sum(tree, p) == 0,
    decreases tree.len(),
{
    if tree.len() > 0 {
        assert forall|i: int|
            0 <= i < tree.drop_last().len() && parent_of(
                #[trigger] tree.drop_last()[i].path@,
            ) == Some(p) implies tree.drop_last()[i].combined_size == 0 by {
            assert(tree.drop_last()[i] == tree[i]);
        }
        lemma_child_sum_zero(tree.drop_last(), p);
    }
}

} // verus!
