use vstd::prelude::*;

verus! {

/// A path split into its anchor and its normal components.
///
/// `anchor` is the text before the first component: empty for a relative
/// path, `/` for an absolute one (or a drive prefix with its separator).
/// `parts` are the components in order, from the anchor down.
pub struct FsPath {
    pub anchor: String,
    pub parts: Vec<String>,
}

/// The mathematical path: the anchor's characters and each component's characters.
pub type PathV = (Seq<char>, Seq<Seq<char>>);

impl View for FsPath {
    type V = PathV;

    open spec fn view(&self) -> PathV {
        (self.anchor@, texts_of(self.parts@))
    }
}

/// The characters of each string in a sequence.
pub open spec fn texts_of(v: Seq<String>) -> Seq<Seq<char>> {
    v.map_values(|s: String| s@)
}

/// The parent of a path: the path without its last component; none for a
/// bare anchor.
pub open spec fn parent_of(p: PathV) -> Option<PathV> {
    if p.1.len() == 0 {
        None
    } else {
        Some((p.0, p.1.drop_last()))
    }
}

/// `a` is `p` or one of its ancestors.
pub open spec fn is_ancestor_or_self(a: PathV, p: PathV) -> bool {
    a.0 == p.0 && a.1.len() <= p.1.len() && a.1 == p.1.subrange(0, a.1.len() as int)
}

/// `a` is a proper ancestor of `p`.
pub open spec fn is_proper_ancestor(a: PathV, p: PathV) -> bool {
    is_ancestor_or_self(a, p) && a.1.len() < p.1.len()
}

/// The ancestor of `p` (or `p` itself) with `k` components.
pub open spec fn prefix_of(p: PathV, k: int) -> PathV {
    (p.0, p.1.subrange(0, k))
}

impl FsPath {
    /// A path from its anchor and components.
    pub fn new(anchor: String, parts: Vec<String>) -> (r: FsPath)
        ensures
            r.anchor == anchor,
            r.parts == parts,
    {
        FsPath { anchor, parts }
    }

    /// An equal copy.
    pub fn copy(&self) -> (r: FsPath)
        ensures
            r@ == self@,
    {
        FsPath { anchor: self.anchor.clone(), parts: self.prefix_parts(self.parts.len()) }
    }

    /// The first `k` components, copied.
    fn prefix_parts(&self, k: usize) -> (r: Vec<String>)
        requires
            k <= self.parts.len(),
        ensures
            texts_of(r@) == self@.1.subrange(0, k as int),
    {
        let mut r: Vec<String> = Vec::new();
        let mut i: usize = 0;
        while i < k
            invariant
                i <= k <= self.parts.len(),
                r@.len() == i,
                texts_of(r@) == self@.1.subrange(0, i as int),
            decreases k - i,
        {
            let ghost before = r@;
            r.push(self.parts[i].clone());
            assert(r@ == before.push(self.parts@[i as int]));
            assert forall|j: int| 0 <= j < i + 1 implies #[trigger] texts_of(r@)[j] == self@.1[j] by {
                if j < i {
                    assert(texts_of(before)[j] == self@.1.subrange(0, i as int)[j]);
                }
            }
            assert(texts_of(r@) =~= self@.1.subrange(0, i + 1));
            i = i + 1;
        }
        r
    }

    /// The ancestor of this path (or the path itself) with `k` components.
    pub fn prefix(&self, k: usize) -> (r: FsPath)
        requires
            k <= self.parts.len(),
        ensures
            r@ == prefix_of(self@, k as int),
    {
        FsPath { anchor: self.anchor.clone(), parts: self.prefix_parts(k) }
    }

    /// The parent path, none for a bare anchor.
    pub fn parent(&self) -> (r: Option<FsPath>)
        ensures
            r matches Some(p) ==> parent_of(self@) == Some(p@),
            r is None ==> parent_of(self@) is None,
    {
        if self.parts.len() == 0 {
            None
        } else {
            Some(self.prefix(self.parts.len() - 1))
        }
    }

    /// Whether two paths are the same.
    pub fn same_as(&self, other: &FsPath) -> (r: bool)
        ensures
            r == (self@ == other@),
    {
        if self.anchor != other.anchor {
            return false;
        }
        if self.parts.len() != other.parts.len() {
            assert(self@.1.len() != other@.1.len());
            return false;
        }
        let mut i: usize = 0;
        while i < self.parts.len()
            invariant
                self.parts.len() == other.parts.len(),
                i <= self.parts.len(),
                forall|j: int| 0 <= j < i ==> self.parts@[j]@ == other.parts@[j]@,
            decreases self.parts.len() - i,
        {
            if self.parts[i] != other.parts[i] {
                assert(self@.1[i as int] != other@.1[i as int]);
                return false;
            }
            i = i + 1;
        }
        assert(self@.1 =~= other@.1);
        true
    }

    /// Whether this path is `p` or one of its ancestors.
    pub fn is_ancestor_or_self_of(&self, p: &FsPath) -> (r: bool)
        ensures
            r == is_ancestor_or_self(self@, p@),
    {
        if self.anchor != p.anchor || self.parts.len() > p.parts.len() {
            return false;
        }
        let mut i: usize = 0;
        while i < self.parts.len()
            invariant
                self.parts.len() <= p.parts.len(),
                i <= self.parts.len(),
                forall|j: int| 0 <= j < i ==> self.parts@[j]@ == p.parts@[j]@,
            decreases self.parts.len() - i,
        {
            if self.parts[i] != p.parts[i] {
                assert(self@.1[i as int] != p@.1.subrange(0, self@.1.len() as int)[i as int]);
                return false;
            }
            i = i + 1;
        }
        assert(self@.1 =~= p@.1.subrange(0, self@.1.len() as int));
        true
    }
}

} // verus!
