use vstd::prelude::*;

verus! {

/// An infinitely branching tree: a label and an ordered sequence of owned subtrees.
pub struct Tree<T> {
    label: T,
    children: Vec<Tree<T>>,
}

impl<T> Tree<T> {
    /// The label carried by this node.
    pub closed spec fn spec_label(&self) -> T {
        self.label
    }

    /// The direct subtrees of this node, in sibling order.
    pub closed spec fn spec_children(&self) -> Seq<Tree<T>> {
        self.children@
    }

    /// Constructs a node with the given label and no children.
    pub fn new(label: T) -> (r: Self)
        ensures
            is_leaf_of(r, label),
    {
        Self { label, children: Vec::new() }
    }

    /// Builds a node from a label and an ordered sequence of subtrees.
    pub fn from_parts(label: T, children: Vec<Tree<T>>) -> (r: Self)
        ensures
            r.spec_label() == label,
            r.spec_children() == children@,
    {
        Self { label, children }
    }

    /// Takes this node apart into its label and its subtrees, in order.
    pub fn into_parts(self) -> (r: (T, Vec<Tree<T>>))
        ensures
            r.0 == self.spec_label(),
            r.1@ == self.spec_children(),
    {
        (self.label, self.children)
    }

    /// Returns the label of this node.
    pub fn label(&self) -> (r: &T)
        ensures
            *r == self.spec_label(),
    {
        &self.label
    }

    /// Returns how many children this tree contains.
    pub fn children(&self) -> (r: usize)
        ensures
            r == self.spec_children().len(),
    {
        self.children.len()
    }

    /// Returns the child at index `i`, or `None` when `i` is out of range.
    pub fn child_at(&self, i: usize) -> (r: Option<&Self>)
        ensures
            i < self.spec_children().len() ==> r == Some(&self.spec_children()[i as int]),
            i >= self.spec_children().len() ==> r.is_none(),
    {
        if i < self.children.len() {
            Some(&self.children[i])
        } else {
            None
        }
    }

    /// Returns the child at index `i` for in-place change, or `None` when `i` is out of range.
    /// Whatever is done through the returned reference becomes that child; the rest is kept.
    pub fn child_at_mut(&mut self, i: usize) -> (r: Option<&mut Self>)
        ensures
            i < old(self).spec_children().len() <==> r.is_some(),
            r.is_none() ==> *final(self) == *old(self),
            r.is_some() ==> {
                &&& *r.unwrap() == old(self).spec_children()[i as int]
                &&& final(self).spec_label() == old(self).spec_label()
                &&& final(self).spec_children() == old(self).spec_children().update(
                    i as int,
                    *final(r.unwrap()),
                )
            },
    {
        if i < self.children.len() {
            Some(&mut self.children[i])
        } else {
            None
        }
    }

    /// Walks `path` from its `k`-th index on and returns the node reached, for in-place change.
    /// Whatever is done through the returned reference becomes that node; the rest is kept.
    pub(crate) fn subtree_mut(&mut self, path: &Vec<usize>, k: usize) -> (r: &mut Self)
        requires
            k <= path@.len(),
            valid_path(*old(self), path@.skip(k as int)),
        ensures
            *r == subtree_at(*old(self), path@.skip(k as int)),
            replaced_at(*old(self), *final(self), path@.skip(k as int), *final(r)),
        decreases path@.len() - k,
    {
        if k == path.len() {
            self
        } else {
            assert(path@.skip(k as int).drop_first() =~= path@.skip(k + 1));
            let child = self.child_at_mut(path[k]).unwrap();
            child.subtree_mut(path, k + 1)
        }
    }

    /// Appends a new leaf with the given label as the last child.
    pub fn create_subtree(&mut self, label: T)
        ensures
            appended_leaf(*old(self), *final(self), label),
    {
        self.children.push(Tree::new(label));
        assert(self.children@.drop_last() =~= old(self).children@);
    }
}

/// `t` is a leaf carrying `label`.
pub open spec fn is_leaf_of<T>(t: Tree<T>, label: T) -> bool {
    &&& t.spec_label() == label
    &&& t.spec_children() == Seq::<Tree<T>>::empty()
}

/// `after` is `before` with one leaf carrying `label` appended as its last child.
pub open spec fn appended_leaf<T>(before: Tree<T>, after: Tree<T>, label: T) -> bool {
    &&& after.spec_label() == before.spec_label()
    &&& after.spec_children().len() == before.spec_children().len() + 1
    &&& after.spec_children().drop_last() == before.spec_children()
    &&& is_leaf_of(after.spec_children().last(), label)
}

/// A node never has more children than a `usize` counts.
pub proof fn lemma_children_fit<T>(t: Tree<T>)
    ensures
        t.spec_children().len() <= usize::MAX,
{
    assert(t.children.len() == t.children@.len());
}

/// After `create_subtree(label)` the node has one child more, the earlier children are
/// kept at their indices, and the child at the new last index, the one that `child_at`
/// returns there, is a leaf carrying `label`.
pub proof fn lemma_created_child<T>(before: Tree<T>, after: Tree<T>, label: T)
    requires
        appended_leaf(before, after, label),
    ensures
        after.spec_children().len() == before.spec_children().len() + 1,
        forall|j: int|
            0 <= j < before.spec_children().len() ==> #[trigger] after.spec_children()[j]
                == before.spec_children()[j],
        is_leaf_of(after.spec_children()[before.spec_children().len() as int], label),
{
    assert forall|j: int| 0 <= j < before.spec_children().len() implies #[trigger] after.spec_children()[j]
        == before.spec_children()[j] by {
        assert(after.spec_children().drop_last()[j] == after.spec_children()[j]);
    }
}

/// Following the child indices of `p` from `t` never leaves the tree.
pub open spec fn valid_path<T>(t: Tree<T>, p: Seq<usize>) -> bool
    decreases p.len(),
{
    p.len() == 0 || {
        &&& p[0] < t.spec_children().len()
        &&& valid_path(t.spec_children()[p[0] as int], p.drop_first())
    }
}

/// The node reached from `t` by following the child indices of `p`.
pub open spec fn subtree_at<T>(t: Tree<T>, p: Seq<usize>) -> Tree<T>
    recommends
        valid_path(t, p),
    decreases p.len(),
{
    if p.len() == 0 {
        t
    } else {
        subtree_at(t.spec_children()[p[0] as int], p.drop_first())
    }
}

/// `after` is `before` with the node at `p` replaced by `s`, and everything else kept.
pub open spec fn replaced_at<T>(before: Tree<T>, after: Tree<T>, p: Seq<usize>, s: Tree<T>) -> bool
    decreases p.len(),
{
    if p.len() == 0 {
        after == s
    } else {
        &&& after.spec_label() == before.spec_label()
        &&& after.spec_children().len() == before.spec_children().len()
        &&& after.spec_children() == before.spec_children().update(
            p[0] as int,
            after.spec_children()[p[0] as int],
        )
        &&& replaced_at(
            before.spec_children()[p[0] as int],
            after.spec_children()[p[0] as int],
            p.drop_first(),
            s,
        )
    }
}

/// Extending a valid path by one index stays valid exactly when the index names a child
/// of the node reached, and then reaches that child.
pub proof fn lemma_path_push<T>(t: Tree<T>, p: Seq<usize>, i: usize)
    requires
        valid_path(t, p),
    ensures
        valid_path(t, p.push(i)) <==> i < subtree_at(t, p).spec_children().len(),
        i < subtree_at(t, p).spec_children().len() ==> subtree_at(t, p.push(i))
            == subtree_at(t, p).spec_children()[i as int],
    decreases p.len(),
{
    if p.len() > 0 {
        assert(p.push(i).drop_first() =~= p.drop_first().push(i));
        lemma_path_push(t.spec_children()[p[0] as int], p.drop_first(), i);
    } else {
        assert(p.push(i).drop_first() =~= p);
        if i < t.spec_children().len() {
            let c = t.spec_children()[i as int];
            assert(valid_path(c, p));
            assert(subtree_at(c, p) == c);
        }
    }
}

/// Every prefix of a valid path is valid.
pub proof fn lemma_path_prefix<T>(t: Tree<T>, p: Seq<usize>, k: int)
    requires
        valid_path(t, p),
        0 <= k <= p.len(),
    ensures
        valid_path(t, p.take(k)),
    decreases p.len(),
{
    if k > 0 {
        assert(p.take(k).drop_first() =~= p.drop_first().take(k - 1));
        lemma_path_prefix(t.spec_children()[p[0] as int], p.drop_first(), k - 1);
    }
}

/// A valid non-empty path is its parent's path, which is valid, followed by the index of
/// an existing child.
pub proof fn lemma_path_parent<T>(t: Tree<T>, p: Seq<usize>)
    requires
        valid_path(t, p),
        p.len() > 0,
    ensures
        valid_path(t, p.drop_last()),
        p.last() < subtree_at(t, p.drop_last()).spec_children().len(),
        subtree_at(t, p) == subtree_at(t, p.drop_last()).spec_children()[p.last() as int],
{
    lemma_path_prefix(t, p, p.len() - 1);
    assert(p.take(p.len() - 1) =~= p.drop_last());
    assert(p.drop_last().push(p.last()) =~= p);
    lemma_path_push(t, p.drop_last(), p.last());
}

/// After a replacement at a valid path, the path is still valid and reaches the new node.
pub proof fn lemma_replaced_at<T>(before: Tree<T>, after: Tree<T>, p: Seq<usize>, s: Tree<T>)
    requires
        valid_path(before, p),
        replaced_at(before, after, p, s),
    ensures
        valid_path(after, p),
        subtree_at(after, p) == s,
    decreases p.len(),
{
    if p.len() > 0 {
        lemma_replaced_at(
            before.spec_children()[p[0] as int],
            after.spec_children()[p[0] as int],
            p.drop_first(),
            s,
        );
    }
}

} // verus!
