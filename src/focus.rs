use vstd::math::{max, min};
use vstd::prelude::*;

use crate::tree::{
    appended_leaf, is_leaf_of, lemma_children_fit, lemma_path_parent, lemma_path_prefix, lemma_path_push,
    lemma_replaced_at, replaced_at, subtree_at, valid_path, Tree,
};

verus! {

/// A movement within a tree.
/// * `Jump::Up` - To the parent of focused subtree.
/// * `Jump::Down` - To the first child of focused subtree.
/// * `Jump::Lateral(n)` - To the sibling subtree of distance `n`.
pub enum Jump {
    Up,
    Down,
    Lateral(i32),
}

/// A path to a point within a tree: the child indices followed from the root.
pub type Path = Vec<usize>;

/// A tool for building trees: a tree together with a path to its focused node.
pub struct Focus<T> {
    tree: Tree<T>,
    path: Path,
}

/// The sibling index reached by moving `n` places from index `o` among `k` siblings,
/// clamped into `0..k`.
pub open spec fn lateral_target(o: int, n: int, k: int) -> int {
    if o + n < 0 {
        0
    } else if o + n >= k {
        k - 1
    } else {
        o + n
    }
}

/// The path that `j` leads to from path `p` in tree `t`.
pub open spec fn jump_target<T>(t: Tree<T>, p: Seq<usize>, j: Jump) -> Seq<usize> {
    match j {
        Jump::Up => if p.len() == 0 {
            p
        } else {
            p.drop_last()
        },
        Jump::Down => if subtree_at(t, p).spec_children().len() > 0 {
            p.push(0)
        } else {
            p
        },
        Jump::Lateral(n) => if p.len() == 0 {
            p
        } else {
            let k = subtree_at(t, p.drop_last()).spec_children().len() as int;
            p.drop_last().push(lateral_target(p.last() as int, n as int, k) as usize)
        },
    }
}

/// The labels met from the root of `t` down to the node at `p`, that node included.
pub open spec fn path_labels<T>(t: Tree<T>, p: Seq<usize>) -> Seq<T> {
    Seq::new(p.len() + 1, |k: int| subtree_at(t, p.take(k)).spec_label())
}

/// The path that `Focus::from` starts at: the one given, or the root's.
pub open spec fn start_path(path: Option<Path>) -> Seq<usize> {
    match path {
        Some(p) => p@,
        None => Seq::empty(),
    }
}

/// Moving up from the root leaves the path as it is.
pub proof fn lemma_up_at_root<T>(t: Tree<T>)
    ensures
        jump_target(t, Seq::empty(), Jump::Up) == Seq::<usize>::empty(),
{
}

/// Moving down from a node without children leaves the path as it is.
pub proof fn lemma_down_at_leaf<T>(t: Tree<T>, p: Seq<usize>)
    requires
        valid_path(t, p),
        subtree_at(t, p).spec_children().len() == 0,
    ensures
        jump_target(t, p, Jump::Down) == p,
{
}

/// A lateral move by `n` from sibling index `o` among `k` siblings lands on index
/// `max(0, min(k - 1, o + n))` under the same parent; at the root it leaves the path as it is.
pub proof fn lemma_lateral_clamps<T>(t: Tree<T>, p: Seq<usize>, n: i32)
    requires
        valid_path(t, p),
    ensures
        p.len() == 0 ==> jump_target(t, p, Jump::Lateral(n)) == p,
        p.len() > 0 ==> {
            let k = subtree_at(t, p.drop_last()).spec_children().len() as int;
            let q = jump_target(t, p, Jump::Lateral(n));
            &&& q.len() == p.len()
            &&& q.drop_last() == p.drop_last()
            &&& q.last() as int == max(0, min(k - 1, p.last() + n))
        },
{
    if p.len() > 0 {
        lemma_path_parent(t, p);
        lemma_children_fit(subtree_at(t, p.drop_last()));
        let q = jump_target(t, p, Jump::Lateral(n));
        assert(q.drop_last() =~= p.drop_last());
    }
}

/// Every jump from a valid path leads to a valid path.
pub proof fn lemma_jump_keeps_path_valid<T>(t: Tree<T>, p: Seq<usize>, j: Jump)
    requires
        valid_path(t, p),
    ensures
        valid_path(t, jump_target(t, p, j)),
{
    match j {
        Jump::Up => {
            if p.len() > 0 {
                lemma_path_parent(t, p);
            }
        },
        Jump::Down => {
            lemma_path_push(t, p, 0);
        },
        Jump::Lateral(n) => {
            if p.len() > 0 {
                lemma_path_parent(t, p);
                let k = subtree_at(t, p.drop_last()).spec_children().len() as int;
                lemma_path_push(t, p.drop_last(), lateral_target(p.last() as int, n as int, k) as usize);
            }
        },
    }
}

/// The labels along a path are one more than its indices: the root's and one per step.
pub proof fn lemma_labels_len<T>(t: Tree<T>, p: Seq<usize>)
    ensures
        path_labels(t, p).len() == p.len() + 1,
{
}

impl<T> Focus<T> {
    /// The tree this focus owns.
    pub closed spec fn spec_tree(&self) -> Tree<T> {
        self.tree
    }

    /// The path from the root to the focused node.
    pub closed spec fn spec_path(&self) -> Seq<usize> {
        self.path@
    }

    /// The path addresses an existing node of the tree.
    pub open spec fn wf(&self) -> bool {
        valid_path(self.spec_tree(), self.spec_path())
    }

    /// The node that the path addresses.
    pub open spec fn focused_node(&self) -> Tree<T> {
        subtree_at(self.spec_tree(), self.spec_path())
    }

    /// Constructs and returns a new `Focus` from provided `Tree`.
    /// * If `None` is provided as `path` - the focus will have an empty path.
    /// * If `Some(path)` is provided as `path` - the focus path will be `path`.
    /// Returns none if the provided path doesn't point to an existing point on the tree.
    pub fn from(tree: Tree<T>, path: Option<Path>) -> (r: Option<Self>)
        ensures
            r.is_some() <==> valid_path(tree, start_path(path)),
            r.is_some() ==> {
                &&& r.unwrap().spec_tree() == tree
                &&& r.unwrap().spec_path() == start_path(path)
                &&& r.unwrap().wf()
            },
    {
        let focus = Self {
            tree,
            path: match path {
                Some(path) => path,
                None => Path::new(),
            },
        };
        match focus.at_path(&focus.path) {
            Some(_) => Some(focus),
            None => None,
        }
    }

    /// Constructs and returns a new `Focus` from provided `label`.
    pub fn new(label: T) -> (r: Self)
        ensures
            r.wf(),
            is_leaf_of(r.spec_tree(), label),
            r.spec_path() == Seq::<usize>::empty(),
    {
        Self::from(Tree::new(label), None).unwrap()
    }

    /// Returns the path to the focused tree/subtree.
    pub fn path(&self) -> (r: &Path)
        ensures
            r@ == self.spec_path(),
    {
        &self.path
    }

    /// Returns the tree/subtree reached by `path`.
    fn at_path(&self, path: &Path) -> (r: Option<&Tree<T>>)
        ensures
            valid_path(self.spec_tree(), path@) ==> r == Some(&subtree_at(self.spec_tree(), path@)),
            !valid_path(self.spec_tree(), path@) ==> r.is_none(),
    {
        let mut cur = &self.tree;
        let mut k: usize = 0;
        while k < path.len()
            invariant
                k <= path@.len(),
                valid_path(self.tree, path@.take(k as int)),
                *cur == subtree_at(self.tree, path@.take(k as int)),
            decreases path@.len() - k,
        {
            proof {
                assert(path@.take(k as int).push(path@[k as int]) =~= path@.take(k + 1));
                lemma_path_push(self.tree, path@.take(k as int), path@[k as int]);
            }
            match cur.child_at(path[k]) {
                Some(child) => cur = child,
                None => {
                    proof {
                        if valid_path(self.tree, path@) {
                            lemma_path_prefix(self.tree, path@, k + 1);
                        }
                    }
                    return None;
                },
            }
            k += 1;
        }
        assert(path@.take(k as int) =~= path@);
        Some(cur)
    }

    /// Returns the currently focused tree/subtree.
    pub fn focused(&self) -> (r: &Tree<T>)
        requires
            self.wf(),
        ensures
            *r == self.focused_node(),
    {
        self.at_path(&self.path).unwrap()
    }

    /// Returns a mutable reference to the focused tree/subtree.
    fn focused_mut(&mut self) -> (r: &mut Tree<T>)
        requires
            old(self).wf(),
        ensures
            *r == old(self).focused_node(),
            final(self).spec_path() == old(self).spec_path(),
            replaced_at(old(self).spec_tree(), final(self).spec_tree(), old(self).spec_path(), *final(r)),
    {
        assert(self.path@.skip(0) =~= self.path@);
        self.tree.subtree_mut(&self.path, 0)
    }

    /// Changes focus according to the provided `jump`.
    pub fn jump(&mut self, jump: Jump)
        requires
            old(self).wf(),
        ensures
            final(self).wf(),
            final(self).spec_tree() == old(self).spec_tree(),
            final(self).spec_path() == jump_target(old(self).spec_tree(), old(self).spec_path(), jump),
    {
        let ghost p = self.path@;
        match jump {
            Jump::Up => {
                if self.path.len() > 0 {
                    proof {
                        lemma_path_parent(self.tree, p);
                    }
                }
                self.path.pop();
            },
            Jump::Down => {
                if self.focused().children() > 0 {
                    proof {
                        lemma_path_push(self.tree, p, 0);
                    }
                    self.path.push(0);
                }
            },
            Jump::Lateral(x) => {
                if self.path.len() > 0 {
                    proof {
                        lemma_path_parent(self.tree, p);
                    }
                    let o = self.path.pop().unwrap();
                    let ub = self.focused().children();
                    let n: usize = if x < 0 {
                        let d = (-(x as i64)) as usize;
                        if d > o {
                            0
                        } else {
                            o - d
                        }
                    } else {
                        let d = x as usize;
                        if d >= ub - o {
                            ub - 1
                        } else {
                            o + d
                        }
                    };
                    proof {
                        lemma_path_push(self.tree, p.drop_last(), n);
                    }
                    self.path.push(n);
                }
            },
        }
    }

    /// Creates new child subtree of focused tree/subtree, and focuses it.
    pub fn create_subtree(&mut self, label: T)
        requires
            old(self).wf(),
        ensures
            final(self).wf(),
            final(self).spec_path() == old(self).spec_path().push(
                old(self).focused_node().spec_children().len() as usize,
            ),
            appended_leaf(
                old(self).focused_node(),
                subtree_at(final(self).spec_tree(), old(self).spec_path()),
                label,
            ),
            replaced_at(
                old(self).spec_tree(),
                final(self).spec_tree(),
                old(self).spec_path(),
                subtree_at(final(self).spec_tree(), old(self).spec_path()),
            ),
            is_leaf_of(final(self).focused_node(), label),
    {
        let ghost before = self.tree;
        let ghost p = self.path@;
        let node = self.focused_mut();
        node.create_subtree(label);
        let ghost grown = *node;
        proof {
            lemma_replaced_at(before, self.tree, p, grown);
        }
        let n = self.focused().children() - 1;
        proof {
            lemma_path_push(self.tree, p, n);
        }
        self.path.push(n);
    }

    /// Get all labels along current path, from the root to the focused node.
    pub fn labels(&self) -> (r: Vec<&T>)
        requires
            self.wf(),
        ensures
            r@.len() == self.spec_path().len() + 1,
            forall|k: int|
                0 <= k < r@.len() ==> *r@[k] == path_labels(self.spec_tree(), self.spec_path())[k],
    {
        let ghost t = self.tree;
        let ghost p = self.path@;
        let mut labels: Vec<&T> = Vec::new();
        let mut cur = &self.tree;
        let mut k: usize = 0;
        while k < self.path.len()
            invariant
                t == self.tree,
                p == self.path@,
                k <= p.len(),
                valid_path(t, p),
                *cur == subtree_at(t, p.take(k as int)),
                labels@.len() == k,
                forall|j: int| 0 <= j < k ==> *labels@[j] == path_labels(t, p)[j],
            decreases p.len() - k,
        {
            labels.push(cur.label());
            proof {
                lemma_path_prefix(t, p, k as int);
                assert(p.take(k as int).push(p[k as int]) =~= p.take(k + 1));
                lemma_path_push(t, p.take(k as int), p[k as int]);
                lemma_path_prefix(t, p, k + 1);
            }
            cur = cur.child_at(self.path[k]).unwrap();
            k += 1;
        }
        assert(p.take(k as int) =~= p);
        labels.push(cur.label());
        labels
    }

    /// Takes the focus apart into its tree and its path.
    pub fn into_parts(self) -> (r: (Tree<T>, Path))
        ensures
            r.0 == self.spec_tree(),
            r.1@ == self.spec_path(),
    {
        (self.tree, self.path)
    }
}

} // verus!
