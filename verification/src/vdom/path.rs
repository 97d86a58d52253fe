use vstd::prelude::*;

verus! {

/// The address of a node: child ordinals from the implicit wrapper down to the node.
///
/// The first ordinal, always 0 for the tree's own root, selects the root under the
/// wrapper; each later one selects a child of the node before it.
#[derive(Debug, PartialEq, Eq)]
pub struct TreePath {
    pub path: Vec<usize>,
}

impl View for TreePath {
    type V = Seq<usize>;

    open spec fn view(&self) -> Seq<usize> {
        self.path@
    }
}

impl TreePath {
    /// A path made of the given ordinals.
    pub fn new(path: Vec<usize>) -> (r: TreePath)
        ensures
            r@ == path@,
    {
        TreePath { path }
    }

    /// The path of the root of a tree.
    pub fn root() -> (r: TreePath)
        ensures
            r@ == seq![0usize],
    {
        let mut path: Vec<usize> = Vec::new();
        path.push(0);
        assert(path@ =~= seq![0usize]);
        TreePath { path }
    }

    /// The path of the child with ordinal `index` under the node at this path.
    pub fn traverse(&self, index: usize) -> (r: TreePath)
        ensures
            r@ == self@.push(index),
    {
        let mut path: Vec<usize> = Vec::new();
        let mut i: usize = 0;
        while i < self.path.len()
            invariant
                i <= self.path.len(),
                path@ == self.path@.take(i as int),
            decreases self.path.len() - i,
        {
            path.push(self.path[i]);
            assert(self.path@.take(i as int + 1) =~= self.path@.take(i as int).push(
                self.path@[i as int],
            ));
            i += 1;
        }
        assert(self.path@.take(i as int) =~= self.path@);
        path.push(index);
        TreePath { path }
    }
}

impl Clone for TreePath {
    fn clone(&self) -> (r: TreePath)
        ensures
            r@ == self@,
    {
        let mut path: Vec<usize> = Vec::new();
        let mut i: usize = 0;
        while i < self.path.len()
            invariant
                i <= self.path.len(),
                path@ == self.path@.take(i as int),
            decreases self.path.len() - i,
        {
            path.push(self.path[i]);
            assert(self.path@.take(i as int + 1) =~= self.path@.take(i as int).push(
                self.path@[i as int],
            ));
            i += 1;
        }
        assert(self.path@.take(i as int) =~= self.path@);
        TreePath { path }
    }
}

} // verus!
