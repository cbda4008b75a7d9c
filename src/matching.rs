use vstd::prelude::*;
use crate::enumerate::trees_of;
use crate::tree::Tree;

verus! {

/// Which two traversals of a tree were observed, first and second.
pub enum TraversalPair {
    InorderPreorder,
    InorderPostorder,
    PreorderPostorder,
}

/// The two traversals of `t` that `pair` names, in the order it names them.
pub open spec fn traversals_for<T>(pair: TraversalPair, t: Tree<T>) -> (Seq<T>, Seq<T>) {
    match pair {
        TraversalPair::InorderPreorder => (t.spec_inorder(), t.spec_preorder()),
        TraversalPair::InorderPostorder => (t.spec_inorder(), t.spec_postorder()),
        TraversalPair::PreorderPostorder => (t.spec_preorder(), t.spec_postorder()),
    }
}

/// Whether the traversals of `t` that `pair` names are `first` and `second`.
pub open spec fn agrees<T>(pair: TraversalPair, t: Tree<T>, first: Seq<T>, second: Seq<T>) -> bool {
    traversals_for(pair, t) == (first, second)
}

/// Whether `a` and `b` hold the same values in the same order.
fn same_values(a: &Vec<i32>, b: &[i32]) -> (r: bool)
    ensures
        r == (a@ == b@),
{
    if a.len() != b.len() {
        return false;
    }
    let mut i: usize = 0;
    while i < a.len()
        invariant
            i <= a@.len(),
            a@.len() == b@.len(),
            a@.subrange(0, i as int) == b@.subrange(0, i as int),
        decreases a@.len() - i,
    {
        if a[i] != b[i] {
            return false;
        }
        i = i + 1;
        proof {
            assert(a@.subrange(0, i as int) =~= a@.subrange(0, i as int - 1).push(a@[i - 1]));
            assert(b@.subrange(0, i as int) =~= b@.subrange(0, i as int - 1).push(b@[i - 1]));
        }
    }
    proof {
        assert(a@ =~= a@.subrange(0, i as int));
        assert(b@ =~= b@.subrange(0, i as int));
    }
    true
}

/// Whether the traversals of `tree` that `pair` names are `first` and `second`.
pub fn tree_agrees(pair: &TraversalPair, tree: &Tree<i32>, first: &[i32], second: &[i32]) -> (r:
    bool)
    ensures
        r == agrees(*pair, *tree, first@, second@),
{
    match pair {
        TraversalPair::InorderPreorder => same_values(&tree.inorder(), first) && same_values(
            &tree.preorder(),
            second,
        ),
        TraversalPair::InorderPostorder => same_values(&tree.inorder(), first) && same_values(
            &tree.postorder(),
            second,
        ),
        TraversalPair::PreorderPostorder => same_values(&tree.preorder(), first) && same_values(
            &tree.postorder(),
            second,
        ),
    }
}

/// The trees over the items of `first` whose traversals named by `pair` are
/// `first` and `second`, in the order in which they are enumerated.
pub fn matching_trees(pair: TraversalPair, first: &[i32], second: &[i32]) -> (r: Vec<Tree<i32>>)
    ensures
        r@ == trees_of(first@).filter(|t: Tree<i32>| agrees(pair, t, first@, second@)),
{
    let all_trees = Tree::all_trees_with_items(first);
    let ghost keep = |t: Tree<i32>| agrees(pair, t, first@, second@);
    let mut found: Vec<Tree<i32>> = Vec::new();
    let mut k: usize = 0;
    while k < all_trees.len()
        invariant
            k <= all_trees@.len(),
            all_trees@ == trees_of(first@),
            keep == (|t: Tree<i32>| agrees(pair, t, first@, second@)),
            found@ == all_trees@.subrange(0, k as int).filter(keep),
        decreases all_trees@.len() - k,
    {
        let tree = &all_trees[k];
        let ghost before = all_trees@.subrange(0, k as int);
        if tree_agrees(&pair, tree, first, second) {
            found.push(tree.clone());
        }
        k = k + 1;
        proof {
            let now = all_trees@.subrange(0, k as int);
            assert(now.drop_last() =~= before);
            reveal(Seq::filter);
            assert(found@ =~= now.filter(keep));
        }
    }
    proof {
        assert(all_trees@.subrange(0, k as int) =~= all_trees@);
    }
    found
}

} // verus!
