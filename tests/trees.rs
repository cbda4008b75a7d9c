use tree_rebuild::matching::{matching_trees, tree_agrees, TraversalPair};
use tree_rebuild::split::{items_without, split_permutations};
use tree_rebuild::tree::Tree;

fn renderings(trees: &[Tree<i32>]) -> Vec<String> {
    trees.iter().map(|t| t.render()).collect()
}

fn sorted(mut v: Vec<i32>) -> Vec<i32> {
    v.sort();
    v
}

#[test]
fn no_items_give_no_tree() {
    assert_eq!(Tree::<i32>::all_trees_with_items(&[]).len(), 0);
}

#[test]
fn one_item_gives_one_leaf() {
    let trees = Tree::all_trees_with_items(&[7]);
    assert_eq!(trees.len(), 1);
    assert_eq!(trees[0].render(), "7");
    assert!(trees[0].left.is_none());
    assert!(trees[0].right.is_none());
}

#[test]
fn two_items_give_four_trees() {
    let trees = Tree::all_trees_with_items(&[1, 2]);
    assert_eq!(
        renderings(&trees),
        vec!["1 { L 2 }", "1 { R 2 }", "2 { L 1 }", "2 { R 1 }"]
    );
}

#[test]
fn three_items_give_thirty_trees() {
    let trees = Tree::all_trees_with_items(&[1, 2, 3]);
    assert_eq!(trees.len(), 30);
    let mut texts = renderings(&trees);
    texts.sort();
    texts.dedup();
    assert_eq!(texts.len(), 30);
}

#[test]
fn four_items_give_three_hundred_thirty_six_trees() {
    assert_eq!(Tree::all_trees_with_items(&[1, 2, 3, 4]).len(), 336);
}

#[test]
fn every_tree_holds_the_items() {
    let items = [4, 1, 4, 9];
    let trees = Tree::all_trees_with_items(&items);
    assert!(!trees.is_empty());
    for t in &trees {
        assert_eq!(sorted(t.inorder()), vec![1, 4, 4, 9]);
        assert_eq!(sorted(t.preorder()), vec![1, 4, 4, 9]);
        assert_eq!(sorted(t.postorder()), vec![1, 4, 4, 9]);
    }
}

#[test]
fn traversals_repeat() {
    for t in &Tree::all_trees_with_items(&[3, 1, 2]) {
        assert_eq!(t.inorder(), t.inorder());
        assert_eq!(t.preorder(), t.preorder());
        assert_eq!(t.postorder(), t.postorder());
    }
}

#[test]
fn traversal_orders() {
    let t = Tree {
        value: 2,
        left: Some(Box::new(Tree { value: 1, left: None, right: None })),
        right: Some(Box::new(Tree {
            value: 4,
            left: Some(Box::new(Tree { value: 3, left: None, right: None })),
            right: None,
        })),
    };
    assert_eq!(t.inorder(), vec![1, 2, 3, 4]);
    assert_eq!(t.preorder(), vec![2, 1, 4, 3]);
    assert_eq!(t.postorder(), vec![1, 3, 4, 2]);
    assert_eq!(t.render(), "2 { L 1 R 4 { L 3 } }");
    let copy = t.clone();
    assert_eq!(copy.render(), t.render());
}

#[test]
fn render_numbers() {
    assert_eq!(Tree::all_trees_with_items(&[-5])[0].render(), "-5");
    assert_eq!(Tree::all_trees_with_items(&[0])[0].render(), "0");
    assert_eq!(Tree::all_trees_with_items(&[120])[0].render(), "120");
    assert_eq!(Tree::all_trees_with_items(&[i32::MIN])[0].render(), "-2147483648");
    assert_eq!(Tree::all_trees_with_items(&[i32::MAX])[0].render(), "2147483647");
}

#[test]
fn splits_of_one_item() {
    assert_eq!(
        split_permutations(&[5]),
        vec![(vec![5], vec![]), (vec![], vec![5])]
    );
}

#[test]
fn splits_of_three_items() {
    let splits = split_permutations(&[1, 2, 3]);
    assert_eq!(splits.len(), 8);
    assert_eq!(splits[0], (vec![1, 2, 3], vec![]));
    assert_eq!(splits[1], (vec![2, 3], vec![1]));
    assert_eq!(splits[2], (vec![1, 3], vec![2]));
    assert_eq!(splits[5], (vec![2], vec![1, 3]));
    assert_eq!(splits[7], (vec![], vec![1, 2, 3]));
    for (l, r) in &splits {
        let mut all = l.clone();
        all.extend(r.iter().copied());
        assert_eq!(sorted(all), vec![1, 2, 3]);
        assert!(l.windows(2).all(|w| w[0] < w[1]));
        assert!(r.windows(2).all(|w| w[0] < w[1]));
    }
    let mut lefts: Vec<Vec<i32>> = splits.iter().map(|p| p.0.clone()).collect();
    lefts.sort();
    lefts.dedup();
    assert_eq!(lefts.len(), 8);
}

#[test]
fn splits_count_doubles() {
    for n in 1..=6usize {
        let items: Vec<u8> = (0..n as u8).collect();
        assert_eq!(split_permutations(&items).len(), 1 << n);
    }
}

#[test]
fn items_without_an_index() {
    assert_eq!(items_without(&[1, 2, 3], 0), vec![2, 3]);
    assert_eq!(items_without(&[1, 2, 3], 1), vec![1, 3]);
    assert_eq!(items_without(&[1, 2, 3], 2), vec![1, 2]);
    assert_eq!(items_without(&[1, 2, 3], 3), vec![1, 2, 3]);
}

#[test]
fn inorder_preorder_balanced() {
    let found = matching_trees(TraversalPair::InorderPreorder, &[1, 2, 3], &[2, 1, 3]);
    assert_eq!(renderings(&found), vec!["2 { L 1 R 3 }"]);
}

#[test]
fn inorder_preorder_two_items() {
    let found = matching_trees(TraversalPair::InorderPreorder, &[1, 2], &[1, 2]);
    assert_eq!(renderings(&found), vec!["1 { R 2 }"]);
}

#[test]
fn inorder_preorder_right_chain() {
    let found = matching_trees(TraversalPair::InorderPreorder, &[1, 2, 3], &[1, 2, 3]);
    assert_eq!(renderings(&found), vec!["1 { R 2 { R 3 } }"]);
}

#[test]
fn mismatched_values_match_nothing() {
    let found = matching_trees(TraversalPair::InorderPreorder, &[1, 2], &[3, 4]);
    assert!(found.is_empty());
}

#[test]
fn inorder_postorder_balanced() {
    let found = matching_trees(TraversalPair::InorderPostorder, &[1, 2, 3], &[1, 3, 2]);
    assert_eq!(renderings(&found), vec!["2 { L 1 R 3 }"]);
}

#[test]
fn preorder_postorder_leaves_side_open() {
    let found = matching_trees(TraversalPair::PreorderPostorder, &[1, 2], &[2, 1]);
    assert_eq!(renderings(&found), vec!["1 { L 2 }", "1 { R 2 }"]);
}

#[test]
fn agreement_of_one_tree() {
    let t = &Tree::all_trees_with_items(&[1, 2])[1];
    assert!(tree_agrees(&TraversalPair::InorderPreorder, t, &[1, 2], &[1, 2]));
    assert!(!tree_agrees(&TraversalPair::InorderPostorder, t, &[1, 2], &[1, 2]));
    assert!(tree_agrees(&TraversalPair::PreorderPostorder, t, &[1, 2], &[2, 1]));
}
