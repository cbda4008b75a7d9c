use vstd::prelude::*;
use vstd::arithmetic::power2::pow2;
use vstd::multiset::Multiset;
use crate::split::{
    items_without, lemma_pick_parts, lemma_split_mask_len, lemma_split_parts_len, pick, split_at_index,
    split_mask, split_permutations, splits_of,
};
use crate::tree::Tree;

verus! {

/// A tree of one node holding `v`.
pub open spec fn leaf<T>(v: T) -> Tree<T> {
    Tree { value: v, left: None, right: None }
}

/// The trees with root `v`, left subtree `lt` and every right subtree of `rights`, in order.
pub open spec fn row<T>(v: T, lt: Tree<T>, rights: Seq<Tree<T>>) -> Seq<Tree<T>> {
    rights.map_values(|rt: Tree<T>| Tree { value: v, left: Some(Box::new(lt)), right: Some(Box::new(rt)) })
}

/// The rows of the first `a` left subtrees of `lefts`, one after another.
pub open spec fn cross<T>(v: T, lefts: Seq<Tree<T>>, rights: Seq<Tree<T>>, a: nat) -> Seq<Tree<T>>
    decreases a,
{
    if a == 0 || a > lefts.len() {
        seq![]
    } else {
        cross(v, lefts, rights, (a - 1) as nat) + row(v, lefts[a - 1], rights)
    }
}

/// The trees with root `v` over candidate left and right subtrees: with no left
/// candidates, one tree per right one (and the other way round); else every pair.
pub open spec fn joined<T>(v: T, lefts: Seq<Tree<T>>, rights: Seq<Tree<T>>) -> Seq<Tree<T>> {
    if lefts.len() == 0 {
        rights.map_values(|rt: Tree<T>| Tree { value: v, left: None, right: Some(Box::new(rt)) })
    } else if rights.len() == 0 {
        lefts.map_values(|lt: Tree<T>| Tree { value: v, left: Some(Box::new(lt)), right: None })
    } else {
        cross(v, lefts, rights, lefts.len())
    }
}

/// Every tree over the items of `s`, in the order in which they are built: by
/// root position, then by split of the other items, then by left and right subtree.
pub open spec fn trees_of<T>(s: Seq<T>) -> Seq<Tree<T>>
    decreases s.len(), 3nat, 0nat,
{
    if s.len() == 0 {
        seq![]
    } else if s.len() == 1 {
        seq![leaf(s[0])]
    } else {
        roots_upto(s, s.len())
    }
}

/// The trees of `trees_of(s)` whose root is one of the first `i` items of `s`.
pub open spec fn roots_upto<T>(s: Seq<T>, i: nat) -> Seq<Tree<T>>
    decreases s.len(), 2nat, i,
{
    if i == 0 || i > s.len() {
        seq![]
    } else {
        let others = s.remove(i - 1);
        roots_upto(s, (i - 1) as nat) + splits_upto(
            s[i - 1],
            splits_of(others),
            pow2(others.len()),
            s.len(),
        )
    }
}

/// The trees with root `v` over the first `k` splits of `sp`, each part shorter than `bound`.
pub open spec fn splits_upto<T>(v: T, sp: Seq<(Seq<T>, Seq<T>)>, k: nat, bound: nat) -> Seq<
    Tree<T>,
>
    decreases bound, 1nat, k,
{
    if k == 0 || k > sp.len() {
        seq![]
    } else {
        let p = sp[k - 1];
        let last = if p.0.len() < bound && p.1.len() < bound {
            joined(v, trees_of(p.0), trees_of(p.1))
        } else {
            seq![]
        };
        splits_upto(v, sp, (k - 1) as nat, bound) + last
    }
}

/// The values of a node, read in order, are those of its left part, its own value
/// and those of its right part.
proof fn lemma_node_items<T>(l: Seq<T>, v: T, r: Seq<T>)
    ensures
        (l + seq![v] + r).to_multiset() == l.to_multiset().add(r.to_multiset()).insert(v),
{
    broadcast use vstd::multiset::group_multiset_axioms;
    broadcast use vstd::seq_lib::group_to_multiset_ensures;

    vstd::seq_lib::lemma_multiset_commutative(l + seq![v], r);
    assert(l + seq![v] == l.push(v));
    assert((l + seq![v] + r).to_multiset() =~= l.to_multiset().add(r.to_multiset()).insert(v));
}

/// The sequence with no items has no values.
proof fn lemma_no_items<T>(s: Seq<T>)
    requires
        s.len() == 0,
    ensures
        s.to_multiset() == Multiset::<T>::empty(),
{
    broadcast use vstd::seq_lib::group_to_multiset_ensures;

    vstd::multiset::lemma_multiset_empty_len(s.to_multiset());
}

/// Every tree of `cross` reads in order as a left candidate, `v` and a right candidate.
proof fn lemma_cross_items<T>(
    v: T,
    lefts: Seq<Tree<T>>,
    rights: Seq<Tree<T>>,
    a: nat,
    ma: Multiset<T>,
    mb: Multiset<T>,
)
    requires
        forall|x: int| 0 <= x < lefts.len() ==> (#[trigger] lefts[x]).spec_inorder().to_multiset() == ma,
        forall|y: int| 0 <= y < rights.len() ==> (#[trigger] rights[y]).spec_inorder().to_multiset() == mb,
    ensures
        forall|k: int|
            0 <= k < cross(v, lefts, rights, a).len() ==> (#[trigger] cross(
                v,
                lefts,
                rights,
                a,
            )[k]).spec_inorder().to_multiset() == ma.add(mb).insert(v),
    decreases a,
{
    if a == 0 || a > lefts.len() {
    } else {
        lemma_cross_items(v, lefts, rights, (a - 1) as nat, ma, mb);
        let prev = cross(v, lefts, rights, (a - 1) as nat);
        let lt = lefts[a - 1];
        let rw = row(v, lt, rights);
        assert forall|k: int| 0 <= k < cross(v, lefts, rights, a).len() implies (#[trigger] cross(
            v,
            lefts,
            rights,
            a,
        )[k]).spec_inorder().to_multiset() == ma.add(mb).insert(v) by {
            if k >= prev.len() {
                let rt = rights[k - prev.len()];
                assert(cross(v, lefts, rights, a)[k] == rw[k - prev.len()]);
                lemma_node_items(lt.spec_inorder(), v, rt.spec_inorder());
            } else {
                assert(cross(v, lefts, rights, a)[k] == prev[k]);
            }
        }
    }
}

/// Every tree of `joined` over the trees of `a` and of `b` holds the items of `a`, of `b` and `v`.
proof fn lemma_joined_items<T>(v: T, a: Seq<T>, b: Seq<T>)
    requires
        forall|k: int|
            0 <= k < trees_of(a).len() ==> (#[trigger] trees_of(a)[k]).spec_inorder().to_multiset()
                == a.to_multiset(),
        forall|k: int|
            0 <= k < trees_of(b).len() ==> (#[trigger] trees_of(b)[k]).spec_inorder().to_multiset()
                == b.to_multiset(),
        a.len() > 0 ==> trees_of(a).len() > 0,
        b.len() > 0 ==> trees_of(b).len() > 0,
    ensures
        forall|k: int|
            0 <= k < joined(v, trees_of(a), trees_of(b)).len() ==> (#[trigger] joined(
                v,
                trees_of(a),
                trees_of(b),
            )[k]).spec_inorder().to_multiset() == a.to_multiset().add(b.to_multiset()).insert(v),
{
    broadcast use vstd::multiset::group_multiset_axioms;

    let lefts = trees_of(a);
    let rights = trees_of(b);
    let e: Seq<T> = seq![];
    if lefts.len() == 0 {
        lemma_no_items(a);
        assert forall|k: int| 0 <= k < joined(v, lefts, rights).len() implies (#[trigger] joined(
            v,
            lefts,
            rights,
        )[k]).spec_inorder().to_multiset() == a.to_multiset().add(b.to_multiset()).insert(v) by {
            let rt = rights[k];
            lemma_node_items(e, v, rt.spec_inorder());
            lemma_no_items(e);
            assert(e + seq![v] + rt.spec_inorder() == seq![v] + rt.spec_inorder());
            assert(a.to_multiset().add(b.to_multiset()) =~= b.to_multiset());
        }
    } else if rights.len() == 0 {
        lemma_no_items(b);
        assert forall|k: int| 0 <= k < joined(v, lefts, rights).len() implies (#[trigger] joined(
            v,
            lefts,
            rights,
        )[k]).spec_inorder().to_multiset() == a.to_multiset().add(b.to_multiset()).insert(v) by {
            let lt = lefts[k];
            lemma_node_items(lt.spec_inorder(), v, e);
            lemma_no_items(e);
            assert(lt.spec_inorder() + seq![v] + e == lt.spec_inorder() + seq![v]);
            assert(a.to_multiset().add(b.to_multiset()) =~= a.to_multiset());
        }
    } else {
        lemma_cross_items(v, lefts, rights, lefts.len(), a.to_multiset(), b.to_multiset());
    }
}

/// The split numbered 0 sends every item to the left part.
proof fn lemma_first_split<T>(s: Seq<T>)
    ensures
        split_at_index(s, 0) == (s, Seq::<T>::empty()),
    decreases s.len(),
{
    if s.len() > 0 {
        lemma_first_split(s.drop_first());
        assert(split_mask(s.len(), 0).drop_first() == split_mask((s.len() - 1) as nat, 0));
        assert(seq![s[0]] + s.drop_first() =~= s);
    } else {
        assert(s =~= Seq::<T>::empty());
    }
}

/// `splits_upto` only grows with `k`.
proof fn lemma_splits_upto_grows<T>(v: T, sp: Seq<(Seq<T>, Seq<T>)>, k: nat, bound: nat)
    requires
        1 <= k <= sp.len(),
    ensures
        splits_upto(v, sp, k, bound).len() >= splits_upto(v, sp, 1, bound).len(),
    decreases k,
{
    if k > 1 {
        lemma_splits_upto_grows(v, sp, (k - 1) as nat, bound);
    }
}

/// Some tree holds the items of any non-empty sequence.
pub proof fn lemma_trees_nonempty<T>(s: Seq<T>)
    requires
        s.len() > 0,
    ensures
        trees_of(s).len() > 0,
    decreases s.len(),
{
    if s.len() > 1 {
        let n = s.len();
        let others = s.remove(n - 1);
        let sp = splits_of(others);
        vstd::arithmetic::power2::lemma_pow2_pos(others.len());
        lemma_first_split(others);
        assert(sp[0] == split_at_index(others, 0));
        lemma_trees_nonempty(others);
        lemma_splits_upto_grows(s[n - 1], sp, pow2(others.len()), n);
        assert(splits_upto(s[n - 1], sp, 0, n) =~= seq![]);
    }
}

/// Every tree over the items of `s` holds each of them once: the values that
/// its inorder traversal lists are, as a multiset, the items of `s`.
pub proof fn lemma_trees_hold_items<T>(s: Seq<T>)
    ensures
        forall|k: int|
            0 <= k < trees_of(s).len() ==> (#[trigger] trees_of(s)[k]).spec_inorder().to_multiset()
                == s.to_multiset(),
    decreases s.len(), 3nat, 0nat,
{
    if s.len() == 1 {
        let e: Seq<T> = seq![];
        assert(e + seq![s[0]] + e =~= s);
        assert(leaf(s[0]).spec_inorder() == e + seq![s[0]] + e);
        assert(trees_of(s) == seq![leaf(s[0])]);
        assert(trees_of(s)[0].spec_inorder() == s);
    } else if s.len() > 1 {
        lemma_roots_hold_items(s, s.len());
        assert(trees_of(s) == roots_upto(s, s.len()));
    } else {
        assert(trees_of(s).len() == 0);
    }
}

proof fn lemma_roots_hold_items<T>(s: Seq<T>, i: nat)
    requires
        i <= s.len(),
    ensures
        forall|k: int|
            0 <= k < roots_upto(s, i).len() ==> (#[trigger] roots_upto(s, i)[k]).spec_inorder().to_multiset()
                == s.to_multiset(),
    decreases s.len(), 2nat, i,
{
    broadcast use vstd::multiset::group_multiset_axioms;

    if i > 0 {
        lemma_roots_hold_items(s, (i - 1) as nat);
        let others = s.remove(i - 1);
        let v = s[i - 1];
        let prev = roots_upto(s, (i - 1) as nat);
        let last = splits_upto(v, splits_of(others), pow2(others.len()), s.len());
        lemma_splits_hold_items(v, others, pow2(others.len()), s.len());
        vstd::seq_lib::to_multiset_remove(s, i - 1);
        s.to_multiset_ensures();
        assert(s.contains(v));
        assert(others.to_multiset().insert(v) =~= s.to_multiset());
        assert forall|k: int| 0 <= k < roots_upto(s, i).len() implies (#[trigger] roots_upto(
            s,
            i,
        )[k]).spec_inorder().to_multiset() == s.to_multiset() by {
            if k < prev.len() {
                assert(roots_upto(s, i)[k] == prev[k]);
            } else {
                assert(roots_upto(s, i)[k] == last[k - prev.len()]);
            }
        }
    }
}

proof fn lemma_splits_hold_items<T>(v: T, t: Seq<T>, k: nat, bound: nat)
    ensures
        forall|x: int|
            0 <= x < splits_upto(v, splits_of(t), k, bound).len() ==> (#[trigger] splits_upto(
                v,
                splits_of(t),
                k,
                bound,
            )[x]).spec_inorder().to_multiset() == t.to_multiset().insert(v),
    decreases bound, 1nat, k,
{
    let sp = splits_of(t);
    if k > 0 && k <= sp.len() {
        lemma_splits_hold_items(v, t, (k - 1) as nat, bound);
        let p = sp[k - 1];
        assert(p == split_at_index(t, (k - 1) as nat));
        lemma_split_mask_len(t.len(), (k - 1) as nat);
        lemma_pick_parts(t, split_mask(t.len(), (k - 1) as nat));
        let prev = splits_upto(v, sp, (k - 1) as nat, bound);
        if p.0.len() < bound && p.1.len() < bound {
            lemma_trees_hold_items(p.0);
            lemma_trees_hold_items(p.1);
            if p.0.len() > 0 {
                lemma_trees_nonempty(p.0);
            }
            if p.1.len() > 0 {
                lemma_trees_nonempty(p.1);
            }
            lemma_joined_items(v, p.0, p.1);
        }
        let last = if p.0.len() < bound && p.1.len() < bound {
            joined(v, trees_of(p.0), trees_of(p.1))
        } else {
            seq![]
        };
        assert forall|x: int| 0 <= x < splits_upto(v, sp, k, bound).len() implies (#[trigger] splits_upto(
            v,
            sp,
            k,
            bound,
        )[x]).spec_inorder().to_multiset() == t.to_multiset().insert(v) by {
            if x < prev.len() {
                assert(splits_upto(v, sp, k, bound)[x] == prev[x]);
            } else {
                assert(splits_upto(v, sp, k, bound)[x] == last[x - prev.len()]);
            }
        }
    }
}

/// `pick` keeps as many items of two sequences of one length under one mask.
proof fn lemma_pick_len_same<T>(a: Seq<T>, b: Seq<T>, mask: Seq<bool>, side: bool)
    requires
        a.len() == b.len(),
    ensures
        pick(a, mask, side).len() == pick(b, mask, side).len(),
    decreases a.len(),
{
    if a.len() > 0 && mask.len() > 0 {
        lemma_pick_len_same(a.drop_first(), b.drop_first(), mask.drop_first(), side);
    }
}

/// The length of `cross` depends on the lengths of the candidate sequences alone.
proof fn lemma_cross_len_same<T>(
    v: T,
    l1: Seq<Tree<T>>,
    r1: Seq<Tree<T>>,
    w: T,
    l2: Seq<Tree<T>>,
    r2: Seq<Tree<T>>,
    a: nat,
)
    requires
        l1.len() == l2.len(),
        r1.len() == r2.len(),
    ensures
        cross(v, l1, r1, a).len() == cross(w, l2, r2, a).len(),
    decreases a,
{
    if a > 0 && a <= l1.len() {
        lemma_cross_len_same(v, l1, r1, w, l2, r2, (a - 1) as nat);
    }
}

/// How many trees there are over `s` depends on the number of items of `s`
/// alone, not on their values, whether distinct or repeated.
pub proof fn lemma_tree_count_by_length<T>(s1: Seq<T>, s2: Seq<T>)
    requires
        s1.len() == s2.len(),
    ensures
        trees_of(s1).len() == trees_of(s2).len(),
    decreases s1.len(), 3nat, 0nat,
{
    if s1.len() > 1 {
        lemma_roots_count_same(s1, s2, s1.len());
    }
}

proof fn lemma_roots_count_same<T>(s1: Seq<T>, s2: Seq<T>, i: nat)
    requires
        s1.len() == s2.len(),
        i <= s1.len(),
    ensures
        roots_upto(s1, i).len() == roots_upto(s2, i).len(),
    decreases s1.len(), 2nat, i,
{
    if i > 0 {
        lemma_roots_count_same(s1, s2, (i - 1) as nat);
        let t1 = s1.remove(i - 1);
        let t2 = s2.remove(i - 1);
        lemma_splits_count_same(s1[i - 1], t1, s2[i - 1], t2, pow2(t1.len()), s1.len());
    }
}

proof fn lemma_splits_count_same<T>(v: T, t1: Seq<T>, w: T, t2: Seq<T>, k: nat, bound: nat)
    requires
        t1.len() == t2.len(),
    ensures
        splits_upto(v, splits_of(t1), k, bound).len() == splits_upto(
            w,
            splits_of(t2),
            k,
            bound,
        ).len(),
    decreases bound, 1nat, k,
{
    let sp1 = splits_of(t1);
    let sp2 = splits_of(t2);
    if k > 0 && k <= sp1.len() {
        lemma_splits_count_same(v, t1, w, t2, (k - 1) as nat, bound);
        let j = (k - 1) as nat;
        assert(sp1[j as int] == split_at_index(t1, j));
        assert(sp2[j as int] == split_at_index(t2, j));
        let m = split_mask(t1.len(), j);
        lemma_pick_len_same(t1, t2, m, true);
        lemma_pick_len_same(t1, t2, m, false);
        let p1 = sp1[j as int];
        let p2 = sp2[j as int];
        if p1.0.len() < bound && p1.1.len() < bound {
            lemma_tree_count_by_length(p1.0, p2.0);
            lemma_tree_count_by_length(p1.1, p2.1);
            let (l1, r1) = (trees_of(p1.0), trees_of(p1.1));
            let (l2, r2) = (trees_of(p2.0), trees_of(p2.1));
            lemma_cross_len_same(v, l1, r1, w, l2, r2, l1.len());
            assert(joined(v, l1, r1).len() == joined(w, l2, r2).len());
        }
    }
}

/// Appends to `trees` every tree with root `value` over the candidate subtrees.
fn push_joined<T: Copy>(
    trees: &mut Vec<Tree<T>>,
    value: T,
    lefts: &Vec<Tree<T>>,
    rights: &Vec<Tree<T>>,
)
    ensures
        final(trees)@ == old(trees)@ + joined(value, lefts@, rights@),
{
    let ghost start = trees@;
    if lefts.len() == 0 {
        let mut b: usize = 0;
        while b < rights.len()
            invariant
                b <= rights@.len(),
                trees@ == start + rights@.subrange(0, b as int).map_values(
                    |rt: Tree<T>| Tree { value: value, left: None, right: Some(Box::new(rt)) },
                ),
            decreases rights@.len() - b,
        {
            trees.push(Tree { value: value, left: None, right: Some(Box::new(rights[b].clone())) });
            b = b + 1;
            proof {
                assert(trees@ =~= start + rights@.subrange(0, b as int).map_values(
                    |rt: Tree<T>| Tree { value: value, left: None, right: Some(Box::new(rt)) },
                ));
            }
        }
        proof {
            assert(rights@.subrange(0, b as int) =~= rights@);
        }
        return ;
    }
    if rights.len() == 0 {
        let mut a: usize = 0;
        while a < lefts.len()
            invariant
                a <= lefts@.len(),
                trees@ == start + lefts@.subrange(0, a as int).map_values(
                    |lt: Tree<T>| Tree { value: value, left: Some(Box::new(lt)), right: None },
                ),
            decreases lefts@.len() - a,
        {
            trees.push(Tree { value: value, left: Some(Box::new(lefts[a].clone())), right: None });
            a = a + 1;
            proof {
                assert(trees@ =~= start + lefts@.subrange(0, a as int).map_values(
                    |lt: Tree<T>| Tree { value: value, left: Some(Box::new(lt)), right: None },
                ));
            }
        }
        proof {
            assert(lefts@.subrange(0, a as int) =~= lefts@);
        }
        return ;
    }
    let mut a: usize = 0;
    while a < lefts.len()
        invariant
            a <= lefts@.len(),
            trees@ == start + cross(value, lefts@, rights@, a as nat),
        decreases lefts@.len() - a,
    {
        let ghost row_start = trees@;
        let mut b: usize = 0;
        while b < rights.len()
            invariant
                a < lefts@.len(),
                b <= rights@.len(),
                trees@ == row_start + row(value, lefts@[a as int], rights@.subrange(0, b as int)),
            decreases rights@.len() - b,
        {
            trees.push(
                Tree {
                    value: value,
                    left: Some(Box::new(lefts[a].clone())),
                    right: Some(Box::new(rights[b].clone())),
                },
            );
            b = b + 1;
            proof {
                assert(trees@ =~= row_start + row(
                    value,
                    lefts@[a as int],
                    rights@.subrange(0, b as int),
                ));
            }
        }
        proof {
            assert(rights@.subrange(0, b as int) =~= rights@);
            assert(trees@ =~= start + cross(value, lefts@, rights@, (a + 1) as nat));
        }
        a = a + 1;
    }
}

impl<T: Copy> Tree<T> {
    /// Every binary tree whose nodes hold exactly the items of `items`, each item
    /// used once as a node of its own.
    pub fn all_trees_with_items(items: &[T]) -> (r: Vec<Tree<T>>)
        ensures
            r@ == trees_of(items@),
        decreases items@.len(),
    {
        let ghost s = items@;
        if items.len() == 0 {
            return Vec::new();
        }
        if items.len() == 1 {
            let mut one: Vec<Tree<T>> = Vec::new();
            one.push(Tree { value: items[0], left: None, right: None });
            proof {
                assert(one@ =~= trees_of(s));
            }
            return one;
        }
        let mut trees: Vec<Tree<T>> = Vec::new();
        let mut i: usize = 0;
        while i < items.len()
            invariant
                i <= s.len(),
                s.len() >= 2,
                s == items@,
                trees@ == roots_upto(s, i as nat),
            decreases s.len() - i,
        {
            let main_item = items[i];
            let others = items_without(items, i);
            let perms = split_permutations(others.as_slice());
            let ghost t = others@;
            let ghost start = trees@;
            let mut j: usize = 0;
            while j < perms.len()
                invariant
                    i < s.len(),
                    s == items@,
                    t == s.remove(i as int),
                    main_item == s[i as int],
                    j <= perms@.len(),
                    perms@.len() == splits_of(t).len(),
                    forall|k: int|
                        0 <= k < perms@.len() ==> (#[trigger] perms@[k]).0@ == splits_of(t)[k].0
                            && perms@[k].1@ == splits_of(t)[k].1,
                    trees@ == start + splits_upto(main_item, splits_of(t), j as nat, s.len()),
                decreases perms@.len() - j,
            {
                let perm = &perms[j];
                proof {
                    lemma_split_parts_len(t, j as nat);
                    assert(splits_of(t)[j as int] == split_at_index(t, j as nat));
                }
                let left_trees = Tree::all_trees_with_items(perm.0.as_slice());
                let right_trees = Tree::all_trees_with_items(perm.1.as_slice());
                push_joined(&mut trees, main_item, &left_trees, &right_trees);
                j = j + 1;
                proof {
                    let sp = splits_of(t);
                    assert(sp[j - 1] == (perm.0@, perm.1@));
                    assert(trees@ =~= start + splits_upto(main_item, sp, j as nat, s.len()));
                }
            }
            i = i + 1;
            proof {
                assert(trees@ =~= roots_upto(s, i as nat));
            }
        }
        trees
    }
}

} // verus!
