use vstd::prelude::*;
use vstd::arithmetic::power2::{pow2, lemma_pow2_unfold};

verus! {

/// The items of `s` at the positions where `mask` holds `side`, in their order in `s`.
pub open spec fn pick<T>(s: Seq<T>, mask: Seq<bool>, side: bool) -> Seq<T>
    decreases s.len(),
{
    if s.len() == 0 || mask.len() == 0 {
        seq![]
    } else {
        let rest = pick(s.drop_first(), mask.drop_first(), side);
        if mask[0] == side {
            seq![s[0]] + rest
        } else {
            rest
        }
    }
}

/// The low `n` bits of `j`, lowest first, each read as "goes to the left part":
/// a zero bit sends the item at that position to the left.
pub open spec fn split_mask(n: nat, j: nat) -> Seq<bool>
    decreases n,
{
    if n == 0 {
        seq![]
    } else {
        seq![j % 2 == 0] + split_mask((n - 1) as nat, j / 2)
    }
}

/// The split of `s` numbered `j`: the items that `split_mask` sends left, and the others.
pub open spec fn split_at_index<T>(s: Seq<T>, j: nat) -> (Seq<T>, Seq<T>) {
    let m = split_mask(s.len(), j);
    (pick(s, m, true), pick(s, m, false))
}

/// Every split of `s` into a left and a right part that keep the order of `s`,
/// one for each number below `2^len(s)`.
pub open spec fn splits_of<T>(s: Seq<T>) -> Seq<(Seq<T>, Seq<T>)> {
    Seq::new(pow2(s.len()), |j: int| split_at_index(s, j as nat))
}

/// The two parts of a split hold every item of `s` once, so their lengths add up to that of `s`.
pub proof fn lemma_pick_parts<T>(s: Seq<T>, mask: Seq<bool>)
    requires
        mask.len() == s.len(),
    ensures
        pick(s, mask, true).len() + pick(s, mask, false).len() == s.len(),
        pick(s, mask, true).to_multiset().add(pick(s, mask, false).to_multiset())
            == s.to_multiset(),
    decreases s.len(),
{
    broadcast use vstd::multiset::group_multiset_axioms;

    if s.len() == 0 {
        let e: Seq<T> = seq![];
        assert(s =~= e);
        vstd::seq_lib::lemma_multiset_commutative(e, e);
        assert(e + e =~= e);
    } else {
        let t = s.drop_first();
        let m = mask.drop_first();
        lemma_pick_parts(t, m);
        let a = pick(t, m, true);
        let b = pick(t, m, false);
        vstd::seq_lib::lemma_multiset_commutative(seq![s[0]], a);
        vstd::seq_lib::lemma_multiset_commutative(seq![s[0]], b);
        vstd::seq_lib::lemma_multiset_commutative(seq![s[0]], t);
        assert(seq![s[0]] + t =~= s);
        if mask[0] {
            assert(pick(s, mask, true).to_multiset().add(pick(s, mask, false).to_multiset())
                =~= s.to_multiset());
        } else {
            assert(pick(s, mask, true).to_multiset().add(pick(s, mask, false).to_multiset())
                =~= s.to_multiset());
        }
    }
}

/// The length of `split_mask(n, j)` is `n`.
pub proof fn lemma_split_mask_len(n: nat, j: nat)
    ensures
        split_mask(n, j).len() == n,
    decreases n,
{
    if n > 0 {
        lemma_split_mask_len((n - 1) as nat, j / 2);
    }
}

/// Both parts of every split of `s` are no longer than `s`.
pub proof fn lemma_split_parts_len<T>(s: Seq<T>, j: nat)
    ensures
        split_at_index(s, j).0.len() + split_at_index(s, j).1.len() == s.len(),
{
    lemma_split_mask_len(s.len(), j);
    lemma_pick_parts(s, split_mask(s.len(), j));
}

/// Splitting `s` gives `2^len(s)` pairs. The pair numbered `j` takes, in their
/// order in `s`, the items at the positions that the mask `split_mask(len(s), j)`
/// sends left, and the others in the right part; together the two parts hold
/// exactly the items of `s`.
pub proof fn lemma_splits_partition<T>(s: Seq<T>)
    ensures
        splits_of(s).len() == pow2(s.len()),
        forall|j: int|
            #![trigger splits_of(s)[j]]
            0 <= j < splits_of(s).len() ==> splits_of(s)[j].0 == pick(s, split_mask(s.len(), j as nat), true)
                && splits_of(s)[j].1 == pick(s, split_mask(s.len(), j as nat), false)
                && splits_of(s)[j].0.to_multiset().add(splits_of(s)[j].1.to_multiset())
                == s.to_multiset(),
{
    assert forall|j: int|
        #![trigger splits_of(s)[j]]
        0 <= j < splits_of(s).len() implies splits_of(s)[j].0 == pick(s, split_mask(s.len(), j as nat), true)
            && splits_of(s)[j].1 == pick(s, split_mask(s.len(), j as nat), false)
            && splits_of(s)[j].0.to_multiset().add(splits_of(s)[j].1.to_multiset())
            == s.to_multiset() by {
        lemma_split_mask_len(s.len(), j as nat);
        lemma_pick_parts(s, split_mask(s.len(), j as nat));
        assert(splits_of(s)[j] == split_at_index(s, j as nat));
    }
}

/// Every way of sending each position of a sequence of length `n` to the left
/// (`true`) or to the right (`false`) is the mask of one split, whose number is returned.
pub proof fn lemma_every_mask_is_split(n: nat, m: Seq<bool>) -> (j: nat)
    requires
        m.len() == n,
    ensures
        j < pow2(n),
        split_mask(n, j) == m,
    decreases n,
{
    if n == 0 {
        vstd::arithmetic::power2::lemma2_to64();
        assert(m =~= split_mask(0, 0));
        0
    } else {
        let rest = lemma_every_mask_is_split((n - 1) as nat, m.drop_first());
        lemma_pow2_unfold(n);
        let j: nat = if m[0] {
            2 * rest
        } else {
            2 * rest + 1
        };
        assert(j / 2 == rest);
        assert(split_mask(n, j) =~= m);
        j
    }
}

/// A copy of `v`.
fn copied<T: Copy>(v: &Vec<T>) -> (r: Vec<T>)
    ensures
        r@ == v@,
{
    let mut r: Vec<T> = Vec::new();
    let mut i: usize = 0;
    while i < v.len()
        invariant
            i <= v.len(),
            r@ == v@.subrange(0, i as int),
        decreases v.len() - i,
    {
        r.push(v[i]);
        i = i + 1;
        proof {
            assert(r@ =~= v@.subrange(0, i as int));
        }
    }
    proof {
        assert(r@ =~= v@);
    }
    r
}

/// The items of `items` without the one at `index`, in their order.
pub fn items_without<T: Copy>(items: &[T], index: usize) -> (r: Vec<T>)
    ensures
        index < items@.len() ==> r@ == items@.remove(index as int),
        index >= items@.len() ==> r@ == items@,
{
    let mut r: Vec<T> = Vec::new();
    let mut i: usize = 0;
    while i < items.len()
        invariant
            i <= items@.len(),
            i <= index ==> r@ == items@.subrange(0, i as int),
            i > index ==> r@ == items@.subrange(0, index as int) + items@.subrange(
                index + 1,
                i as int,
            ),
        decreases items@.len() - i,
    {
        if i != index {
            r.push(items[i]);
        }
        i = i + 1;
        proof {
            if i <= index {
                assert(r@ =~= items@.subrange(0, i as int));
            } else {
                assert(r@ =~= items@.subrange(0, index as int) + items@.subrange(
                    index + 1,
                    i as int,
                ));
            }
        }
    }
    proof {
        if index < items@.len() {
            assert(r@ =~= items@.remove(index as int));
        } else {
            assert(r@ =~= items@);
        }
    }
    r
}

/// Every split of `items` into a left and a right part that keep the order of
/// `items`: `2^len(items)` pairs, numbered as `splits_of` numbers them.
pub fn split_permutations<T: Copy>(items: &[T]) -> (r: Vec<(Vec<T>, Vec<T>)>)
    requires
        items@.len() >= 1,
    ensures
        r@.len() == splits_of(items@).len(),
        forall|j: int|
            0 <= j < r@.len() ==> (#[trigger] r@[j]).0@ == splits_of(items@)[j].0 && r@[j].1@
                == splits_of(items@)[j].1,
    decreases items@.len(),
{
    let ghost s = items@;
    if items.len() == 1 {
        proof {
            lemma_pow2_unfold(1);
            assert(pow2(0) == 1) by {
                vstd::arithmetic::power2::lemma2_to64();
            }
            assert(split_mask(0, 0) =~= seq![]);
            assert(split_mask(1, 0) =~= seq![true]);
            assert(split_mask(1, 1) =~= seq![false]);
            assert(s.drop_first() =~= seq![]);
            assert(seq![s[0]] + seq![] =~= s);
        }
        let mut one: Vec<T> = Vec::new();
        one.push(items[0]);
        let mut other: Vec<T> = Vec::new();
        other.push(items[0]);
        let mut r: Vec<(Vec<T>, Vec<T>)> = Vec::new();
        r.push((one, Vec::new()));
        r.push((Vec::new(), other));
        proof {
            let e: Seq<T> = seq![];
            assert(pick(s.drop_first(), seq![true].drop_first(), true) == e);
            assert(pick(s.drop_first(), seq![false].drop_first(), true) == e);
            assert(pick(s.drop_first(), seq![true].drop_first(), false) == e);
            assert(pick(s.drop_first(), seq![false].drop_first(), false) == e);
            assert(splits_of(s)[0] == split_at_index(s, 0));
            assert(splits_of(s)[1] == split_at_index(s, 1));
            assert(r@[0].0@ =~= splits_of(s)[0].0);
            assert(r@[1].1@ =~= splits_of(s)[1].1);
            assert(r@[0].1@ =~= splits_of(s)[0].1);
            assert(r@[1].0@ =~= splits_of(s)[1].0);
        }
        return r;
    }
    let main_item = items[0];
    let others = items_without(items, 0);
    let ghost t = others@;
    proof {
        assert(t =~= s.drop_first());
        lemma_pow2_unfold(s.len());
    }
    let rest = split_permutations(others.as_slice());
    let mut permutations: Vec<(Vec<T>, Vec<T>)> = Vec::new();
    let mut k: usize = 0;
    while k < rest.len()
        invariant
            k <= rest@.len(),
            rest@.len() == pow2(t.len()),
            s.len() >= 2,
            t == s.drop_first(),
            main_item == s[0],
            pow2(s.len()) == 2 * pow2(t.len()),
            forall|j: int|
                0 <= j < rest@.len() ==> (#[trigger] rest@[j]).0@ == splits_of(t)[j].0
                    && rest@[j].1@ == splits_of(t)[j].1,
            permutations@.len() == 2 * k,
            forall|j: int|
                0 <= j < 2 * k ==> (#[trigger] permutations@[j]).0@ == split_at_index(
                    s,
                    j as nat,
                ).0 && permutations@[j].1@ == split_at_index(s, j as nat).1,
        decreases rest@.len() - k,
    {
        let perm = &rest[k];
        let mut left_perm = copied(&perm.0);
        left_perm.insert(0, main_item);
        let left_keep = copied(&perm.1);
        let mut right_perm = copied(&perm.1);
        right_perm.insert(0, main_item);
        let right_keep = copied(&perm.0);
        proof {
            let l = rest@[k as int].0@;
            let r = rest@[k as int].1@;
            let mk = split_mask(t.len(), k as nat);
            assert(l == pick(t, mk, true));
            assert(r == pick(t, mk, false));
            lemma_split_mask_len(t.len(), k as nat);
            let e = (2 * k) as nat;
            let o = (2 * k + 1) as nat;
            assert(e % 2 == 0 && e / 2 == k);
            assert(o % 2 == 1 && o / 2 == k);
            assert(split_mask(s.len(), e).drop_first() =~= mk);
            assert(split_mask(s.len(), o).drop_first() =~= mk);
            assert(left_perm@ =~= seq![s[0]] + l);
            assert(right_perm@ =~= seq![s[0]] + r);
        }
        let ghost before = permutations@;
        permutations.push((left_perm, left_keep));
        permutations.push((right_keep, right_perm));
        k = k + 1;
        proof {
            assert forall|j: int| 0 <= j < 2 * k implies (#[trigger] permutations@[j]).0@
                == split_at_index(s, j as nat).0 && permutations@[j].1@ == split_at_index(
                s,
                j as nat,
            ).1 by {
                if j < 2 * (k - 1) {
                    assert(permutations@[j] == before[j]);
                }
            }
        }
    }
    permutations
}

} // verus!
