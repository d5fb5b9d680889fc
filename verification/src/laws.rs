//! What holds of every B-tree however it was filled.

use crate::btree::{answers, BTree};
use crate::order::{key_eq, total_order};
use crate::shape::{ascending, well_shaped, Subtree, MAX_KEYS, MIN_KEYS};
use crate::shape_lemmas::lemma_flat_ascending;
use vstd::prelude::*;

verus! {

/// `view` can be the contents of a tree that was empty and then took the
/// entries of `log` one by one, each at some place.
pub open spec fn grown_from<K, I>(log: Seq<(K, I)>, view: Seq<(K, I)>) -> bool
    decreases log.len(),
{
    if log.len() == 0 {
        view.len() == 0
    } else {
        exists|prev: Seq<(K, I)>, p: int|
            #![trigger prev.insert(p, log.last())]
            grown_from(log.drop_last(), prev) && 0 <= p <= prev.len() && view == prev.insert(
                p,
                log.last(),
            )
    }
}

/// The node `n` lies `d` levels below the root of `t`.
pub open spec fn sits_at<K, I>(t: Subtree<K, I>, n: Subtree<K, I>, d: nat) -> bool
    decreases d,
{
    if d == 0 {
        n == t
    } else {
        exists|j: int|
            #![trigger t.kids[j]]
            0 <= j < t.kids.len() && sits_at(t.kids[j], n, (d - 1) as nat)
    }
}

/// One more insertion continues a history of insertions.
pub proof fn lemma_grown_step<K, I>(log: Seq<(K, I)>, view: Seq<(K, I)>, p: int, e: (K, I))
    requires
        grown_from(log, view),
        0 <= p <= view.len(),
    ensures
        grown_from(log.push(e), view.insert(p, e)),
{
    let log2 = log.push(e);
    assert(log2.drop_last() =~= log);
    assert(log2.last() == e);
    assert(view.insert(p, log2.last()) == view.insert(p, e));
}

/// A tree holds what was inserted into it, each entry as often as it was
/// inserted.
pub proof fn lemma_grown_holds_log<K, I>(log: Seq<(K, I)>, view: Seq<(K, I)>)
    requires
        grown_from(log, view),
    ensures
        view.to_multiset() == log.to_multiset(),
        view.len() == log.len(),
    decreases log.len(),
{
    broadcast use vstd::seq_lib::group_to_multiset_ensures;

    if log.len() == 0 {
        assert(view =~= log);
    } else {
        let (prev, p) = choose|prev: Seq<(K, I)>, p: int|
            #![trigger prev.insert(p, log.last())]
            grown_from(log.drop_last(), prev) && 0 <= p <= prev.len() && view == prev.insert(
                p,
                log.last(),
            );
        lemma_grown_holds_log(log.drop_last(), prev);
        assert(log.drop_last().push(log.last()) =~= log);
        assert(view.to_multiset() == prev.to_multiset().insert(log.last()));
        assert(log.to_multiset() == log.drop_last().to_multiset().insert(log.last()));
    }
}

/// After any sequence of insertions into an empty tree, with totally
/// ordered keys, a lookup returns only a position that was inserted with a
/// key equal to the one looked up, and returns nothing only if no such key
/// was inserted.
pub proof fn lemma_search_after_inserts<K: PartialOrd, I>(
    tree: BTree<K, I>,
    log: Seq<(K, I)>,
    key: K,
    r: Option<I>,
)
    requires
        total_order::<K>(),
        tree.wf(),
        grown_from(log, tree@),
        answers(tree@, key, r),
    ensures
        r matches Some(i) ==> exists|j: int|
            0 <= j < log.len() && (#[trigger] log[j]).1 == i && key_eq(key, log[j].0),
        r is None ==> forall|j: int| 0 <= j < log.len() ==> !key_eq(key, #[trigger] log[j].0),
        (forall|j: int| 0 <= j < log.len() ==> !key_eq(key, #[trigger] log[j].0)) ==> r is None,
{
    broadcast use vstd::seq_lib::group_to_multiset_ensures;

    let view = tree@;
    lemma_grown_holds_log(log, view);
    if let Some(i) = r {
        let j = choose|j: int|
            0 <= j < view.len() && (#[trigger] view[j]).1 == i && (total_order::<K>() ==> key_eq(
                key,
                view[j].0,
            ));
        assert(view.to_multiset().count(view[j]) > 0);
        assert(log.to_multiset().count(view[j]) > 0);
        assert(log.contains(view[j]));
        let l = choose|l: int| 0 <= l < log.len() && log[l] == view[j];
        assert(log[l].1 == i && key_eq(key, log[l].0));
    } else {
        assert forall|j: int| 0 <= j < log.len() implies !key_eq(key, #[trigger] log[j].0) by {
            assert(log.to_multiset().count(log[j]) > 0);
            assert(view.contains(log[j]));
            let l = choose|l: int| 0 <= l < view.len() && view[l] == log[j];
            assert(!key_eq(key, view[l].0));
        }
    }
}

/// After inserting `n` entries into an empty tree, with totally ordered
/// keys, the tree holds `n` entries and their keys, read in order, never
/// descend.
pub proof fn lemma_contents_ascend<K: PartialOrd, I>(tree: BTree<K, I>, log: Seq<(K, I)>)
    requires
        total_order::<K>(),
        tree.wf(),
        grown_from(log, tree@),
    ensures
        tree@.len() == log.len(),
        tree@.to_multiset() == log.to_multiset(),
        ascending(tree@),
{
    tree.lemma_wf_shape();
    lemma_grown_holds_log(log, tree@);
    lemma_flat_ascending(tree.shape(), None, None, tree.levels(), true);
}

/// A node `d` levels below the root of a B-tree of height `h` is the root
/// of a B-tree of height `h - d`.
pub proof fn lemma_shape_below<K, I>(t: Subtree<K, I>, h: nat, root: bool, n: Subtree<K, I>, d: nat)
    requires
        well_shaped(t, h, root),
        sits_at(t, n, d),
    ensures
        d <= h,
        well_shaped(n, (h - d) as nat, root && d == 0),
    decreases d,
{
    if d > 0 {
        let j = choose|j: int|
            #![trigger t.kids[j]]
            0 <= j < t.kids.len() && sits_at(t.kids[j], n, (d - 1) as nat);
        lemma_shape_below(t.kids[j], (h - 1) as nat, false, n, (d - 1) as nat);
    }
}

/// Every leaf of a well-formed tree lies as many levels below the root as
/// the tree is high.
pub proof fn lemma_leaves_level<K: PartialOrd, I>(tree: BTree<K, I>, n: Subtree<K, I>, d: nat)
    requires
        tree.wf(),
        sits_at(tree.shape(), n, d),
        n.kids.len() == 0,
    ensures
        d == tree.levels(),
{
    tree.lemma_wf_shape();
    lemma_shape_below(tree.shape(), tree.levels(), true, n, d);
}

/// Every node of a well-formed tree holds at most `MAX_KEYS` keys and,
/// unless it is the root, at least `MIN_KEYS`; a node with `k` keys and
/// with children has `k + 1` of them.
pub proof fn lemma_node_bounds<K: PartialOrd, I>(tree: BTree<K, I>, n: Subtree<K, I>, d: nat)
    requires
        tree.wf(),
        sits_at(tree.shape(), n, d),
    ensures
        n.entries.len() <= MAX_KEYS,
        d > 0 ==> n.entries.len() >= MIN_KEYS,
        n.kids.len() == 0 || n.kids.len() == n.entries.len() + 1,
        n.kids.len() == 0 <==> d == tree.levels(),
{
    tree.lemma_wf_shape();
    lemma_shape_below(tree.shape(), tree.levels(), true, n, d);
}

} // verus!
