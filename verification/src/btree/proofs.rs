//! Why the arena holds the tree that the model says: what a change to
//! some nodes leaves untouched, and what splitting a child and inserting
//! below a child mean for the model.

use super::{entry_at, BTree, LEAF};
use super::answers;
use crate::order::{key_eq, total_order};
use crate::shape::{
    distinct, flat, left_half, ordered, owns, right_half, row_ok, size, split_at, well_shaped,
    with_kid, Subtree, MAX_KEYS, MIN_DEGREE, MIN_KEYS,
};
use crate::shape_lemmas::{lemma_absent, lemma_join_contains, lemma_owns_kid};
use vstd::prelude::*;

verus! {

impl<K: PartialOrd, I> BTree<K, I> {
    /// An answer found in child `i` answers for the node, where the search
    /// was right to go to that child.
    pub(super) proof fn lemma_lift_answer(
        &self,
        t: Subtree<K, I>,
        lo: Option<K>,
        hi: Option<K>,
        h: nat,
        root: bool,
        key: K,
        i: int,
        r: Option<I>,
    )
        requires
            well_shaped(t, h, root),
            h > 0,
            total_order::<K>() ==> ordered(t, lo, hi),
            0 <= i <= t.entries.len(),
            total_order::<K>() ==> forall|j: int|
                0 <= j < i ==> crate::order::key_lt(#[trigger] t.entries[j].0, key),
            total_order::<K>() && i < t.entries.len() ==> crate::order::key_lt(key, t.entries[i].0),
            answers(flat(t.kids[i]), key, r),
        ensures
            answers(flat(t), key, r),
    {
        let kid = t.kids[i];
        if let Some(pos) = r {
            let j = choose|j: int|
                0 <= j < flat(kid).len() && (#[trigger] flat(kid)[j]).1 == pos && (total_order::<K>()
                    ==> key_eq(key, flat(kid)[j].0));
            let x = flat(kid)[j];
            assert(flat(kid).contains(x));
            lemma_join_contains(t.entries, t.kids, x);
            let p = choose|p: int| 0 <= p < flat(t).len() && flat(t)[p] == x;
            assert(flat(t)[p].1 == pos);
        } else if total_order::<K>() {
            lemma_absent(t, lo, hi, h, root, key, i);
        }
    }
}

impl<K, I> BTree<K, I> {
    /// The handles of a subtree that the arena holds are handles of the
    /// arena.
    pub(super) proof fn lemma_owned_in_arena(&self, t: Subtree<K, I>, a: int)
        requires
            self.depicts(t),
            owns(t, a),
        ensures
            0 <= a < self.nodes@.len(),
        decreases t,
    {
        if a != t.id {
            let j = crate::shape_lemmas::lemma_owns_below(t, a);
            self.lemma_owned_in_arena(t.kids[j], a);
        }
    }

    /// A subtree that the arena holds is still held after a change that
    /// touched none of its nodes.
    pub(super) proof fn lemma_frame(&self, post: &Self, t: Subtree<K, I>)
        requires
            self.depicts(t),
            forall|a: int| owns(t, a) ==> self.untouched(post, a),
        ensures
            post.depicts(t),
        decreases t,
    {
        reveal(BTree::untouched);
        assert(owns(t, t.id));
        assert(self.untouched(post, t.id));
        assert(post.node_matches(t));
        assert forall|j: int| #![trigger t.kids[j]] 0 <= j < t.kids.len() implies post.depicts(
            t.kids[j],
        ) by {
            assert forall|a: int| owns(t.kids[j], a) implies self.untouched(post, a) by {
                lemma_owns_kid(t, j, a);
            }
            self.lemma_frame(post, t.kids[j]);
        }
    }

    /// After the split of the child `y` of `x`, a node other than those two
    /// and its row of children are as before.
    pub(super) proof fn lemma_split_untouched(&self, post: &Self, x: int, i: int, y: int, z: int, a: int)
        requires
            self.slots_ok(),
            0 <= x < self.nodes@.len(),
            self.nodes@[x].children != LEAF,
            self.split_outcome(post, x, i, y, z),
            0 <= a < self.nodes@.len(),
            a != x,
            a != y,
        ensures
            self.untouched(post, a),
    {
        reveal(BTree::untouched);
        reveal(BTree::slots_ok);
        reveal(BTree::split_outcome);
        let slot = self.nodes@[a].children;
        let xs = self.nodes@[x].children;
        if slot != LEAF {
            if a < x {
                assert(self.nodes@[a].children != self.nodes@[x].children);
            } else {
                assert(self.nodes@[x].children != self.nodes@[a].children);
            }
        }
    }

    /// After the split of child `i` of `t`, a subtree that the arena held
    /// and that owns neither `t`'s root nor that child's is still held.
    pub(super) proof fn lemma_split_keeps(&self, post: &Self, t: Subtree<K, I>, i: int, k: Subtree<K, I>)
        requires
            self.slots_ok(),
            self.node_matches(t),
            t.kids.len() > 0,
            0 <= i < t.kids.len(),
            self.split_outcome(post, t.id, i, t.kids[i].id, self.nodes@.len() as int),
            self.depicts(k),
            !owns(k, t.id),
            !owns(k, t.kids[i].id),
        ensures
            post.depicts(k),
    {
        assert forall|a: int| owns(k, a) implies self.untouched(post, a) by {
            self.lemma_owned_in_arena(k, a);
            self.lemma_split_untouched(
                post,
                t.id,
                i,
                t.kids[i].id,
                self.nodes@.len() as int,
                a,
            );
        }
        self.lemma_frame(post, k);
    }

    /// What [`split_outcome`](Self::split_outcome) means for the model: the
    /// arena then holds `t` with its child `i` split, its handles still fit,
    /// and nothing outside `t` has changed.
    pub(super) proof fn lemma_split_outcome(&self, post: &Self, t: Subtree<K, I>, i: int)
        requires
            self.slots_ok(),
            self.nodes@.len() < LEAF,
            self.depicts(t),
            distinct(t),
            t.kids.len() == t.entries.len() + 1,
            t.entries.len() < MAX_KEYS,
            0 <= i < t.kids.len(),
            t.kids[i].entries.len() == MAX_KEYS,
            row_ok(t.kids[i].entries, t.kids[i].kids),
            self.split_outcome(post, t.id, i, t.kids[i].id, self.nodes@.len() as int),
        ensures
            post.slots_ok(),
            post.depicts(split_at(t, i, self.nodes@.len() as int)),
            forall|a: int| 0 <= a < self.nodes@.len() && !owns(t, a) ==> self.untouched(post, a),
    {
        reveal(BTree::slots_ok);
        reveal(BTree::split_outcome);
        let x = t.id;
        let y = t.kids[i];
        let z = self.nodes@.len() as int;
        let t2 = split_at(t, i, z);
        let l = left_half(y);
        let r = right_half(y, z);
        let xs = self.nodes@[x].children as int;
        let ys = self.nodes@[y.id].children as int;
        assert(self.node_matches(t));
        assert(self.depicts(y));
        assert(self.node_matches(y));
        assert(owns(y, y.id));
        assert(!owns(y, x));
        assert(x != y.id);
        assert(owns(t, x));
        lemma_owns_kid(t, i, y.id);
        assert forall|a: int| 0 <= a < self.nodes@.len() && !owns(t, a) implies self.untouched(
            post,
            a,
        ) by {
            self.lemma_split_untouched(post, x, i, y.id, z, a);
        }
        assert(ys != LEAF ==> ys != xs) by {
            if x < y.id {
                assert(self.nodes@[x].children != self.nodes@[y.id].children);
            } else {
                assert(self.nodes@[y.id].children != self.nodes@[x].children);
            }
        }
        assert(post.slots_ok()) by {
            assert forall|a: int| 0 <= a < post.nodes@.len() implies (#[trigger] post.nodes@[a]).children
                == LEAF || post.nodes@[a].children < post.children@.len() by {
                if a < self.nodes@.len() {
                    assert(self.nodes@[a].children == LEAF || self.nodes@[a].children
                        < self.children@.len());
                }
            }
            assert forall|a: int, b: int|
                0 <= a < b < post.nodes@.len() && post.nodes@[a].children != LEAF implies (
            #[trigger] post.nodes@[a]).children != (#[trigger] post.nodes@[b]).children by {
                assert(self.nodes@[a].children == LEAF || self.nodes@[a].children
                    < self.children@.len());
                if b < self.nodes@.len() {
                    assert(self.nodes@[a].children != self.nodes@[b].children);
                }
            }
        }
        assert(post.node_matches(t2)) by {
            assert forall|j: int| 0 <= j < t2.entries.len() implies #[trigger] t2.entries[j] == (
                post.nodes@[x].keys@[j],
                post.nodes@[x].indices@[j],
            ) by {
                if j < i {
                    assert(t2.entries[j] == t.entries[j]);
                    assert(entry_at(post.nodes@[x], j) == entry_at(self.nodes@[x], j));
                } else if j == i {
                    assert(t2.entries[j] == y.entries[MIN_KEYS as int]);
                    assert(entry_at(post.nodes@[x], j) == entry_at(
                        self.nodes@[y.id],
                        MIN_KEYS as int,
                    ));
                } else {
                    assert(t2.entries[j] == t.entries[j - 1]);
                    assert(entry_at(post.nodes@[x], j) == entry_at(self.nodes@[x], j - 1));
                }
            }
            assert forall|j: int| 0 <= j < t2.kids.len() implies post.children@[xs]@[j] == (
            #[trigger] t2.kids[j]).id by {
                if j < i {
                    assert(t2.kids[j] == t.kids[j]);
                } else if j == i {
                    assert(t2.kids[j] == l);
                } else if j == i + 1 {
                    assert(t2.kids[j] == r);
                } else {
                    assert(t2.kids[j] == t.kids[j - 1]);
                }
            }
        }
        assert forall|j: int| 0 <= j < y.kids.len() implies post.depicts(#[trigger] y.kids[j]) by {
            assert(distinct(y));
            assert(!owns(y.kids[j], y.id));
            if owns(y.kids[j], x) {
                lemma_owns_kid(y, j, x);
            }
            self.lemma_split_keeps(post, t, i, y.kids[j]);
        }
        assert(post.depicts(l)) by {
            assert(post.node_matches(l)) by {
                assert forall|j: int| 0 <= j < l.entries.len() implies #[trigger] l.entries[j] == (
                    post.nodes@[y.id].keys@[j],
                    post.nodes@[y.id].indices@[j],
                ) by {
                    assert(l.entries[j] == y.entries[j]);
                }
                if y.kids.len() > 0 {
                    assert(post.children@[ys] == self.children@[ys]);
                    assert forall|j: int| 0 <= j < l.kids.len() implies post.children@[ys]@[j] == (
                    #[trigger] l.kids[j]).id by {
                        assert(l.kids[j] == y.kids[j]);
                    }
                }
            }
            assert forall|j: int| #![trigger l.kids[j]] 0 <= j < l.kids.len() implies post.depicts(
                l.kids[j],
            ) by {
                assert(l.kids[j] == y.kids[j]);
            }
        }
        assert(post.depicts(r)) by {
            assert(post.node_matches(r)) by {
                assert forall|j: int| 0 <= j < r.entries.len() implies #[trigger] r.entries[j] == (
                    post.nodes@[z].keys@[j],
                    post.nodes@[z].indices@[j],
                ) by {
                    assert(r.entries[j] == y.entries[j + MIN_DEGREE]);
                    assert(entry_at(post.nodes@[z], j) == entry_at(
                        self.nodes@[y.id],
                        j + MIN_DEGREE,
                    ));
                }
                if y.kids.len() > 0 {
                    let zs = post.nodes@[z].children as int;
                    assert forall|j: int| 0 <= j < r.kids.len() implies post.children@[zs]@[j] == (
                    #[trigger] r.kids[j]).id by {
                        assert(r.kids[j] == y.kids[j + MIN_DEGREE]);
                    }
                }
            }
            assert forall|j: int| #![trigger r.kids[j]] 0 <= j < r.kids.len() implies post.depicts(
                r.kids[j],
            ) by {
                assert(r.kids[j] == y.kids[j + MIN_DEGREE]);
            }
        }
        assert forall|j: int| #![trigger t2.kids[j]] 0 <= j < t2.kids.len() implies post.depicts(
            t2.kids[j],
        ) by {
            if j == i {
                assert(t2.kids[j] == l);
            } else if j == i + 1 {
                assert(t2.kids[j] == r);
            } else {
                let j0 = if j < i { j } else { j - 1 };
                assert(t2.kids[j] == t.kids[j0]);
                assert(!owns(t.kids[j0], x));
                if j0 < i {
                    assert(!(owns(t.kids[j0], y.id) && owns(t.kids[i], y.id)));
                } else {
                    assert(!(owns(t.kids[i], y.id) && owns(t.kids[j0], y.id)));
                }
                self.lemma_split_keeps(post, t, i, t.kids[j0]);
            }
        }
    }
}


impl<K, I> BTree<K, I> {
    /// Being untouched carries over two changes in a row.
    pub(super) proof fn lemma_untouched_twice(&self, mid: &Self, post: &Self, a: int)
        requires
            self.untouched(mid, a),
            mid.untouched(post, a),
        ensures
            self.untouched(post, a),
    {
        reveal(BTree::untouched);
    }

    /// What an insertion below child `i` of `t1` means for the node: `self`
    /// is the arena before the step at this node, `mid` the arena once the
    /// child was split, if it was, and `post` the arena after the insertion
    /// into the child, which became `k2`.
    pub(super) proof fn lemma_descended(
        &self,
        mid: &Self,
        post: &Self,
        t: Subtree<K, I>,
        t1: Subtree<K, I>,
        i: int,
        k2: Subtree<K, I>,
        p: int,
        e: (K, I),
        h: nat,
        root: bool,
    ) -> (q: int)
        requires
            h > 0,
            self.depicts(t),
            mid.depicts(t1),
            mid.slots_ok(),
            t1.id == t.id,
            distinct(t1),
            well_shaped(t1, h, root),
            flat(t1) == flat(t),
            0 <= i < t1.kids.len(),
            self.nodes@.len() <= mid.nodes@.len() <= self.nodes@.len() + 1,
            size(t1) + self.nodes@.len() == size(t) + mid.nodes@.len(),
            forall|a: int| owns(t1, a) ==> owns(t, a) || self.nodes@.len() <= a,
            forall|a: int| 0 <= a < self.nodes@.len() && !owns(t, a) ==> self.untouched(mid, a),
            post.depicts(k2),
            k2.id == t1.kids[i].id,
            distinct(k2),
            well_shaped(k2, (h - 1) as nat, false),
            0 <= p <= flat(t1.kids[i]).len(),
            flat(k2) == flat(t1.kids[i]).insert(p, e),
            mid.nodes@.len() <= post.nodes@.len(),
            size(k2) + mid.nodes@.len() == size(t1.kids[i]) + post.nodes@.len(),
            forall|a: int| owns(k2, a) ==> owns(t1.kids[i], a) || mid.nodes@.len() <= a,
            forall|a: int|
                0 <= a < mid.nodes@.len() && !owns(t1.kids[i], a) ==> mid.untouched(post, a),
        ensures
            post.depicts(with_kid(t1, i, k2)),
            distinct(with_kid(t1, i, k2)),
            well_shaped(with_kid(t1, i, k2), h, root),
            0 <= q <= flat(t).len(),
            flat(with_kid(t1, i, k2)) == flat(t).insert(q, e),
            size(with_kid(t1, i, k2)) + self.nodes@.len() == size(t) + post.nodes@.len(),
            forall|a: int| owns(with_kid(t1, i, k2), a) ==> owns(t, a) || self.nodes@.len() <= a,
            forall|a: int| 0 <= a < self.nodes@.len() && !owns(t, a) ==> self.untouched(post, a),
    {
        let t2 = with_kid(t1, i, k2);
        let kid = t1.kids[i];
        let fresh = mid.nodes@.len() as int;
        assert(mid.node_matches(t1));
        assert forall|a: int| owns(t1, a) implies a < fresh by {
            mid.lemma_owned_in_arena(t1, a);
        }
        crate::shape_lemmas::lemma_with_kid_distinct(t1, i, k2, fresh);
        crate::shape_lemmas::lemma_with_kid_shape(t1, i, k2, h, root);
        crate::shape_lemmas::lemma_count_update(t1.kids, i, k2);
        let q = crate::shape_lemmas::lemma_join_replace(t1.entries, t1.kids, i, k2, p, e);
        assert(owns(t1, t1.id));
        assert(!owns(kid, t1.id));
        assert(mid.untouched(post, t1.id));
        assert(post.node_matches(t2)) by {
            reveal(BTree::untouched);
            let slot = mid.nodes@[t1.id].children as int;
            assert forall|j: int| 0 <= j < t2.kids.len() implies post.children@[slot]@[j] == (
            #[trigger] t2.kids[j]).id by {
                assert(mid.children@[slot]@[j] == t1.kids[j].id);
            }
        }
        assert forall|j: int| #![trigger t2.kids[j]] 0 <= j < t2.kids.len() implies post.depicts(
            t2.kids[j],
        ) by {
            if j != i {
                assert(t2.kids[j] == t1.kids[j]);
                assert forall|a: int| owns(t1.kids[j], a) implies mid.untouched(post, a) by {
                    lemma_owns_kid(t1, j, a);
                    mid.lemma_owned_in_arena(t1.kids[j], a);
                    if j < i {
                        assert(!(owns(t1.kids[j], a) && owns(t1.kids[i], a)));
                    } else {
                        assert(!(owns(t1.kids[i], a) && owns(t1.kids[j], a)));
                    }
                }
                mid.lemma_frame(post, t1.kids[j]);
            }
        }
        assert forall|a: int| owns(t2, a) implies owns(t, a) || self.nodes@.len() <= a by {
            if owns(k2, a) && a >= fresh {
            }
        }
        assert forall|a: int| 0 <= a < self.nodes@.len() && !owns(t, a) implies self.untouched(
            post,
            a,
        ) by {
            if owns(kid, a) {
                lemma_owns_kid(t1, i, a);
            }
            self.lemma_untouched_twice(mid, post, a);
        }
        q
    }
}


impl<K: PartialOrd, I> BTree<K, I> {
    /// A root that is full may be put below a new, empty root: `self` is
    /// the tree, `grown` the arena with the new root as its last node and
    /// the old root as that node's only child.
    pub(super) proof fn lemma_new_root(&self, grown: &Self, t: Subtree<K, I>, h: nat)
        requires
            self.wf(),
            t == self.shape@,
            h == self.height@,
            t.entries.len() == MAX_KEYS,
            self.nodes@.len() + 1 < LEAF,
            grown.nodes@.len() == self.nodes@.len() + 1,
            grown.children@.len() == self.children@.len() + 1,
            forall|a: int| 0 <= a < self.nodes@.len() ==> grown.nodes@[a] == self.nodes@[a],
            forall|s: int| 0 <= s < self.children@.len() ==> grown.children@[s] == self.children@[s],
            grown.nodes@[self.nodes@.len() as int].key_count == 0,
            grown.nodes@[self.nodes@.len() as int].children == self.children@.len(),
            grown.children@[self.children@.len() as int]@[0] == self.root,
        ensures
            grown.slots_ok(),
            grown.depicts(Subtree { id: self.nodes@.len() as int, entries: Seq::empty(), kids: seq![t] }),
            distinct(Subtree { id: self.nodes@.len() as int, entries: Seq::<(K, I)>::empty(), kids: seq![t] }),
            size(Subtree { id: self.nodes@.len() as int, entries: Seq::<(K, I)>::empty(), kids: seq![t] })
                == size(t) + 1,
            well_shaped(t, h, false),
            row_ok(t.entries, t.kids),
            total_order::<K>() ==> ordered(
                Subtree { id: self.nodes@.len() as int, entries: Seq::<(K, I)>::empty(), kids: seq![t] },
                None,
                None,
            ),
    {
        reveal(BTree::slots_ok);
        let s = self.nodes@.len() as int;
        let t0 = Subtree { id: s, entries: Seq::<(K, I)>::empty(), kids: seq![t] };
        assert(t0.kids[0] == t);
        assert forall|a: int| owns(t, a) implies self.untouched(grown, a) by {
            reveal(BTree::untouched);
            self.lemma_owned_in_arena(t, a);
        }
        self.lemma_frame(grown, t);
        assert(grown.node_matches(t0));
        assert(!owns(t, s)) by {
            if owns(t, s) {
                self.lemma_owned_in_arena(t, s);
            }
        }
        assert(crate::shape::count(t0.kids) == size(t)) by {
            assert(t0.kids.drop_last().len() == 0);
            assert(crate::shape::count(t0.kids.drop_last()) == 0);
            assert(t0.kids.last() == t);
        }
        assert forall|a: int, b: int|
            0 <= a < b < grown.nodes@.len() && grown.nodes@[a].children != LEAF implies (
        #[trigger] grown.nodes@[a]).children != (#[trigger] grown.nodes@[b]).children by {
            assert(self.nodes@[a].children == LEAF || self.nodes@[a].children
                < self.children@.len());
            if b < self.nodes@.len() {
                assert(self.nodes@[a].children != self.nodes@[b].children);
            }
        }
        assert forall|a: int| 0 <= a < grown.nodes@.len() implies (#[trigger] grown.nodes@[a]).children
            == LEAF || grown.nodes@[a].children < grown.children@.len() by {
            if a < self.nodes@.len() {
                assert(self.nodes@[a].children == LEAF || self.nodes@[a].children
                    < self.children@.len());
            }
        }
    }

    /// All that the split of child `i` of `t` keeps and changes, for a node
    /// `t` of a well-shaped tree.
    pub(super) proof fn lemma_split_step(
        &self,
        post: &Self,
        t: Subtree<K, I>,
        i: int,
        h: nat,
        root: bool,
        lo: Option<K>,
        hi: Option<K>,
    )
        requires
            self.slots_ok(),
            self.nodes@.len() < LEAF,
            self.depicts(t),
            distinct(t),
            h > 0,
            t.kids.len() == t.entries.len() + 1,
            t.entries.len() < MAX_KEYS,
            !root ==> t.entries.len() >= MIN_KEYS,
            forall|j: int|
                #![trigger t.kids[j]]
                0 <= j < t.kids.len() ==> well_shaped(t.kids[j], (h - 1) as nat, false),
            0 <= i < t.kids.len(),
            t.kids[i].entries.len() == MAX_KEYS,
            row_ok(t.kids[i].entries, t.kids[i].kids),
            self.split_outcome(post, t.id, i, t.kids[i].id, self.nodes@.len() as int),
            total_order::<K>() ==> ordered(t, lo, hi),
        ensures
            post.slots_ok(),
            post.depicts(split_at(t, i, self.nodes@.len() as int)),
            forall|a: int| 0 <= a < self.nodes@.len() && !owns(t, a) ==> self.untouched(post, a),
            well_shaped(split_at(t, i, self.nodes@.len() as int), h, root),
            flat(split_at(t, i, self.nodes@.len() as int)) == flat(t),
            size(split_at(t, i, self.nodes@.len() as int)) == size(t) + 1,
            distinct(split_at(t, i, self.nodes@.len() as int)),
            forall|a: int|
                owns(split_at(t, i, self.nodes@.len() as int), a) <==> owns(t, a) || a
                    == self.nodes@.len(),
            total_order::<K>() ==> ordered(split_at(t, i, self.nodes@.len() as int), lo, hi),
    {
        let z = self.nodes@.len() as int;
        self.lemma_split_outcome(post, t, i);
        crate::shape_lemmas::lemma_split_shape(t, i, z, h, root);
        crate::shape_lemmas::lemma_split_flat(t, i, z);
        crate::shape_lemmas::lemma_split_size(t, i, z);
        assert(!owns(t, z)) by {
            if owns(t, z) {
                self.lemma_owned_in_arena(t, z);
            }
        }
        crate::shape_lemmas::lemma_split_distinct(t, i, z);
        if total_order::<K>() {
            crate::shape_lemmas::lemma_split_ordered(t, i, z, lo, hi);
        }
    }

    /// Whether the arena holds a subtree does not depend on the tree's
    /// record of its own shape.
    pub(super) proof fn lemma_same_arena(&self, other: &Self, t: Subtree<K, I>)
        requires
            self.nodes == other.nodes,
            self.children == other.children,
            self.slots_ok(),
            self.depicts(t),
        ensures
            other.slots_ok(),
            other.depicts(t),
    {
        reveal(BTree::slots_ok);
        assert forall|a: int| owns(t, a) implies self.untouched(other, a) by {
            reveal(BTree::untouched);
            self.lemma_owned_in_arena(t, a);
        }
        self.lemma_frame(other, t);
    }
}

} // verus!
