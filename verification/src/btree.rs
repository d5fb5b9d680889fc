//! An in-memory B-tree whose nodes live in an arena and name each other by
//! integer handle. Every key carries the position it was inserted with.
//! Entries can be added and looked up; nothing is ever removed.

use crate::model::Model;
use crate::order::{
    follows, key_eq, key_lt, lemma_order_facts, matches_key, precedes, total_order,
};
use crate::shape::{
    ascending, count, distinct, flat, join, lower, ordered, owns, row_ok, size, split_at, upper,
    well_shaped, with_kid, within, Subtree, MAX_CHILDREN, MAX_KEYS, MIN_DEGREE, MIN_KEYS,
};
use crate::shape_lemmas::{
    lemma_absent, lemma_flat_ascending, lemma_height_below_size, lemma_join_contains,
    lemma_join_grows, lemma_leaf_insert_ordered, lemma_owns_below, lemma_root_weight,
};
use vstd::prelude::*;

mod proofs;

verus! {

/// In a node's `children` field: the node is a leaf.
pub const LEAF: u32 = 0xFFFF_FFFF;

/// A tree may take another entry while it holds fewer than this many: node
/// handles are 32 bits wide, every node but an empty root holds an entry,
/// and one insertion adds at most three nodes more than the tree is high.
pub const MAX_ENTRIES: usize = 0xFFFF_FFFB;

/// One node: its keys and positions in fixed arrays of which the first
/// `key_count` slots are live, and the handle of its row of children.
#[derive(Copy, Clone, Debug)]
struct BTreeNode<K, I> {
    keys: [K; MAX_KEYS],
    indices: [I; MAX_KEYS],
    key_count: u32,
    // `LEAF`, or else an index into the `children` arena of the tree
    children: u32,
}

/// A B-tree of minimum degree 8 from keys of type `K` to positions of type
/// `I`.
#[derive(Clone)]
pub struct BTree<K, I> {
    nodes: Vec<BTreeNode<K, I>>,
    // each row holds handles into `nodes`
    children: Vec<[u32; MAX_CHILDREN]>,
    // handle of the root node
    root: u32,
    shape: Ghost<Subtree<K, I>>,
    height: Ghost<nat>,
}

/// What a lookup of `key` may return for a tree with in-order contents `s`:
/// a position only if it is stored, and, where the keys are totally
/// ordered, only if it is stored under a key equal to `key`; nothing only
/// if no stored key equals `key`.
pub open spec fn answers<K: PartialOrd, I>(s: Seq<(K, I)>, key: K, r: Option<I>) -> bool {
    &&& r matches Some(i) ==> exists|j: int|
        0 <= j < s.len() && (#[trigger] s[j]).1 == i && (total_order::<K>() ==> key_eq(key, s[j].0))
    &&& r is None && total_order::<K>() ==> forall|j: int|
        0 <= j < s.len() ==> !key_eq(key, (#[trigger] s[j]).0)
}

impl<K, I> BTree<K, I> {
    /// The arena node `t.id` holds the entries of `t` and names the roots
    /// of `t`'s children.
    spec fn node_matches(&self, t: Subtree<K, I>) -> bool {
        let node = self.nodes@[t.id];
        &&& 0 <= t.id < self.nodes@.len()
        &&& t.entries.len() <= MAX_KEYS
        &&& node.key_count == t.entries.len()
        &&& forall|j: int|
            0 <= j < t.entries.len() ==> #[trigger] t.entries[j] == (node.keys@[j], node.indices@[j])
        &&& t.kids.len() <= MAX_CHILDREN
        &&& if t.kids.len() == 0 {
            node.children == LEAF
        } else {
            &&& node.children != LEAF
            &&& node.children < self.children@.len()
            &&& forall|j: int|
                0 <= j < t.kids.len() ==> self.children@[node.children as int]@[j] == (
                #[trigger] t.kids[j]).id
        }
    }

    /// The arena holds the subtree `t`, node for node.
    spec fn depicts(&self, t: Subtree<K, I>) -> bool
        decreases t,
    {
        &&& self.node_matches(t)
        &&& forall|j: int| #![trigger t.kids[j]] 0 <= j < t.kids.len() ==> self.depicts(t.kids[j])
    }

    /// The arena fits its handles: they are 32 bits wide, every row of
    /// children belongs to one internal node, and no two nodes share one.
    #[verifier::opaque]
    spec fn slots_ok(&self) -> bool {
        &&& self.children@.len() <= self.nodes@.len() <= LEAF
        &&& forall|a: int|
            0 <= a < self.nodes@.len() ==> (#[trigger] self.nodes@[a]).children == LEAF
                || self.nodes@[a].children < self.children@.len()
        &&& forall|a: int, b: int|
            0 <= a < b < self.nodes@.len() && self.nodes@[a].children != LEAF ==> (
            #[trigger] self.nodes@[a]).children != (#[trigger] self.nodes@[b]).children
    }

    /// What splitting the full child `y` in slot `i` of node `x` does to the
    /// arena, `self` being the arena before and `post` the arena after:
    /// the new node `z` holds the upper half of `y`, `y` keeps its lower
    /// half, and in `x` the median of `y` and the handle `z` take slot `i`
    /// and `i + 1`, what stood there and behind moving one slot right.
    #[verifier::opaque]
    spec fn split_outcome(&self, post: &Self, x: int, i: int, y: int, z: int) -> bool {
        let n = self.nodes@[x].key_count as int;
        let xs = self.nodes@[x].children as int;
        let ys = self.nodes@[y].children as int;
        let zs = post.nodes@[z].children as int;
        &&& z == self.nodes@.len()
        &&& post.nodes@.len() == self.nodes@.len() + 1
        &&& forall|a: int|
            0 <= a < self.nodes@.len() && a != x && a != y ==> post.nodes@[a] == self.nodes@[a]
        &&& post.nodes@[z].key_count == MIN_KEYS
        &&& forall|q: int|
            0 <= q < MIN_KEYS ==> entry_at(post.nodes@[z], q) == entry_at(
                self.nodes@[y],
                q + MIN_DEGREE,
            )
        &&& if ys == LEAF {
            &&& zs == LEAF
            &&& post.children@.len() == self.children@.len()
        } else {
            &&& zs == self.children@.len()
            &&& post.children@.len() == self.children@.len() + 1
            &&& forall|q: int|
                0 <= q < MIN_DEGREE ==> post.children@[zs]@[q] == self.children@[ys]@[q
                    + MIN_DEGREE]
        }
        &&& post.nodes@[y].key_count == MIN_KEYS
        &&& post.nodes@[y].keys == self.nodes@[y].keys
        &&& post.nodes@[y].indices == self.nodes@[y].indices
        &&& post.nodes@[y].children == self.nodes@[y].children
        &&& post.nodes@[x].key_count == n + 1
        &&& post.nodes@[x].children == self.nodes@[x].children
        &&& forall|q: int|
            0 <= q < i ==> entry_at(post.nodes@[x], q) == entry_at(self.nodes@[x], q)
        &&& entry_at(post.nodes@[x], i) == entry_at(self.nodes@[y], MIN_KEYS as int)
        &&& forall|q: int|
            i < q <= n ==> entry_at(post.nodes@[x], q) == entry_at(self.nodes@[x], q - 1)
        &&& forall|s: int|
            0 <= s < self.children@.len() && s != xs ==> post.children@[s] == self.children@[s]
        &&& forall|q: int| 0 <= q <= i ==> post.children@[xs]@[q] == self.children@[xs]@[q]
        &&& post.children@[xs]@[i + 1] == z
        &&& forall|q: int|
            i + 1 < q <= n + 1 ==> post.children@[xs]@[q] == self.children@[xs]@[q - 1]
        &&& post.root == self.root
        &&& post.shape == self.shape
        &&& post.height == self.height
    }

    /// Node `a` and its row of children are in `post` what they are in
    /// `self`.
    #[verifier::opaque]
    spec fn untouched(&self, post: &Self, a: int) -> bool {
        let slot = self.nodes@[a].children as int;
        &&& a < post.nodes@.len()
        &&& post.nodes@[a] == self.nodes@[a]
        &&& slot != LEAF ==> slot < post.children@.len() && post.children@[slot]
            == self.children@[slot]
    }

    /// The tree as a mathematical object.
    pub closed spec fn shape(&self) -> Subtree<K, I> {
        self.shape@
    }

    /// Number of levels below the root.
    pub closed spec fn levels(&self) -> nat {
        self.height@
    }
}

impl<K: PartialOrd, I> BTree<K, I> {
    /// The arena holds exactly the nodes of `shape()`, which is a B-tree
    /// of height `height()`, in search-tree order where the keys are
    /// totally ordered.
    pub closed spec fn wf(&self) -> bool {
        &&& self.slots_ok()
        &&& self.depicts(self.shape@)
        &&& self.shape@.id == self.root
        &&& distinct(self.shape@)
        &&& size(self.shape@) == self.nodes@.len()
        &&& well_shaped(self.shape@, self.height@, true)
        &&& total_order::<K>() ==> ordered(self.shape@, None, None)
    }
}

impl<K: PartialOrd, I> BTree<K, I> {
    /// A well-formed tree has the shape of a B-tree of its height and, where
    /// the keys are totally ordered, is in search-tree order.
    pub proof fn lemma_wf_shape(&self)
        requires
            self.wf(),
        ensures
            well_shaped(self.shape(), self.levels(), true),
            total_order::<K>() ==> ordered(self.shape(), None, None),
    {
    }
}

impl<K, I> View for BTree<K, I> {
    type V = Seq<(K, I)>;

    /// The entries in order: each key with its position.
    open spec fn view(&self) -> Seq<(K, I)> {
        flat(self.shape())
    }
}

impl<K, I> Default for BTree<K, I> where K: Copy + Default + PartialOrd, I: Copy + Default {
    /// The empty tree: a root that is a leaf without keys.
    fn default() -> (r: Self)
        ensures
            r.wf(),
            r@ == Seq::<(K, I)>::empty(),
            r.levels() == 0,
    {
        let mut root = BTreeNode {
            keys: [K::default();MAX_KEYS],
            indices: [I::default();MAX_KEYS],
            key_count: 0,
            children: 0,
        };
        root.children = LEAF;
        let mut nodes = Vec::new();
        nodes.push(root);
        let ghost shape = Subtree::<K, I> { id: 0, entries: Seq::empty(), kids: Seq::empty() };
        let tree = BTree {
            nodes,
            children: Vec::new(),
            root: 0,
            shape: Ghost(shape),
            height: Ghost(0),
        };
        proof {
            reveal(BTree::slots_ok);
            assert(tree.node_matches(shape));
            assert(tree.depicts(shape));
            assert(count(shape.kids) == 0);
        }
        tree
    }
}

impl<K, I> Model<K, I> for BTree<K, I> where
    K: Copy + Default + PartialEq + PartialOrd,
    I: Copy + Default,
 {
    open spec fn ready(&self) -> bool {
        self.wf()
    }

    open spec fn may_answer(&self, key: K, r: Option<I>) -> bool {
        answers(self@, key, r)
    }

    fn eval(&self, key: K) -> (r: Option<I>) {
        self.search(key)
    }
}

impl<K, I> BTree<K, I> where K: Copy + Default + PartialEq + PartialOrd, I: Copy + Default {
    /// Create a new BTree.
    pub fn new() -> (r: Self)
        ensures
            r.wf(),
            r@ == Seq::<(K, I)>::empty(),
            r.levels() == 0,
    {
        Default::default()
    }

    /// Find a position that was inserted with a key equal to `key`, or
    /// `None` if no such key is in the tree.
    pub fn search(&self, key: K) -> (r: Option<I>)
        requires
            self.wf(),
        ensures
            answers(self@, key, r),
    {
        self.rsearch(
            self.root,
            key,
            Ghost(self.shape@),
            Ghost(self.height@),
            Ghost(None),
            Ghost(None),
            Ghost(true),
        )
    }

    /// Insert `key` into the tree, mapping to `index`.
    ///
    /// The new entry goes to a place that keeps the keys in order; where
    /// equal keys are present already, which of those places is open. The
    /// tree grows by one level exactly if its root is full. No attempt is
    /// made to choose a reasonable, ordered index: the caller is
    /// responsible.
    pub fn insert(&mut self, key: K, index: I)
        requires
            old(self).wf(),
            old(self)@.len() < MAX_ENTRIES,
        ensures
            final(self).wf(),
            exists|p: int|
                0 <= p <= old(self)@.len() && final(self)@ == #[trigger] old(self)@.insert(
                    p,
                    (key, index),
                ),
            total_order::<K>() ==> ascending(final(self)@),
            final(self).levels() == old(self).levels() + if old(self).shape().entries.len()
                == MAX_KEYS {
                1nat
            } else {
                0nat
            },
    {
        let ghost pre = *self;
        let ghost t = self.shape@;
        let ghost h = self.height@;
        proof {
            lemma_root_weight(t, h);
            assert(pre.node_matches(t));
        }
        let r = self.root;
        if self.key_count(r) == MAX_KEYS as u32 {
            let s = self.nodes.len() as u32;
            self.root = s;
            self.nodes.push(Self::blank());
            proof {
                reveal(BTree::slots_ok);
            }
            self.nodes[s as usize].children = self.children.len() as u32;
            self.children.push([0u32;MAX_CHILDREN]);
            self.children_mut(s).unwrap()[0] = r;
            let ghost t0 = Subtree { id: s as int, entries: Seq::empty(), kids: seq![t] };
            let ghost grown = *self;
            proof {
                pre.lemma_new_root(&grown, t, h);
            }
            self.split_child(s, 0, Ghost(t0));
            let ghost z = grown.nodes@.len() as int;
            let ghost t1 = split_at(t0, 0, z);
            proof {
                assert(t0.kids[0] == t);
                grown.lemma_split_step(self, t0, 0, h + 1, true, None, None);
            }
            let res = self.insert_nonfull(
                s,
                key,
                index,
                Ghost(t1),
                Ghost(h + 1),
                Ghost(None),
                Ghost(None),
                Ghost(true),
            );
            let ghost done = *self;
            self.shape = Ghost(res@.0);
            self.height = Ghost(h + 1);
            proof {
                assert(flat(t0) == flat(t)) by {
                    assert(flat(t0) == join(t0.entries, t0.kids));
                    assert(t0.kids[0] == t);
                }
                done.lemma_same_arena(self, res@.0);
                assert(self@ == pre@.insert(res@.1, (key, index)));
                if total_order::<K>() {
                    lemma_flat_ascending(
                        self.shape@,
                        None,
                        None,
                        self.height@,
                        true,
                    );
                }
            }
        } else {
            let res = self.insert_nonfull(
                r,
                key,
                index,
                Ghost(t),
                Ghost(h),
                Ghost(None),
                Ghost(None),
                Ghost(true),
            );
            let ghost done = *self;
            self.shape = Ghost(res@.0);
            proof {
                done.lemma_same_arena(self, res@.0);
                assert(self@ == pre@.insert(res@.1, (key, index)));
                if total_order::<K>() {
                    lemma_flat_ascending(
                        self.shape@,
                        None,
                        None,
                        self.height@,
                        true,
                    );
                }
            }
        }
    }

    /// The entries in the order of their keys.
    pub fn entries(&self) -> (r: Vec<(K, I)>)
        requires
            self.wf(),
        ensures
            r@ == self@,
    {
        let mut out: Vec<(K, I)> = Vec::new();
        self.collect(self.root, &mut out, Ghost(self.shape@), Ghost(self.height@), Ghost(true));
        out
    }

    /// Number of levels below the root: 0 for a tree of one node.
    pub fn height(&self) -> (r: usize)
        requires
            self.wf(),
        ensures
            r == self.levels(),
    {
        let ghost h = self.height@;
        let mut node = self.root;
        let mut depth: usize = 0;
        let ghost mut t = self.shape@;
        proof {
            lemma_height_below_size(t, h, true);
            reveal(BTree::slots_ok);
        }
        loop
            invariant
                self.depicts(t),
                t.id == node,
                depth <= h < self.nodes@.len() <= LEAF,
                well_shaped(t, (h - depth) as nat, depth == 0),
            ensures
                depth == h,
            decreases h - depth,
        {
            match self.children(node) {
                None => {
                    break ;
                },
                Some(c) => {
                    node = c[0];
                    proof {
                        t = t.kids[0];
                    }
                    depth += 1;
                },
            }
        }
        depth
    }

    /// Number of nodes of the tree.
    pub fn node_count(&self) -> (n: usize)
        requires
            self.wf(),
        ensures
            n == size(self.shape()),
    {
        self.nodes.len()
    }

    /// Append the entries below `node` to `out`, in order.
    fn collect(
        &self,
        node: u32,
        out: &mut Vec<(K, I)>,
        Ghost(t): Ghost<Subtree<K, I>>,
        Ghost(h): Ghost<nat>,
        Ghost(root): Ghost<bool>,
    )
        requires
            self.depicts(t),
            t.id == node,
            well_shaped(t, h, root),
        ensures
            final(out)@ == old(out)@ + flat(t),
        decreases h,
    {
        let ghost before = out@;
        let n = self.key_count(node) as usize;
        match self.children(node) {
            None => {
                let mut j: usize = 0;
                while j < n
                    invariant
                        self.depicts(t),
                        t.id == node,
                        t.kids.len() == 0,
                        n == t.entries.len(),
                        j <= n,
                        out@ == before + t.entries.take(j as int),
                    decreases n - j,
                {
                    out.push((self.keys(node)[j], self.indices(node)[j]));
                    proof {
                        assert(t.entries.take(j + 1) =~= t.entries.take(j as int).push(
                            t.entries[j as int],
                        ));
                    }
                    j += 1;
                }
                proof {
                    assert(t.entries.take(n as int) =~= t.entries);
                    assert(flat(t) == t.entries);
                }
            },
            Some(c) => {
                self.collect(c[0], out, Ghost(t.kids[0]), Ghost((h - 1) as nat), Ghost(false));
                let mut j: usize = 0;
                proof {
                    if n > 0 {
                        lemma_join_grows(t.entries, t.kids, 0);
                    } else {
                        assert(t.kids.take(1) =~= t.kids);
                        assert(t.entries.take(0) =~= t.entries);
                    }
                }
                while j < n
                    invariant
                        self.depicts(t),
                        t.id == node,
                        well_shaped(t, h, root),
                        h > 0,
                        n == t.entries.len(),
                        *c == self.children@[self.nodes@[node as int].children as int],
                        j <= n,
                        out@ == before + join(
                            t.entries.take(j as int),
                            t.kids.take(j + 1),
                        ),
                    decreases n - j,
                {
                    out.push((self.keys(node)[j], self.indices(node)[j]));
                    self.collect(
                        c[j + 1],
                        out,
                        Ghost(t.kids[j + 1]),
                        Ghost((h - 1) as nat),
                        Ghost(false),
                    );
                    proof {
                        lemma_join_grows(t.entries, t.kids, j as int);
                        assert(before + join(
                            t.entries.take(j as int),
                            t.kids.take(j + 1),
                        ) + seq![t.entries[j as int]] + flat(t.kids[j + 1]) =~= before + (
                        join(t.entries.take(j as int), t.kids.take(j + 1))
                            + seq![t.entries[j as int]] + flat(t.kids[j + 1])));
                    }
                    j += 1;
                }
                proof {
                    assert(t.entries.take(n as int) =~= t.entries);
                    assert(t.kids.take(n + 1) =~= t.kids);
                }
            },
        }
    }

    // Nodes are identified by their `u32` handle. Rather than handing out a
    // node, the methods below retrieve the features of a node given its
    // handle.
    /// The key slots of `node`.
    fn keys(&self, node: u32) -> (r: &[K])
        requires
            node < self.nodes@.len(),
        ensures
            r@ == self.nodes@[node as int].keys@,
    {
        &self.nodes[node as usize].keys
    }

    /// The position slots of `node`.
    fn indices(&self, node: u32) -> (r: &[I])
        requires
            node < self.nodes@.len(),
        ensures
            r@ == self.nodes@[node as int].indices@,
    {
        &self.nodes[node as usize].indices
    }

    /// The row of children of `node`, if it is internal.
    fn children(&self, node: u32) -> (r: Option<&[u32; MAX_CHILDREN]>)
        requires
            node < self.nodes@.len(),
            self.nodes@[node as int].children != LEAF ==> self.nodes@[node as int].children
                < self.children@.len(),
        ensures
            self.nodes@[node as int].children == LEAF ==> r is None,
            self.nodes@[node as int].children != LEAF ==> r == Some(
                &self.children@[self.nodes@[node as int].children as int],
            ),
    {
        let node = &self.nodes[node as usize];
        if node.children == LEAF {
            None
        } else {
            Some(&self.children[node.children as usize])
        }
    }

    /// Number of live slots of `node`.
    fn key_count(&self, node: u32) -> (r: u32)
        requires
            node < self.nodes@.len(),
        ensures
            r == self.nodes@[node as int].key_count,
    {
        self.nodes[node as usize].key_count
    }

    /// Search below `node`: scan its keys in ascending order, return at an
    /// equal key, and descend left of the first greater key, or right of
    /// all keys if none is greater.
    fn rsearch(
        &self,
        node: u32,
        key: K,
        Ghost(t): Ghost<Subtree<K, I>>,
        Ghost(h): Ghost<nat>,
        Ghost(lo): Ghost<Option<K>>,
        Ghost(hi): Ghost<Option<K>>,
        Ghost(root): Ghost<bool>,
    ) -> (r: Option<I>)
        requires
            self.depicts(t),
            t.id == node,
            well_shaped(t, h, root),
            total_order::<K>() ==> ordered(t, lo, hi),
        ensures
            answers(flat(t), key, r),
        decreases h,
    {
        let n = self.key_count(node) as usize;
        let mut i: usize = 0;
        while i < n
            invariant
                self.depicts(t),
                t.id == node,
                well_shaped(t, h, root),
                total_order::<K>() ==> ordered(t, lo, hi),
                n == t.entries.len(),
                i <= n,
                total_order::<K>() ==> forall|j: int|
                    0 <= j < i ==> key_lt(#[trigger] t.entries[j].0, key),
            decreases n - i,
        {
            let nodekey = self.keys(node)[i];
            assert(t.entries[i as int].0 == nodekey);
            if matches_key(key, nodekey) {
                let found = self.indices(node)[i];
                proof {
                    assert(t.entries[i as int].1 == found);
                    lemma_join_contains(t.entries, t.kids, t.entries[i as int]);
                    assert(t.entries.contains(t.entries[i as int]));
                    let p = choose|p: int| 0 <= p < flat(t).len() && flat(t)[p] == t.entries[i as int];
                    assert(flat(t)[p].1 == found);
                }
                return Some(found);
            } else if precedes(key, nodekey) {
                match self.children(node) {
                    None => {
                        proof {
                            if total_order::<K>() {
                                lemma_absent(t, lo, hi, h, root, key, i as int);
                            }
                        }
                        return None;
                    },
                    Some(c) => {
                        let r = self.rsearch(
                            c[i],
                            key,
                            Ghost(t.kids[i as int]),
                            Ghost((h - 1) as nat),
                            Ghost(lower(t.entries, lo, i as int)),
                            Ghost(upper(t.entries, hi, i as int)),
                            Ghost(false),
                        );
                        proof {
                            self.lemma_lift_answer(t, lo, hi, h, root, key, i as int, r);
                        }
                        return r;
                    },
                }
            }
            proof {
                if total_order::<K>() {
                    lemma_order_facts(key, nodekey);
                    lemma_order_facts(nodekey, key);
                }
            }
            i += 1;
        }
        match self.children(node) {
            None => {
                proof {
                    if total_order::<K>() {
                        lemma_absent(t, lo, hi, h, root, key, n as int);
                    }
                }
                None
            },
            Some(c) => {
                let r = self.rsearch(
                    c[n],
                    key,
                    Ghost(t.kids[n as int]),
                    Ghost((h - 1) as nat),
                    Ghost(lower(t.entries, lo, n as int)),
                    Ghost(upper(t.entries, hi, n as int)),
                    Ghost(false),
                );
                proof {
                    self.lemma_lift_answer(t, lo, hi, h, root, key, n as int, r);
                }
                r
            },
        }
    }
}

/// The key and the position in slot `j` of a node.
spec fn entry_at<K, I>(node: BTreeNode<K, I>, j: int) -> (K, I) {
    (node.keys@[j], node.indices@[j])
}

impl<K, I> BTree<K, I> where K: Copy + Default + PartialEq + PartialOrd, I: Copy + Default {
    /// A leaf without keys.
    fn blank() -> (r: BTreeNode<K, I>)
        ensures
            r.key_count == 0,
            r.children == LEAF,
    {
        BTreeNode {
            keys: [K::default();MAX_KEYS],
            indices: [I::default();MAX_KEYS],
            key_count: 0,
            children: LEAF,
        }
    }

    /// The key slots of `node`, to be written.
    fn keys_mut(&mut self, node: u32) -> (r: &mut [K; MAX_KEYS])
        requires
            node < old(self).nodes@.len(),
        ensures
            *r == old(self).nodes@[node as int].keys,
            final(self).nodes@ == old(self).nodes@.update(
                node as int,
                (BTreeNode { keys: *final(r), ..old(self).nodes@[node as int] }),
            ),
            final(self).children == old(self).children,
            final(self).root == old(self).root,
            final(self).shape == old(self).shape,
            final(self).height == old(self).height,
    {
        &mut self.nodes[node as usize].keys
    }

    /// The position slots of `node`, to be written.
    fn indices_mut(&mut self, node: u32) -> (r: &mut [I; MAX_KEYS])
        requires
            node < old(self).nodes@.len(),
        ensures
            *r == old(self).nodes@[node as int].indices,
            final(self).nodes@ == old(self).nodes@.update(
                node as int,
                (BTreeNode { indices: *final(r), ..old(self).nodes@[node as int] }),
            ),
            final(self).children == old(self).children,
            final(self).root == old(self).root,
            final(self).shape == old(self).shape,
            final(self).height == old(self).height,
    {
        &mut self.nodes[node as usize].indices
    }

    /// The number of live slots of `node`, to be written.
    fn key_count_mut(&mut self, node: u32) -> (r: &mut u32)
        requires
            node < old(self).nodes@.len(),
        ensures
            *r == old(self).nodes@[node as int].key_count,
            final(self).nodes@ == old(self).nodes@.update(
                node as int,
                (BTreeNode { key_count: *final(r), ..old(self).nodes@[node as int] }),
            ),
            final(self).children == old(self).children,
            final(self).root == old(self).root,
            final(self).shape == old(self).shape,
            final(self).height == old(self).height,
    {
        &mut self.nodes[node as usize].key_count
    }

    /// The row of children of `node`, if it is internal, to be written.
    fn children_mut(&mut self, node: u32) -> (r: Option<&mut [u32; MAX_CHILDREN]>)
        requires
            node < old(self).nodes@.len(),
            old(self).nodes@[node as int].children != LEAF ==> old(self).nodes@[node as int].children
                < old(self).children@.len(),
        ensures
            old(self).nodes@[node as int].children == LEAF ==> r is None && final(self).children
                == old(self).children,
            old(self).nodes@[node as int].children != LEAF ==> r is Some && *r->0 == old(
                self,
            ).children@[old(self).nodes@[node as int].children as int] && final(self).children@
                == old(self).children@.update(
                old(self).nodes@[node as int].children as int,
                *final(r->0),
            ),
            final(self).nodes == old(self).nodes,
            final(self).root == old(self).root,
            final(self).shape == old(self).shape,
            final(self).height == old(self).height,
    {
        let slot = self.nodes[node as usize].children;
        if slot == LEAF {
            None
        } else {
            Some(&mut self.children[slot as usize])
        }
    }

    /// Split the full child in slot `i` of the node `x`, which is not full:
    /// a new node takes the child's upper `MIN_KEYS` entries and, unless the
    /// child is a leaf, its upper `MIN_DEGREE` children; the child keeps the
    /// lower ones; the median entry moves up into slot `i` of `x`, and the
    /// new node becomes child `i + 1`.
    fn split_child(&mut self, x: u32, i: usize, Ghost(t): Ghost<Subtree<K, I>>)
        requires
            old(self).slots_ok(),
            old(self).nodes@.len() < LEAF,
            old(self).depicts(t),
            t.id == x,
            distinct(t),
            t.kids.len() == t.entries.len() + 1,
            t.entries.len() < MAX_KEYS,
            i < t.kids.len(),
            t.kids[i as int].entries.len() == MAX_KEYS,
            row_ok(t.kids[i as int].entries, t.kids[i as int].kids),
        ensures
            old(self).split_outcome(
                final(self),
                x as int,
                i as int,
                t.kids[i as int].id,
                old(self).nodes@.len() as int,
            ),
            final(self).nodes@.len() == old(self).nodes@.len() + 1,
            final(self).root == old(self).root,
            final(self).shape == old(self).shape,
            final(self).height == old(self).height,
    {
        let ghost pre = *self;
        let z = self.nodes.len() as u32;
        self.nodes.push(Self::blank());
        let y = self.children(x).unwrap()[i];
        let n = self.key_count(x) as usize;
        proof {
            reveal(BTree::slots_ok);
            reveal(BTree::split_outcome);
            assert(pre.node_matches(t));
            assert(y == t.kids[i as int].id);
            assert(pre.depicts(t.kids[i as int]));
            assert(pre.node_matches(t.kids[i as int]));
            assert(owns(t.kids[i as int], y as int));
            assert(x != y);
        }
        let ghost xs = pre.nodes@[x as int].children as int;
        let ghost ys = pre.nodes@[y as int].children as int;
        *self.key_count_mut(z) = MIN_KEYS as u32;
        let mut j: usize = 0;
        while j < MIN_KEYS
            invariant
                j <= MIN_KEYS,
                z == pre.nodes@.len(),
                y < pre.nodes@.len(),
                self.nodes@.len() == pre.nodes@.len() + 1,
                forall|a: int| 0 <= a < pre.nodes@.len() ==> self.nodes@[a] == pre.nodes@[a],
                self.children == pre.children,
                self.root == pre.root,
                self.shape == pre.shape,
                self.height == pre.height,
                self.nodes@[z as int].key_count == MIN_KEYS,
                self.nodes@[z as int].children == LEAF,
                forall|q: int|
                    0 <= q < j ==> entry_at(self.nodes@[z as int], q) == entry_at(
                        pre.nodes@[y as int],
                        q + MIN_DEGREE,
                    ),
            decreases MIN_KEYS - j,
        {
            let k = self.keys(y)[j + MIN_DEGREE];
            let ix = self.indices(y)[j + MIN_DEGREE];
            let ghost before = self.nodes@[z as int];
            self.keys_mut(z)[j] = k;
            self.indices_mut(z)[j] = ix;
            assert forall|q: int| 0 <= q < j + 1 implies entry_at(self.nodes@[z as int], q)
                == entry_at(pre.nodes@[y as int], q + MIN_DEGREE) by {
                if q < j {
                    assert(entry_at(before, q) == entry_at(pre.nodes@[y as int], q + MIN_DEGREE));
                }
            }
            j += 1;
        }
        let ghost zn = self.nodes@[z as int];
        if let None = self.children(y) {
            self.nodes[z as usize].children = LEAF;
        } else {
            self.nodes[z as usize].children = self.children.len() as u32;
            self.children.push([0u32;MAX_CHILDREN]);
            let ghost nodes3 = self.nodes@;
            let mut j: usize = 0;
            while j < MIN_DEGREE
                invariant
                    j <= MIN_DEGREE,
                    z == pre.nodes@.len(),
                    y < pre.nodes@.len(),
                    self.nodes@ == nodes3,
                    nodes3.len() == pre.nodes@.len() + 1,
                    nodes3[y as int] == pre.nodes@[y as int],
                    nodes3[z as int].children == pre.children@.len(),
                    ys == pre.nodes@[y as int].children,
                    0 <= ys < pre.children@.len() < LEAF,
                    self.children@.len() == pre.children@.len() + 1,
                    forall|s: int|
                        0 <= s < pre.children@.len() ==> self.children@[s] == pre.children@[s],
                    self.root == pre.root,
                    self.shape == pre.shape,
                    self.height == pre.height,
                    forall|q: int|
                        0 <= q < j ==> self.children@[pre.children@.len() as int]@[q]
                            == pre.children@[ys]@[q + MIN_DEGREE],
                decreases MIN_DEGREE - j,
            {
                let c = self.children(y).unwrap()[j + MIN_DEGREE];
                self.children_mut(z).unwrap()[j] = c;
                j += 1;
            }
        }
        assert(forall|a: int| 0 <= a < pre.nodes@.len() ==> self.nodes@[a] == pre.nodes@[a]);
        assert(self.nodes@[z as int].keys == zn.keys);
        assert(self.nodes@[z as int].indices == zn.indices);
        assert(self.nodes@[z as int].key_count == MIN_KEYS);
        *self.key_count_mut(y) = MIN_KEYS as u32;
        let ghost s5 = *self;
        assert(forall|a: int|
            0 <= a < pre.nodes@.len() && a != y ==> s5.nodes@[a] == pre.nodes@[a]);
        assert(forall|s: int| 0 <= s < pre.children@.len() ==> s5.children@[s] == pre.children@[s]);
        assert(s5.nodes@[z as int].keys == zn.keys);
        assert(s5.nodes@[z as int].indices == zn.indices);
        assert(s5.nodes@[y as int].key_count == MIN_KEYS);
        assert(s5.nodes@[y as int].keys == pre.nodes@[y as int].keys);
        assert(s5.nodes@[y as int].indices == pre.nodes@[y as int].indices);
        assert(s5.nodes@[y as int].children == pre.nodes@[y as int].children);
        assert(ys == LEAF ==> s5.nodes@[z as int].children == LEAF && s5.children@.len()
            == pre.children@.len());
        assert(ys != LEAF ==> s5.nodes@[z as int].children == pre.children@.len()
            && s5.children@.len() == pre.children@.len() + 1 && forall|q: int|
            0 <= q < MIN_DEGREE ==> s5.children@[pre.children@.len() as int]@[q]
                == pre.children@[ys]@[q + MIN_DEGREE]);
        let mut j: usize = n + 1;
        while j > i + 1
            invariant
                i + 1 <= j <= n + 1,
                n < MAX_KEYS,
                x < pre.nodes@.len(),
                self.nodes == s5.nodes,
                s5.nodes@.len() == pre.nodes@.len() + 1,
                xs == s5.nodes@[x as int].children,
                0 <= xs < pre.children@.len() <= s5.children@.len(),
                xs != LEAF,
                self.children@.len() == s5.children@.len(),
                forall|s: int|
                    0 <= s < s5.children@.len() && s != xs ==> self.children@[s] == s5.children@[s],
                forall|q: int| 0 <= q <= j ==> self.children@[xs]@[q] == s5.children@[xs]@[q],
                forall|q: int|
                    j < q <= n + 1 ==> self.children@[xs]@[q] == s5.children@[xs]@[q - 1],
                self.root == pre.root,
                self.shape == pre.shape,
                self.height == pre.height,
            decreases j,
        {
            let array = self.children_mut(x).unwrap();
            array[j] = array[j - 1];
            j -= 1;
        }
        self.children_mut(x).unwrap()[i + 1] = z;
        let ghost s7 = *self;
        assert(s7.nodes == s5.nodes);
        let mut j: usize = n;
        while j > i
            invariant
                i <= j <= n,
                n < MAX_KEYS,
                x < pre.nodes@.len(),
                self.children == s7.children,
                self.nodes@.len() == s7.nodes@.len(),
                s7.nodes@.len() == pre.nodes@.len() + 1,
                forall|a: int|
                    0 <= a < s7.nodes@.len() && a != x ==> self.nodes@[a] == s7.nodes@[a],
                self.nodes@[x as int].key_count == s7.nodes@[x as int].key_count,
                self.nodes@[x as int].children == s7.nodes@[x as int].children,
                forall|q: int|
                    0 <= q <= j ==> entry_at(self.nodes@[x as int], q) == entry_at(
                        s7.nodes@[x as int],
                        q,
                    ),
                forall|q: int|
                    j < q <= n ==> entry_at(self.nodes@[x as int], q) == entry_at(
                        s7.nodes@[x as int],
                        q - 1,
                    ),
                self.root == pre.root,
                self.shape == pre.shape,
                self.height == pre.height,
            decreases j,
        {
            let k = self.keys(x)[j - 1];
            let ix = self.indices(x)[j - 1];
            let ghost before = self.nodes@[x as int];
            self.keys_mut(x)[j] = k;
            self.indices_mut(x)[j] = ix;
            assert forall|q: int| 0 <= q <= j - 1 implies entry_at(self.nodes@[x as int], q)
                == entry_at(s7.nodes@[x as int], q) by {
                assert(entry_at(before, q) == entry_at(s7.nodes@[x as int], q));
            }
            assert forall|q: int| j - 1 < q <= n implies entry_at(self.nodes@[x as int], q)
                == entry_at(s7.nodes@[x as int], q - 1) by {
                if q > j {
                    assert(entry_at(before, q) == entry_at(s7.nodes@[x as int], q - 1));
                } else {
                    assert(entry_at(before, j - 1) == entry_at(s7.nodes@[x as int], j - 1));
                }
            }
            j -= 1;
        }
        let k = self.keys(y)[MIN_KEYS];
        let ix = self.indices(y)[MIN_KEYS];
        let ghost before = self.nodes@[x as int];
        self.keys_mut(x)[i] = k;
        self.indices_mut(x)[i] = ix;
        *self.key_count_mut(x) += 1;
        proof {
            reveal(BTree::split_outcome);
            assert(self.nodes@[z as int] == s5.nodes@[z as int]);
            assert(self.nodes@[y as int] == s5.nodes@[y as int]);
            assert(self.children == s7.children);
            if ys != LEAF {
                let zs = pre.children@.len() as int;
                assert(s7.children@[zs] == s5.children@[zs]);
            }
            assert forall|s: int| 0 <= s < pre.children@.len() && s != xs implies self.children@[s]
                == pre.children@[s] by {
                assert(s7.children@[s] == s5.children@[s]);
            }
            assert forall|q: int| 0 <= q < MIN_KEYS implies entry_at(self.nodes@[z as int], q)
                == entry_at(pre.nodes@[y as int], q + MIN_DEGREE) by {
                assert(entry_at(zn, q) == entry_at(pre.nodes@[y as int], q + MIN_DEGREE));
            }
            assert forall|q: int| 0 <= q < i implies entry_at(self.nodes@[x as int], q)
                == entry_at(pre.nodes@[x as int], q) by {
                assert(entry_at(before, q) == entry_at(s7.nodes@[x as int], q));
            }
            assert forall|q: int| i < q <= n implies entry_at(self.nodes@[x as int], q)
                == entry_at(pre.nodes@[x as int], q - 1) by {
                assert(entry_at(before, q) == entry_at(s7.nodes@[x as int], q - 1));
            }
        }
    }
}


impl<K, I> BTree<K, I> where K: Copy + Default + PartialEq + PartialOrd, I: Copy + Default {
    /// Put the entry into the leaf `x`, which is not full, behind the last
    /// key that is not greater.
    fn insert_leaf(
        &mut self,
        x: u32,
        key: K,
        index: I,
        Ghost(t): Ghost<Subtree<K, I>>,
        Ghost(lo): Ghost<Option<K>>,
        Ghost(hi): Ghost<Option<K>>,
    ) -> (r: Ghost<(Subtree<K, I>, int)>)
        requires
            old(self).slots_ok(),
            old(self).depicts(t),
            t.id == x,
            t.kids.len() == 0,
            t.entries.len() < MAX_KEYS,
            total_order::<K>() ==> ordered(t, lo, hi) && within(key, lo, hi),
        ensures
            final(self).slots_ok(),
            final(self).depicts(r@.0),
            r@.0.id == x,
            r@.0.kids.len() == 0,
            0 <= r@.1 <= t.entries.len(),
            r@.0.entries == t.entries.insert(r@.1, (key, index)),
            total_order::<K>() ==> ordered(r@.0, lo, hi),
            final(self).nodes@.len() == old(self).nodes@.len(),
            forall|a: int|
                0 <= a < old(self).nodes@.len() && a != x ==> old(self).untouched(final(self), a),
            final(self).root == old(self).root,
            final(self).shape == old(self).shape,
            final(self).height == old(self).height,
    {
        let ghost pre = *self;
        let n = self.key_count(x) as usize;
        let mut i: usize = n;
        proof {
            assert(pre.node_matches(t));
        }
        while i > 0 && precedes(key, self.keys(x)[i - 1])
            invariant
                i <= n < MAX_KEYS,
                x < pre.nodes@.len(),
                n == t.entries.len(),
                pre.node_matches(t),
                t.id == x,
                self.children == pre.children,
                self.nodes@.len() == pre.nodes@.len(),
                forall|a: int|
                    0 <= a < pre.nodes@.len() && a != x ==> self.nodes@[a] == pre.nodes@[a],
                self.nodes@[x as int].key_count == pre.nodes@[x as int].key_count,
                self.nodes@[x as int].children == pre.nodes@[x as int].children,
                forall|q: int|
                    0 <= q < i ==> entry_at(self.nodes@[x as int], q) == entry_at(
                        pre.nodes@[x as int],
                        q,
                    ),
                forall|q: int|
                    i < q <= n ==> entry_at(self.nodes@[x as int], q) == entry_at(
                        pre.nodes@[x as int],
                        q - 1,
                    ),
                total_order::<K>() ==> forall|q: int|
                    i <= q < n ==> key_lt(key, #[trigger] t.entries[q].0),
                self.root == pre.root,
                self.shape == pre.shape,
                self.height == pre.height,
            decreases i,
        {
            let k = self.keys(x)[i - 1];
            let ix = self.indices(x)[i - 1];
            let ghost before = self.nodes@[x as int];
            proof {
                assert(entry_at(before, i - 1) == entry_at(pre.nodes@[x as int], i - 1));
                assert(t.entries[i - 1] == entry_at(pre.nodes@[x as int], i - 1));
            }
            self.keys_mut(x)[i] = k;
            self.indices_mut(x)[i] = ix;
            assert forall|q: int| 0 <= q < i - 1 implies entry_at(self.nodes@[x as int], q)
                == entry_at(pre.nodes@[x as int], q) by {
                assert(entry_at(before, q) == entry_at(pre.nodes@[x as int], q));
            }
            assert forall|q: int| i - 1 < q <= n implies entry_at(self.nodes@[x as int], q)
                == entry_at(pre.nodes@[x as int], q - 1) by {
                if q > i {
                    assert(entry_at(before, q) == entry_at(pre.nodes@[x as int], q - 1));
                }
            }
            i -= 1;
        }
        let ghost before = self.nodes@[x as int];
        proof {
            if i > 0 {
                assert(entry_at(before, i - 1) == entry_at(pre.nodes@[x as int], i - 1));
                assert(t.entries[i - 1] == entry_at(pre.nodes@[x as int], i - 1));
            }
        }
        self.keys_mut(x)[i] = key;
        self.indices_mut(x)[i] = index;
        *self.key_count_mut(x) += 1;
        let ghost t2 = Subtree {
            id: t.id,
            entries: t.entries.insert(i as int, (key, index)),
            kids: t.kids,
        };
        proof {
            reveal(BTree::slots_ok);
            reveal(BTree::untouched);
            assert(self.node_matches(t2)) by {
                assert forall|j: int| 0 <= j < t2.entries.len() implies #[trigger] t2.entries[j]
                    == (self.nodes@[x as int].keys@[j], self.nodes@[x as int].indices@[j]) by {
                    if j < i {
                        assert(entry_at(before, j) == entry_at(pre.nodes@[x as int], j));
                        assert(t.entries[j] == entry_at(pre.nodes@[x as int], j));
                    } else if j > i {
                        assert(entry_at(before, j) == entry_at(pre.nodes@[x as int], j - 1));
                        assert(t.entries[j - 1] == entry_at(pre.nodes@[x as int], j - 1));
                    }
                }
            }
            assert(self.depicts(t2));
            assert(self.slots_ok()) by {
                assert forall|a: int| 0 <= a < self.nodes@.len() implies (
                #[trigger] self.nodes@[a]).children == LEAF || self.nodes@[a].children
                    < self.children@.len() by {
                    assert(pre.nodes@[a].children == LEAF || pre.nodes@[a].children
                        < pre.children@.len());
                }
                assert forall|a: int, b: int|
                    0 <= a < b < self.nodes@.len() && self.nodes@[a].children != LEAF implies (
                #[trigger] self.nodes@[a]).children != (#[trigger] self.nodes@[b]).children by {
                    assert(pre.nodes@[a].children != pre.nodes@[b].children);
                }
            }
            if total_order::<K>() {
                if i > 0 {
                    lemma_order_facts(key, t.entries[i - 1].0);
                    lemma_order_facts(t.entries[i - 1].0, key);
                }
                if i < n {
                    lemma_order_facts(key, t.entries[i as int].0);
                }
                lemma_leaf_insert_ordered(
                    t.entries,
                    i as int,
                    (key, index),
                    lo,
                    hi,
                );
            }
        }
        Ghost((t2, i as int))
    }
}


impl<K, I> BTree<K, I> where K: Copy + Default + PartialEq + PartialOrd, I: Copy + Default {
    /// Insert below the node `x`, which is not full: into `x` itself if it
    /// is a leaf, else into the child right of the last key that is not
    /// greater, which is split first if it is full.
    #[verifier::rlimit(40)]
    fn insert_nonfull(
        &mut self,
        x: u32,
        key: K,
        index: I,
        Ghost(t): Ghost<Subtree<K, I>>,
        Ghost(h): Ghost<nat>,
        Ghost(lo): Ghost<Option<K>>,
        Ghost(hi): Ghost<Option<K>>,
        Ghost(root): Ghost<bool>,
    ) -> (r: Ghost<(Subtree<K, I>, int)>)
        requires
            old(self).slots_ok(),
            old(self).depicts(t),
            t.id == x,
            distinct(t),
            well_shaped(t, h, root),
            t.entries.len() < MAX_KEYS,
            old(self).nodes@.len() + h < LEAF,
            total_order::<K>() ==> ordered(t, lo, hi) && within(key, lo, hi),
        ensures
            final(self).slots_ok(),
            final(self).depicts(r@.0),
            r@.0.id == x,
            distinct(r@.0),
            well_shaped(r@.0, h, root),
            total_order::<K>() ==> ordered(r@.0, lo, hi),
            0 <= r@.1 <= flat(t).len(),
            flat(r@.0) == flat(t).insert(r@.1, (key, index)),
            old(self).nodes@.len() <= final(self).nodes@.len() <= old(self).nodes@.len() + h,
            size(r@.0) + old(self).nodes@.len() == size(t) + final(self).nodes@.len(),
            forall|a: int| owns(r@.0, a) ==> owns(t, a) || old(self).nodes@.len() <= a,
            forall|a: int|
                0 <= a < old(self).nodes@.len() && !owns(t, a) ==> old(self).untouched(
                    final(self),
                    a,
                ),
            final(self).root == old(self).root,
            final(self).shape == old(self).shape,
            final(self).height == old(self).height,
        decreases h,
    {
        let ghost pre = *self;
        proof {
            assert(pre.node_matches(t));
        }
        if let None = self.children(x) {
            // x is a leaf
            let r = self.insert_leaf(x, key, index, Ghost(t), Ghost(lo), Ghost(hi));
            proof {
                assert(flat(t) == t.entries);
                assert(flat(r@.0) == r@.0.entries);
                assert(count(t.kids) == 0);
                assert forall|a: int| owns(r@.0, a) implies owns(t, a) by {
                    if a != x {
                        let j = lemma_owns_below(r@.0, a);
                    }
                }
            }
            r
        } else {
            // x is internal
            let n = self.key_count(x) as usize;
            let mut i: usize = n;
            while i > 0 && precedes(key, self.keys(x)[i - 1])
                invariant
                    i <= n,
                    *self == pre,
                    pre.node_matches(t),
                    t.id == x,
                    n == t.entries.len(),
                    total_order::<K>() && i < n ==> key_lt(key, t.entries[i as int].0),
                decreases i,
            {
                proof {
                    assert(t.entries[i - 1] == entry_at(pre.nodes@[x as int], i - 1));
                }
                i -= 1;
            }
            proof {
                if i > 0 {
                    assert(t.entries[i - 1] == entry_at(pre.nodes@[x as int], i - 1));
                }
                assert(pre.depicts(t.kids[i as int]));
                assert(pre.node_matches(t.kids[i as int]));
                assert(well_shaped(t.kids[i as int], (h - 1) as nat, false));
                assert(row_ok(t.kids[i as int].entries, t.kids[i as int].kids));
            }
            let ghost mut t1 = t;
            let c = self.children(x).unwrap()[i];
            if self.key_count(c) == MAX_KEYS as u32 {
                self.split_child(x, i, Ghost(t));
                proof {
                    let z = pre.nodes@.len() as int;
                    t1 = split_at(t, i as int, z);
                    pre.lemma_split_step(self, t, i as int, h, root, lo, hi);
                    assert(self.node_matches(t1));
                    assert(t1.entries[i as int] == entry_at(self.nodes@[x as int], i as int));
                }
                if follows(key, self.keys(x)[i]) {
                    i += 1;
                }
            } else {
                proof {
                    assert forall|a: int| 0 <= a < pre.nodes@.len() implies pre.untouched(
                        self,
                        a,
                    ) by {
                        reveal(BTree::untouched);
                        reveal(BTree::slots_ok);
                    }
                }
            }
            let ghost mid = *self;
            let ghost kid = t1.kids[i as int];
            let ghost klo = lower(t1.entries, lo, i as int);
            let ghost khi = upper(t1.entries, hi, i as int);
            proof {
                assert(mid.node_matches(t1));
                assert(mid.depicts(kid));
                assert(mid.node_matches(kid));
                assert(distinct(kid));
                assert(well_shaped(kid, (h - 1) as nat, false));
                if total_order::<K>() {
                    assert(ordered(kid, klo, khi));
                    if i > 0 {
                        lemma_order_facts(key, t1.entries[i - 1].0);
                        lemma_order_facts(t1.entries[i - 1].0, key);
                    }
                    if i < t1.entries.len() {
                        lemma_order_facts(key, t1.entries[i as int].0);
                        lemma_order_facts(t1.entries[i as int].0, key);
                    }
                    assert(within(key, klo, khi));
                }
            }
            let c = self.children(x).unwrap()[i];
            let r = self.insert_nonfull(
                c,
                key,
                index,
                Ghost(kid),
                Ghost((h - 1) as nat),
                Ghost(klo),
                Ghost(khi),
                Ghost(false),
            );
            let ghost k2 = r@.0;
            let ghost t2 = with_kid(t1, i as int, k2);
            let ghost q = 0int;
            proof {
                q = pre.lemma_descended(&mid, self, t, t1, i as int, k2, r@.1, (key, index), h, root);
                if total_order::<K>() {
                    crate::shape_lemmas::lemma_with_kid_ordered(t1, i as int, k2, lo, hi);
                }
            }
            Ghost((t2, q))
        }
    }
}

} // verus!
