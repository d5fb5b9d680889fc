//! The mathematical model of a B-tree: a tree of nodes, each with its
//! entries and its children, free of any storage concern.

use crate::order::key_le;
use vstd::prelude::*;

verus! {

/// Minimum degree: every node but the root holds at least `MIN_DEGREE - 1`
/// keys, and no node holds more than `2 * MIN_DEGREE - 1`.
pub const MIN_DEGREE: usize = 8;

/// Fewest keys in a node other than the root.
pub const MIN_KEYS: usize = MIN_DEGREE - 1;

/// Most keys in any node.
pub const MAX_KEYS: usize = 2 * MIN_DEGREE - 1;

/// Most children of any node.
pub const MAX_CHILDREN: usize = 2 * MIN_DEGREE;

/// A node of the model together with everything below it.
pub ghost struct Subtree<K, I> {
    /// Handle of the node in the arena.
    pub id: int,
    /// The node's keys with their positions, in slot order.
    pub entries: Seq<(K, I)>,
    /// The children, left to right; empty for a leaf.
    pub kids: Seq<Subtree<K, I>>,
}

/// A node's children are none, or one more than its entries.
pub open spec fn row_ok<K, I>(es: Seq<(K, I)>, ks: Seq<Subtree<K, I>>) -> bool {
    ks.len() == 0 || ks.len() == es.len() + 1
}

/// In-order contents of a subtree: child, entry, child, entry, ..., child.
pub open spec fn flat<K, I>(t: Subtree<K, I>) -> Seq<(K, I)>
    decreases t,
{
    join(t.entries, t.kids)
}

/// In-order contents of a node given by its entries and children.
pub open spec fn join<K, I>(es: Seq<(K, I)>, ks: Seq<Subtree<K, I>>) -> Seq<(K, I)>
    decreases ks,
{
    if ks.len() == 0 {
        es
    } else if ks.len() == 1 {
        flat(ks[0])
    } else {
        join(es.drop_last(), ks.drop_last()) + seq![es.last()] + flat(ks.last())
    }
}

/// Number of nodes in a subtree.
pub open spec fn size<K, I>(t: Subtree<K, I>) -> nat
    decreases t,
{
    1 + count(t.kids)
}

/// Number of nodes in a row of subtrees.
pub open spec fn count<K, I>(ks: Seq<Subtree<K, I>>) -> nat
    decreases ks,
{
    if ks.len() == 0 {
        0
    } else {
        count(ks.drop_last()) + size(ks.last())
    }
}

/// The node with handle `x` is `t`'s root or lies below it.
pub open spec fn owns<K, I>(t: Subtree<K, I>, x: int) -> bool
    decreases t,
{
    x == t.id || exists|j: int| #![trigger t.kids[j]] 0 <= j < t.kids.len() && owns(t.kids[j], x)
}

/// No handle occurs twice in `t`.
pub open spec fn distinct<K, I>(t: Subtree<K, I>) -> bool
    decreases t,
{
    &&& forall|j: int| 0 <= j < t.kids.len() ==> !#[trigger] owns(t.kids[j], t.id)
    &&& forall|j: int, k: int, x: int|
        0 <= j < k < t.kids.len() ==> !(#[trigger] owns(t.kids[j], x) && #[trigger] owns(
            t.kids[k],
            x,
        ))
    &&& forall|j: int| #![trigger t.kids[j]] 0 <= j < t.kids.len() ==> distinct(t.kids[j])
}

/// `t` has the shape of a B-tree of height `h`: every leaf is `h` levels
/// below `t`, each node holds at most `MAX_KEYS` keys and, unless it is the
/// root, at least `MIN_KEYS`; an internal node with `k` keys has `k + 1`
/// children, and an internal root has a key.
pub open spec fn well_shaped<K, I>(t: Subtree<K, I>, h: nat, root: bool) -> bool
    decreases h,
{
    &&& t.entries.len() <= MAX_KEYS
    &&& !root ==> t.entries.len() >= MIN_KEYS
    &&& if h == 0 {
        t.kids.len() == 0
    } else {
        &&& t.entries.len() >= 1
        &&& t.kids.len() == t.entries.len() + 1
        &&& forall|j: int|
            #![trigger t.kids[j]]
            0 <= j < t.kids.len() ==> well_shaped(t.kids[j], (h - 1) as nat, false)
    }
}

/// `k` lies between the bounds, where a missing bound does not constrain.
pub open spec fn within<K: PartialOrd>(k: K, lo: Option<K>, hi: Option<K>) -> bool {
    &&& lo matches Some(l) ==> key_le(l, k)
    &&& hi matches Some(u) ==> key_le(k, u)
}

/// Lower bound of child `j` of a node with entries `es` and lower bound `lo`.
pub open spec fn lower<K, I>(es: Seq<(K, I)>, lo: Option<K>, j: int) -> Option<K> {
    if j <= 0 {
        lo
    } else {
        Some(es[j - 1].0)
    }
}

/// Upper bound of child `j` of a node with entries `es` and upper bound `hi`.
pub open spec fn upper<K, I>(es: Seq<(K, I)>, hi: Option<K>, j: int) -> Option<K> {
    if j >= es.len() {
        hi
    } else {
        Some(es[j].0)
    }
}

/// The keys of `t` are in search-tree order between `lo` and `hi`: the keys
/// of a node ascend (equal neighbours allowed), and child `j` holds only
/// keys between the node's keys `j - 1` and `j`.
pub open spec fn ordered<K: PartialOrd, I>(t: Subtree<K, I>, lo: Option<K>, hi: Option<K>) -> bool
    decreases t,
{
    ordered_row(t.entries, t.kids, lo, hi)
}

/// [`ordered`] for a node given by its entries and children.
pub open spec fn ordered_row<K: PartialOrd, I>(
    es: Seq<(K, I)>,
    ks: Seq<Subtree<K, I>>,
    lo: Option<K>,
    hi: Option<K>,
) -> bool
    decreases ks,
{
    &&& forall|i: int| 0 <= i < es.len() ==> within(#[trigger] es[i].0, lo, hi)
    &&& ascending(es)
    &&& forall|j: int|
        #![trigger ks[j]]
        0 <= j < ks.len() ==> ordered(ks[j], lower(es, lo, j), upper(es, hi, j))
}

/// The keys of `s` ascend, equal neighbours allowed.
pub open spec fn ascending<K: PartialOrd, I>(s: Seq<(K, I)>) -> bool {
    forall|i: int, j: int| 0 <= i < j < s.len() ==> key_le(#[trigger] s[i].0, #[trigger] s[j].0)
}

/// The lower half of a full node `y`: its first `MIN_KEYS` entries and, if
/// it is internal, its first `MIN_DEGREE` children, under `y`'s own handle.
pub open spec fn left_half<K, I>(y: Subtree<K, I>) -> Subtree<K, I> {
    Subtree {
        id: y.id,
        entries: y.entries.take(MIN_KEYS as int),
        kids: if y.kids.len() == 0 {
            Seq::empty()
        } else {
            y.kids.take(MIN_DEGREE as int)
        },
    }
}

/// The upper half of a full node `y`: its last `MIN_KEYS` entries and, if it
/// is internal, its last `MIN_DEGREE` children, under the handle `z`.
pub open spec fn right_half<K, I>(y: Subtree<K, I>, z: int) -> Subtree<K, I> {
    Subtree {
        id: z,
        entries: y.entries.skip(MIN_DEGREE as int),
        kids: if y.kids.len() == 0 {
            Seq::empty()
        } else {
            y.kids.skip(MIN_DEGREE as int)
        },
    }
}

/// `t` after its full child `i` was split: the child's median entry moves
/// up into slot `i` of `t`, the child keeps its lower half, and a new node
/// `z` to its right takes the upper half.
pub open spec fn split_at<K, I>(t: Subtree<K, I>, i: int, z: int) -> Subtree<K, I> {
    Subtree {
        id: t.id,
        entries: t.entries.insert(i, t.kids[i].entries[MIN_KEYS as int]),
        kids: t.kids.update(i, left_half(t.kids[i])).insert(i + 1, right_half(t.kids[i], z)),
    }
}

/// `t` with its child `i` replaced by `k`.
pub open spec fn with_kid<K, I>(t: Subtree<K, I>, i: int, k: Subtree<K, I>) -> Subtree<K, I> {
    Subtree { id: t.id, entries: t.entries, kids: t.kids.update(i, k) }
}

} // verus!
