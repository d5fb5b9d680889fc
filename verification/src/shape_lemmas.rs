//! Facts about the model that hold of every tree: where the contents of a
//! node come from, and that search-tree order makes them ascend.

use crate::order::{key_eq, key_le, key_lt, lemma_le_trans, lemma_order_facts, total_order};
use crate::shape::{
    ascending, count, distinct, flat, join, left_half, lower, ordered, ordered_row, owns,
    right_half, row_ok, size, split_at, upper, well_shaped, with_kid, within, Subtree, MAX_KEYS,
    MIN_DEGREE, MIN_KEYS,
};
use vstd::prelude::*;

verus! {

/// An item is among the contents of a node exactly if it is one of the
/// node's entries or among the contents of one of its children.
pub proof fn lemma_join_contains<K, I>(es: Seq<(K, I)>, ks: Seq<Subtree<K, I>>, x: (K, I))
    requires
        row_ok(es, ks),
    ensures
        join(es, ks).contains(x) <==> es.contains(x) || exists|j: int|
            0 <= j < ks.len() && #[trigger] flat(ks[j]).contains(x),
    decreases ks.len(),
{
    if ks.len() == 0 {
    } else if ks.len() == 1 {
        assert(es.len() == 0);
        if join(es, ks).contains(x) {
            assert(flat(ks[0]).contains(x));
        }
    } else {
        let a = join(es.drop_last(), ks.drop_last());
        let e = es.last();
        let f = flat(ks.last());
        lemma_join_contains(es.drop_last(), ks.drop_last(), x);
        vstd::seq_lib::lemma_seq_concat_contains_all_elements(a, seq![e], x);
        vstd::seq_lib::lemma_seq_concat_contains_all_elements(a + seq![e], f, x);
        assert(seq![e].contains(x) <==> x == e) by {
            if x == e {
                assert(seq![e][0] == x);
            }
        }
        if join(es, ks).contains(x) {
            if a.contains(x) {
                if es.drop_last().contains(x) {
                    let i = choose|i: int| 0 <= i < es.drop_last().len() && es.drop_last()[i] == x;
                    assert(es[i] == x);
                } else {
                    let j = choose|j: int|
                        0 <= j < ks.drop_last().len() && #[trigger] flat(ks.drop_last()[j]).contains(
                            x,
                        );
                    assert(ks.drop_last()[j] == ks[j]);
                    assert(flat(ks[j]).contains(x));
                }
            } else if x == e {
                assert(es[es.len() - 1] == x);
            } else {
                assert(flat(ks[ks.len() - 1]).contains(x));
            }
        }
        if es.contains(x) {
            let i = choose|i: int| 0 <= i < es.len() && es[i] == x;
            if i < es.len() - 1 {
                assert(es.drop_last()[i] == x);
            }
        }
        if exists|j: int| 0 <= j < ks.len() && #[trigger] flat(ks[j]).contains(x) {
            let j = choose|j: int| 0 <= j < ks.len() && #[trigger] flat(ks[j]).contains(x);
            if j < ks.len() - 1 {
                assert(ks.drop_last()[j] == ks[j]);
                assert(flat(ks.drop_last()[j]).contains(x));
            }
        }
    }
}

/// Under search-tree order the contents of a node ascend and lie within the
/// node's bounds.
pub proof fn lemma_row_ascending<K: PartialOrd, I>(
    es: Seq<(K, I)>,
    ks: Seq<Subtree<K, I>>,
    lo: Option<K>,
    hi: Option<K>,
    h: nat,
)
    requires
        total_order::<K>(),
        row_ok(es, ks),
        ordered_row(es, ks, lo, hi),
        forall|j: int| #![trigger ks[j]] 0 <= j < ks.len() ==> h > 0 && well_shaped(ks[j], (h - 1) as nat, false),
    ensures
        ascending(join(es, ks)),
        forall|i: int| 0 <= i < join(es, ks).len() ==> within(#[trigger] join(es, ks)[i].0, lo, hi),
    decreases h, ks.len(),
{
    if ks.len() == 0 {
    } else if ks.len() == 1 {
        let kid = ks[0];
        assert(ordered(kid, lower(es, lo, 0), upper(es, hi, 0)));
        lemma_row_ascending(kid.entries, kid.kids, lo, hi, (h - 1) as nat);
        assert(flat(kid) == join(kid.entries, kid.kids));
        assert(join(es, ks) == flat(kid));
    } else {
        let n = ks.len() - 1;
        let e = es.last();
        let a = join(es.drop_last(), ks.drop_last());
        let kid = ks.last();
        let f = flat(kid);
        let mid = Some(e.0);
        assert(es[n - 1] == e);
        assert(within(es[n - 1].0, lo, hi));
        assert forall|i: int| 0 <= i < es.drop_last().len() implies within(
            #[trigger] es.drop_last()[i].0,
            lo,
            mid,
        ) by {
            assert(es.drop_last()[i] == es[i]);
            assert(within(es[i].0, lo, hi));
            assert(key_le(es[i].0, es[n - 1].0));
        }
        assert(ascending(es.drop_last())) by {
            assert forall|i: int, j: int| 0 <= i < j < es.drop_last().len() implies key_le(
                #[trigger] es.drop_last()[i].0,
                #[trigger] es.drop_last()[j].0,
            ) by {
                assert(key_le(es[i].0, es[j].0));
            }
        }
        assert forall|j: int| #![trigger ks.drop_last()[j]] 0 <= j < ks.drop_last().len() implies ordered(
            ks.drop_last()[j],
            lower(es.drop_last(), lo, j),
            upper(es.drop_last(), mid, j),
        ) by {
            assert(ks.drop_last()[j] == ks[j]);
            assert(ordered(ks[j], lower(es, lo, j), upper(es, hi, j)));
        }
        assert forall|j: int| #![trigger ks.drop_last()[j]] 0 <= j < ks.drop_last().len() implies h > 0
            && well_shaped(ks.drop_last()[j], (h - 1) as nat, false) by {
            assert(ks.drop_last()[j] == ks[j]);
        }
        lemma_row_ascending(es.drop_last(), ks.drop_last(), lo, mid, h);
        assert(kid == ks[n as int]);
        assert(ordered(kid, lower(es, lo, n as int), upper(es, hi, n as int)));
        lemma_row_ascending(kid.entries, kid.kids, mid, hi, (h - 1) as nat);
        assert(f == join(kid.entries, kid.kids));
        let whole = join(es, ks);
        assert(whole == a + seq![e] + f);
        assert forall|i: int| 0 <= i < whole.len() implies within(#[trigger] whole[i].0, lo, hi) by {
            if i < a.len() {
                assert(whole[i] == a[i]);
                assert(within(a[i].0, lo, mid));
                if let Some(u) = hi {
                    lemma_le_trans(a[i].0, e.0, u);
                }
            } else if i == a.len() {
                assert(whole[i] == e);
            } else {
                let i2 = i - a.len() - 1;
                assert(whole[i] == f[i2]);
                assert(within(f[i2].0, mid, hi));
                if let Some(l) = lo {
                    lemma_le_trans(l, e.0, f[i2].0);
                }
            }
        }
        assert forall|i: int, j: int| 0 <= i < j < whole.len() implies key_le(
            #[trigger] whole[i].0,
            #[trigger] whole[j].0,
        ) by {
            if j < a.len() {
                assert(whole[i] == a[i] && whole[j] == a[j]);
            } else if i < a.len() {
                assert(whole[i] == a[i]);
                assert(within(a[i].0, lo, mid));
                if j == a.len() {
                    assert(whole[j] == e);
                } else {
                    let j2 = j - a.len() - 1;
                    assert(whole[j] == f[j2]);
                    assert(within(f[j2].0, mid, hi));
                    lemma_le_trans(a[i].0, e.0, f[j2].0);
                }
            } else if i == a.len() {
                let j2 = j - a.len() - 1;
                assert(whole[i] == e);
                assert(whole[j] == f[j2]);
                assert(within(f[j2].0, mid, hi));
            } else {
                let i2 = i - a.len() - 1;
                let j2 = j - a.len() - 1;
                assert(whole[i] == f[i2] && whole[j] == f[j2]);
            }
        }
    }
}

/// Under search-tree order the contents of a subtree ascend and lie within
/// the subtree's bounds.
pub proof fn lemma_flat_ascending<K: PartialOrd, I>(
    t: Subtree<K, I>,
    lo: Option<K>,
    hi: Option<K>,
    h: nat,
    root: bool,
)
    requires
        total_order::<K>(),
        well_shaped(t, h, root),
        ordered(t, lo, hi),
    ensures
        ascending(flat(t)),
        forall|i: int| 0 <= i < flat(t).len() ==> within(#[trigger] flat(t)[i].0, lo, hi),
{
    lemma_row_ascending(t.entries, t.kids, lo, hi, h);
}

/// Inserting into the contents of one child inserts into the contents of
/// the node; the result is the position in the node's contents.
pub proof fn lemma_join_replace<K, I>(
    es: Seq<(K, I)>,
    ks: Seq<Subtree<K, I>>,
    j: int,
    k2: Subtree<K, I>,
    p: int,
    x: (K, I),
) -> (q: int)
    requires
        row_ok(es, ks),
        0 <= j < ks.len(),
        0 <= p <= flat(ks[j]).len(),
        flat(k2) == flat(ks[j]).insert(p, x),
    ensures
        0 <= q <= join(es, ks).len(),
        join(es, ks.update(j, k2)) == join(es, ks).insert(q, x),
    decreases ks.len(),
{
    let ks2 = ks.update(j, k2);
    if ks.len() == 1 {
        assert(join(es, ks2) == flat(ks2[0]));
        p
    } else {
        let a = join(es.drop_last(), ks.drop_last());
        let e = es.last();
        let f = flat(ks.last());
        assert(join(es, ks2) == join(es.drop_last(), ks2.drop_last()) + seq![e] + flat(ks2.last()));
        if j == ks.len() - 1 {
            assert(ks2.drop_last() =~= ks.drop_last());
            let q = a.len() + 1 + p;
            assert(a + seq![e] + f.insert(p, x) =~= (a + seq![e] + f).insert(q, x));
            q
        } else {
            assert(ks.drop_last()[j] == ks[j]);
            let q = lemma_join_replace(es.drop_last(), ks.drop_last(), j, k2, p, x);
            assert(ks2.drop_last() =~= ks.drop_last().update(j, k2));
            assert(a.insert(q, x) + seq![e] + f =~= (a + seq![e] + f).insert(q, x));
            q
        }
    }
}

/// Replacing child `i` by two subtrees with an entry between them, whose
/// contents in that order are the child's, leaves the node's contents as
/// they were.
pub proof fn lemma_join_split<K, I>(
    es: Seq<(K, I)>,
    ks: Seq<Subtree<K, I>>,
    i: int,
    l: Subtree<K, I>,
    m: (K, I),
    r: Subtree<K, I>,
)
    requires
        ks.len() == es.len() + 1,
        0 <= i < ks.len(),
        flat(ks[i]) == flat(l) + seq![m] + flat(r),
    ensures
        join(es.insert(i, m), ks.update(i, l).insert(i + 1, r)) == join(es, ks),
    decreases ks.len(),
{
    let es2 = es.insert(i, m);
    let ks2 = ks.update(i, l).insert(i + 1, r);
    assert(ks2.len() == ks.len() + 1);
    assert(es2.len() == es.len() + 1);
    assert(join(es2, ks2) == join(es2.drop_last(), ks2.drop_last()) + seq![es2.last()] + flat(
        ks2.last(),
    ));
    if i == ks.len() - 1 {
        assert(es2.drop_last() =~= es);
        assert(ks2.drop_last() =~= ks.update(i, l));
        assert(es2.last() == m);
        assert(ks2.last() == r);
        let ks1 = ks.update(i, l);
        if ks.len() == 1 {
            assert(join(es, ks1) == flat(ks1[0]));
            assert(join(es, ks) == flat(ks[0]));
        } else {
            let a = join(es.drop_last(), ks.drop_last());
            assert(ks1.drop_last() =~= ks.drop_last());
            assert(join(es, ks1) == a + seq![es.last()] + flat(l));
            assert(join(es, ks) == a + seq![es.last()] + flat(ks[i]));
            assert(a + seq![es.last()] + flat(l) + seq![m] + flat(r) =~= a + seq![es.last()] + (flat(
                l,
            ) + seq![m] + flat(r)));
        }
    } else {
        assert(ks.drop_last()[i] == ks[i]);
        lemma_join_split(es.drop_last(), ks.drop_last(), i, l, m, r);
        assert(es2.drop_last() =~= es.drop_last().insert(i, m));
        assert(ks2.drop_last() =~= ks.drop_last().update(i, l).insert(i + 1, r));
        assert(es2.last() == es.last());
        assert(ks2.last() == ks.last());
    }
}

/// The contents of an internal node are those left of entry `c`, that
/// entry, and those right of it.
pub proof fn lemma_join_cut<K, I>(es: Seq<(K, I)>, ks: Seq<Subtree<K, I>>, c: int)
    requires
        ks.len() == es.len() + 1,
        0 <= c < es.len(),
    ensures
        join(es, ks) == join(es.take(c), ks.take(c + 1)) + seq![es[c]] + join(
            es.skip(c + 1),
            ks.skip(c + 1),
        ),
    decreases ks.len(),
{
    let a = join(es.drop_last(), ks.drop_last());
    let f = flat(ks.last());
    let left = join(es.take(c), ks.take(c + 1));
    let right = join(es.skip(c + 1), ks.skip(c + 1));
    assert(join(es, ks) == a + seq![es.last()] + f);
    if c == es.len() - 1 {
        assert(es.take(c) =~= es.drop_last());
        assert(ks.take(c + 1) =~= ks.drop_last());
        assert(ks.skip(c + 1).len() == 1);
        assert(ks.skip(c + 1)[0] == ks.last());
        assert(right == flat(ks.skip(c + 1)[0]));
    } else {
        lemma_join_cut(es.drop_last(), ks.drop_last(), c);
        assert(es.drop_last().take(c) =~= es.take(c));
        assert(ks.drop_last().take(c + 1) =~= ks.take(c + 1));
        assert(es.drop_last().skip(c + 1) =~= es.skip(c + 1).drop_last());
        assert(ks.drop_last().skip(c + 1) =~= ks.skip(c + 1).drop_last());
        assert(es.skip(c + 1).last() == es.last());
        assert(ks.skip(c + 1).last() == ks.last());
        let r1 = join(es.skip(c + 1).drop_last(), ks.skip(c + 1).drop_last());
        assert(right == r1 + seq![es.last()] + f);
        assert(a == left + seq![es[c]] + r1);
        assert(left + seq![es[c]] + r1 + seq![es.last()] + f =~= left + seq![es[c]] + (r1
            + seq![es.last()] + f));
    }
}

/// Replacing one subtree of a row changes the row's node count by the
/// difference of the two.
pub proof fn lemma_count_update<K, I>(ks: Seq<Subtree<K, I>>, j: int, k2: Subtree<K, I>)
    requires
        0 <= j < ks.len(),
    ensures
        count(ks.update(j, k2)) + size(ks[j]) == count(ks) + size(k2),
    decreases ks.len(),
{
    let ks2 = ks.update(j, k2);
    if j == ks.len() - 1 {
        assert(ks2.drop_last() =~= ks.drop_last());
    } else {
        lemma_count_update(ks.drop_last(), j, k2);
        assert(ks2.drop_last() =~= ks.drop_last().update(j, k2));
    }
}

/// Inserting a subtree into a row adds its nodes to the row's count.
pub proof fn lemma_count_insert<K, I>(ks: Seq<Subtree<K, I>>, i: int, r: Subtree<K, I>)
    requires
        0 <= i <= ks.len(),
    ensures
        count(ks.insert(i, r)) == count(ks) + size(r),
    decreases ks.len(),
{
    let ks2 = ks.insert(i, r);
    if i == ks.len() {
        assert(ks2.drop_last() =~= ks);
        assert(ks2.last() == r);
    } else {
        lemma_count_insert(ks.drop_last(), i, r);
        assert(ks2.drop_last() =~= ks.drop_last().insert(i, r));
        assert(ks2.last() == ks.last());
    }
}

/// The node count of a row is that of its first `c` subtrees plus that of
/// the rest.
pub proof fn lemma_count_cut<K, I>(ks: Seq<Subtree<K, I>>, c: int)
    requires
        0 <= c <= ks.len(),
    ensures
        count(ks) == count(ks.take(c)) + count(ks.skip(c)),
    decreases ks.len(),
{
    if c == ks.len() {
        assert(ks.take(c) =~= ks);
        assert(ks.skip(c).len() == 0);
    } else {
        lemma_count_cut(ks.drop_last(), c);
        assert(ks.drop_last().take(c) =~= ks.take(c));
        assert(ks.drop_last().skip(c) =~= ks.skip(c).drop_last());
        assert(ks.skip(c).last() == ks.last());
    }
}

/// A row counts at least the nodes of any one of its subtrees.
pub proof fn lemma_count_covers<K, I>(ks: Seq<Subtree<K, I>>, j: int)
    requires
        0 <= j < ks.len(),
    ensures
        size(ks[j]) <= count(ks),
    decreases ks.len(),
{
    if j < ks.len() - 1 {
        lemma_count_covers(ks.drop_last(), j);
    }
}

/// Below a node that is not the root there are at least as many entries as
/// nodes and levels together: every such node holds an entry of its own.
pub proof fn lemma_row_weight<K, I>(es: Seq<(K, I)>, ks: Seq<Subtree<K, I>>, h: nat)
    requires
        ks.len() == es.len() + 1,
        forall|j: int| #![trigger ks[j]] 0 <= j < ks.len() ==> well_shaped(ks[j], h, false),
    ensures
        join(es, ks).len() >= es.len() + count(ks) + h,
    decreases h, ks.len(),
{
    if ks.len() == 1 {
        lemma_weight(ks[0], h);
        assert(ks.drop_last().len() == 0);
        assert(count(ks) == count(ks.drop_last()) + size(ks.last()));
        assert(join(es, ks) == flat(ks[0]));
    } else {
        assert forall|j: int| #![trigger ks.drop_last()[j]] 0 <= j < ks.drop_last().len() implies well_shaped(
            ks.drop_last()[j], h, false) by {
            assert(ks.drop_last()[j] == ks[j]);
        }
        lemma_row_weight(es.drop_last(), ks.drop_last(), h);
        assert(ks.last() == ks[ks.len() - 1]);
        lemma_weight(ks.last(), h);
        assert(join(es, ks) == join(es.drop_last(), ks.drop_last()) + seq![es.last()] + flat(
            ks.last(),
        ));
    }
}

/// A subtree that is not the root holds at least as many entries as it has
/// nodes and levels together.
pub proof fn lemma_weight<K, I>(t: Subtree<K, I>, h: nat)
    requires
        well_shaped(t, h, false),
    ensures
        flat(t).len() >= size(t) + h,
    decreases h, 0nat,
{
    if h == 0 {
        assert(t.kids.len() == 0);
        assert(flat(t) == t.entries);
        assert(count(t.kids) == 0);
    } else {
        lemma_row_weight(t.entries, t.kids, (h - 1) as nat);
    }
}

/// A well-shaped tree of height `h` has at most one node or level more than
/// it has entries.
pub proof fn lemma_root_weight<K, I>(t: Subtree<K, I>, h: nat)
    requires
        well_shaped(t, h, true),
    ensures
        size(t) + h <= flat(t).len() + 1,
{
    if h == 0 {
        assert(t.kids.len() == 0);
        assert(count(t.kids) == 0);
    } else {
        lemma_row_weight(t.entries, t.kids, (h - 1) as nat);
    }
}

/// Where a search may stop: if the keys of the first `i` entries of a node
/// are below `key`, the key of entry `i`, if there is one, is above it, and
/// child `i`, if there is one, holds no key equal to `key`, then the
/// subtree holds none.
pub proof fn lemma_absent<K: PartialOrd, I>(
    t: Subtree<K, I>,
    lo: Option<K>,
    hi: Option<K>,
    h: nat,
    root: bool,
    key: K,
    i: int,
)
    requires
        total_order::<K>(),
        well_shaped(t, h, root),
        ordered(t, lo, hi),
        0 <= i <= t.entries.len(),
        forall|j: int| 0 <= j < i ==> key_lt(#[trigger] t.entries[j].0, key),
        i < t.entries.len() ==> key_lt(key, t.entries[i].0),
        t.kids.len() > 0 ==> forall|p: int|
            0 <= p < flat(t.kids[i]).len() ==> !key_eq(key, #[trigger] flat(t.kids[i])[p].0),
    ensures
        forall|p: int| 0 <= p < flat(t).len() ==> !key_eq(key, #[trigger] flat(t)[p].0),
{
    let es = t.entries;
    assert forall|p: int| 0 <= p < flat(t).len() implies !key_eq(key, #[trigger] flat(t)[p].0) by {
        let x = flat(t)[p];
        assert(flat(t).contains(x));
        lemma_join_contains(es, t.kids, x);
        lemma_order_facts(key, x.0);
        if es.contains(x) {
            let j = choose|j: int| 0 <= j < es.len() && es[j] == x;
            if j < i {
                assert(key_lt(es[j].0, key));
                lemma_order_facts(es[j].0, key);
            } else {
                lemma_order_facts(key, es[i].0);
                if j > i {
                    assert(key_le(es[i].0, es[j].0));
                }
                if key_eq(key, x.0) {
                    lemma_le_trans(es[i].0, x.0, key);
                }
            }
        } else {
            let j = choose|j: int| 0 <= j < t.kids.len() && #[trigger] flat(t.kids[j]).contains(x);
            let kid = t.kids[j];
            let q = choose|q: int| 0 <= q < flat(kid).len() && flat(kid)[q] == x;
            assert(ordered(kid, lower(es, lo, j), upper(es, hi, j)));
            lemma_flat_ascending(kid, lower(es, lo, j), upper(es, hi, j), (h - 1) as nat, false);
            assert(within(flat(kid)[q].0, lower(es, lo, j), upper(es, hi, j)));
            if j < i {
                assert(key_lt(es[j].0, key));
                lemma_order_facts(es[j].0, key);
                if key_eq(key, x.0) {
                    lemma_le_trans(key, x.0, es[j].0);
                }
            } else if j > i {
                lemma_order_facts(key, es[i].0);
                if j - 1 > i {
                    assert(key_le(es[i].0, es[j - 1].0));
                    lemma_le_trans(es[i].0, es[j - 1].0, x.0);
                }
                if key_eq(key, x.0) {
                    lemma_le_trans(es[i].0, x.0, key);
                }
            }
        }
    }
}

/// The two halves of a full node and its median entry between them hold
/// what the node held, in the same order.
pub proof fn lemma_halves_flat<K, I>(y: Subtree<K, I>, z: int)
    requires
        y.entries.len() == MAX_KEYS,
        row_ok(y.entries, y.kids),
    ensures
        flat(y) == flat(left_half(y)) + seq![y.entries[MIN_KEYS as int]] + flat(right_half(y, z)),
{
    let l = left_half(y);
    let r = right_half(y, z);
    assert(flat(l) == join(l.entries, l.kids));
    assert(flat(r) == join(r.entries, r.kids));
    if y.kids.len() == 0 {
        assert(y.entries =~= l.entries + seq![y.entries[MIN_KEYS as int]] + r.entries);
    } else {
        lemma_join_cut(y.entries, y.kids, MIN_KEYS as int);
    }
}

/// Splitting a child leaves the contents of the node as they were.
pub proof fn lemma_split_flat<K, I>(t: Subtree<K, I>, i: int, z: int)
    requires
        t.kids.len() == t.entries.len() + 1,
        0 <= i < t.kids.len(),
        t.kids[i].entries.len() == MAX_KEYS,
        row_ok(t.kids[i].entries, t.kids[i].kids),
    ensures
        flat(split_at(t, i, z)) == flat(t),
{
    let y = t.kids[i];
    lemma_halves_flat(y, z);
    lemma_join_split(
        t.entries,
        t.kids,
        i,
        left_half(y),
        y.entries[MIN_KEYS as int],
        right_half(y, z),
    );
}

/// Splitting a child keeps the shape of a B-tree, and gives an internal
/// node its first entry if it had none.
pub proof fn lemma_split_shape<K, I>(t: Subtree<K, I>, i: int, z: int, h: nat, root: bool)
    requires
        h > 0,
        t.kids.len() == t.entries.len() + 1,
        t.entries.len() < MAX_KEYS,
        !root ==> t.entries.len() >= MIN_KEYS,
        forall|j: int|
            #![trigger t.kids[j]]
            0 <= j < t.kids.len() ==> well_shaped(t.kids[j], (h - 1) as nat, false),
        0 <= i < t.kids.len(),
        t.kids[i].entries.len() == MAX_KEYS,
    ensures
        well_shaped(split_at(t, i, z), h, root),
{
    let y = t.kids[i];
    let t2 = split_at(t, i, z);
    assert(well_shaped(y, (h - 1) as nat, false));
    let l = left_half(y);
    let r = right_half(y, z);
    assert(well_shaped(l, (h - 1) as nat, false)) by {
        if h - 1 > 0 {
            assert forall|j: int| #![trigger l.kids[j]] 0 <= j < l.kids.len() implies well_shaped(
                l.kids[j],
                (h - 2) as nat,
                false,
            ) by {
                assert(l.kids[j] == y.kids[j]);
            }
        }
    }
    assert(well_shaped(r, (h - 1) as nat, false)) by {
        if h - 1 > 0 {
            assert forall|j: int| #![trigger r.kids[j]] 0 <= j < r.kids.len() implies well_shaped(
                r.kids[j],
                (h - 2) as nat,
                false,
            ) by {
                assert(r.kids[j] == y.kids[j + MIN_DEGREE]);
            }
        }
    }
    assert forall|j: int| #![trigger t2.kids[j]] 0 <= j < t2.kids.len() implies well_shaped(
        t2.kids[j],
        (h - 1) as nat,
        false,
    ) by {
        if j < i {
            assert(t2.kids[j] == t.kids[j]);
        } else if j == i {
            assert(t2.kids[j] == l);
        } else if j == i + 1 {
            assert(t2.kids[j] == r);
        } else {
            assert(t2.kids[j] == t.kids[j - 1]);
        }
    }
}

/// Splitting a child adds one node.
pub proof fn lemma_split_size<K, I>(t: Subtree<K, I>, i: int, z: int)
    requires
        0 <= i < t.kids.len(),
        t.kids[i].entries.len() == MAX_KEYS,
        row_ok(t.kids[i].entries, t.kids[i].kids),
    ensures
        size(split_at(t, i, z)) == size(t) + 1,
{
    let y = t.kids[i];
    let l = left_half(y);
    let r = right_half(y, z);
    if y.kids.len() == 0 {
        assert(count(l.kids) == 0);
        assert(count(r.kids) == 0);
        assert(count(y.kids) == 0);
    } else {
        lemma_count_cut(y.kids, MIN_DEGREE as int);
    }
    assert(size(l) + size(r) == size(y) + 1);
    lemma_count_update(t.kids, i, l);
    lemma_count_insert(t.kids.update(i, l), i + 1, r);
}

/// What a child owns, its parent owns.
pub proof fn lemma_owns_kid<K, I>(t: Subtree<K, I>, j: int, a: int)
    requires
        0 <= j < t.kids.len(),
        owns(t.kids[j], a),
    ensures
        owns(t, a),
{
}

/// What a node owns and is not is owned by one of its children.
pub proof fn lemma_owns_below<K, I>(t: Subtree<K, I>, a: int) -> (j: int)
    requires
        owns(t, a),
        a != t.id,
    ensures
        0 <= j < t.kids.len(),
        owns(t.kids[j], a),
{
    choose|j: int| #![trigger t.kids[j]] 0 <= j < t.kids.len() && owns(t.kids[j], a)
}

/// The halves of a full node own what the node owned and the new handle.
pub proof fn lemma_halves_own<K, I>(y: Subtree<K, I>, z: int, a: int)
    requires
        y.entries.len() == MAX_KEYS,
        row_ok(y.entries, y.kids),
    ensures
        owns(left_half(y), a) ==> owns(y, a),
        owns(right_half(y, z), a) ==> owns(y, a) || a == z,
        owns(y, a) ==> owns(left_half(y), a) || owns(right_half(y, z), a),
        owns(right_half(y, z), z),
{
    let l = left_half(y);
    let r = right_half(y, z);
    if owns(l, a) && a != l.id {
        let j = lemma_owns_below(l, a);
        assert(l.kids[j] == y.kids[j]);
        lemma_owns_kid(y, j, a);
    }
    if owns(r, a) && a != z {
        let j = lemma_owns_below(r, a);
        assert(r.kids[j] == y.kids[j + MIN_DEGREE]);
        lemma_owns_kid(y, j + MIN_DEGREE, a);
    }
    if owns(y, a) && a != y.id {
        let j = lemma_owns_below(y, a);
        if j < MIN_DEGREE {
            assert(l.kids[j] == y.kids[j]);
            lemma_owns_kid(l, j, a);
        } else {
            assert(r.kids[j - MIN_DEGREE] == y.kids[j]);
            lemma_owns_kid(r, j - MIN_DEGREE, a);
        }
    }
}

/// The halves of a full node with distinct handles have distinct handles
/// and share none, where the new handle was not in use.
pub proof fn lemma_halves_distinct<K, I>(y: Subtree<K, I>, z: int)
    requires
        y.entries.len() == MAX_KEYS,
        row_ok(y.entries, y.kids),
        distinct(y),
        !owns(y, z),
    ensures
        distinct(left_half(y)),
        distinct(right_half(y, z)),
        forall|a: int| !(owns(left_half(y), a) && owns(right_half(y, z), a)),
{
    let l = left_half(y);
    let r = right_half(y, z);
    assert forall|j: int| 0 <= j < l.kids.len() implies !#[trigger] owns(l.kids[j], l.id) by {
        assert(l.kids[j] == y.kids[j]);
    }
    assert forall|j: int, k: int, x: int| 0 <= j < k < l.kids.len() implies !(#[trigger] owns(
        l.kids[j],
        x,
    ) && #[trigger] owns(l.kids[k], x)) by {
        assert(l.kids[j] == y.kids[j]);
        assert(l.kids[k] == y.kids[k]);
    }
    assert forall|j: int| #![trigger l.kids[j]] 0 <= j < l.kids.len() implies distinct(
        l.kids[j],
    ) by {
        assert(l.kids[j] == y.kids[j]);
    }
    assert forall|j: int| 0 <= j < r.kids.len() implies !#[trigger] owns(r.kids[j], r.id) by {
        assert(r.kids[j] == y.kids[j + MIN_DEGREE]);
        if owns(r.kids[j], z) {
            lemma_owns_kid(y, j + MIN_DEGREE, z);
        }
    }
    assert forall|j: int, k: int, x: int| 0 <= j < k < r.kids.len() implies !(#[trigger] owns(
        r.kids[j],
        x,
    ) && #[trigger] owns(r.kids[k], x)) by {
        assert(r.kids[j] == y.kids[j + MIN_DEGREE]);
        assert(r.kids[k] == y.kids[k + MIN_DEGREE]);
    }
    assert forall|j: int| #![trigger r.kids[j]] 0 <= j < r.kids.len() implies distinct(
        r.kids[j],
    ) by {
        assert(r.kids[j] == y.kids[j + MIN_DEGREE]);
    }
    assert forall|a: int| !(owns(l, a) && owns(r, a)) by {
        if owns(l, a) && owns(r, a) {
            lemma_halves_own(y, z, a);
            assert(a != z);
            let k = lemma_owns_below(r, a);
            assert(r.kids[k] == y.kids[k + MIN_DEGREE]);
            if a == y.id {
                assert(!owns(y.kids[k + MIN_DEGREE], y.id));
            } else {
                let j = lemma_owns_below(l, a);
                assert(l.kids[j] == y.kids[j]);
                assert(!(owns(y.kids[j], a) && owns(y.kids[k + MIN_DEGREE], a)));
            }
        }
    }
}

/// Splitting a child keeps the handles distinct, where the new handle was
/// not in use, and adds that handle to those the node owns.
pub proof fn lemma_split_distinct<K, I>(t: Subtree<K, I>, i: int, z: int)
    requires
        0 <= i < t.kids.len(),
        t.kids[i].entries.len() == MAX_KEYS,
        row_ok(t.kids[i].entries, t.kids[i].kids),
        distinct(t),
        !owns(t, z),
    ensures
        distinct(split_at(t, i, z)),
        forall|a: int| owns(split_at(t, i, z), a) <==> owns(t, a) || a == z,
{
    let y = t.kids[i];
    let l = left_half(y);
    let r = right_half(y, z);
    let t2 = split_at(t, i, z);
    // which child of `t` a child of `t2` comes from
    let from = |j: int| if j <= i { j } else { j - 1 };
    if owns(y, z) {
        lemma_owns_kid(t, i, z);
    }
    lemma_halves_distinct(y, z);
    assert forall|j: int, a: int| 0 <= j < t2.kids.len() && owns(t2.kids[j], a) implies a == z
        || owns(t.kids[from(j)], a) by {
        lemma_halves_own(y, z, a);
        if j < i {
            assert(t2.kids[j] == t.kids[j]);
        } else if j == i {
            assert(t2.kids[j] == l);
        } else if j == i + 1 {
            assert(t2.kids[j] == r);
        } else {
            assert(t2.kids[j] == t.kids[j - 1]);
        }
    }
    assert forall|a: int| owns(t2, a) <==> owns(t, a) || a == z by {
        lemma_halves_own(y, z, a);
        if owns(t2, a) && a != t2.id {
            let j = lemma_owns_below(t2, a);
            if a != z {
                lemma_owns_kid(t, from(j), a);
            }
        }
        if a == z {
            assert(t2.kids[i + 1] == r);
            lemma_owns_kid(t2, i + 1, a);
        }
        if owns(t, a) && a != t.id {
            let j = lemma_owns_below(t, a);
            if j < i {
                assert(t2.kids[j] == t.kids[j]);
                lemma_owns_kid(t2, j, a);
            } else if j == i {
                assert(t2.kids[i] == l);
                assert(t2.kids[i + 1] == r);
                if owns(l, a) {
                    lemma_owns_kid(t2, i, a);
                } else {
                    lemma_owns_kid(t2, i + 1, a);
                }
            } else {
                assert(t2.kids[j + 1] == t.kids[j]);
                lemma_owns_kid(t2, j + 1, a);
            }
        }
    }
    assert forall|j: int| 0 <= j < t2.kids.len() implies !#[trigger] owns(t2.kids[j], t2.id) by {
        if owns(t2.kids[j], t2.id) {
            assert(owns(t.kids[from(j)], t.id));
        }
    }
    assert forall|j: int, k: int, x: int| 0 <= j < k < t2.kids.len() implies !(#[trigger] owns(
        t2.kids[j],
        x,
    ) && #[trigger] owns(t2.kids[k], x)) by {
        if owns(t2.kids[j], x) && owns(t2.kids[k], x) {
            if j == i && k == i + 1 {
                assert(t2.kids[j] == l);
                assert(t2.kids[k] == r);
            } else {
                assert(from(j) < from(k));
                if x == z {
                    if k == i + 1 {
                        assert(t2.kids[j] == t.kids[j]);
                        lemma_owns_kid(t, j, z);
                    } else if j == i + 1 {
                        assert(t2.kids[k] == t.kids[k - 1]);
                        lemma_owns_kid(t, k - 1, z);
                    } else {
                        assert(owns(t.kids[from(j)], x) || owns(t.kids[from(k)], x)) by {
                            lemma_halves_own(y, z, x);
                            if j < i {
                                assert(t2.kids[j] == t.kids[j]);
                            } else if j == i {
                                assert(t2.kids[j] == l);
                            } else {
                                assert(t2.kids[j] == t.kids[j - 1]);
                            }
                        }
                        if owns(t.kids[from(j)], x) {
                            lemma_owns_kid(t, from(j), z);
                        } else {
                            lemma_owns_kid(t, from(k), z);
                        }
                    }
                } else {
                    assert(owns(t.kids[from(j)], x) && owns(t.kids[from(k)], x));
                }
            }
        }
    }
    assert forall|j: int| #![trigger t2.kids[j]] 0 <= j < t2.kids.len() implies distinct(
        t2.kids[j],
    ) by {
        if j < i {
            assert(t2.kids[j] == t.kids[j]);
        } else if j == i {
            assert(t2.kids[j] == l);
        } else if j == i + 1 {
            assert(t2.kids[j] == r);
        } else {
            assert(t2.kids[j] == t.kids[j - 1]);
        }
    }
}

/// The halves of a full node in search-tree order are in search-tree
/// order, with the node's median key as the bound between them.
pub proof fn lemma_halves_ordered<K: PartialOrd, I>(
    y: Subtree<K, I>,
    z: int,
    lo: Option<K>,
    hi: Option<K>,
)
    requires
        total_order::<K>(),
        y.entries.len() == MAX_KEYS,
        row_ok(y.entries, y.kids),
        ordered(y, lo, hi),
    ensures
        ordered(left_half(y), lo, Some(y.entries[MIN_KEYS as int].0)),
        ordered(right_half(y, z), Some(y.entries[MIN_KEYS as int].0), hi),
        within(y.entries[MIN_KEYS as int].0, lo, hi),
{
    let ye = y.entries;
    let m = ye[MIN_KEYS as int];
    let mid = Some(m.0);
    let l = left_half(y);
    let r = right_half(y, z);
    assert(within(ye[MIN_KEYS as int].0, lo, hi));
    assert forall|j: int| 0 <= j < l.entries.len() implies within(
        #[trigger] l.entries[j].0,
        lo,
        mid,
    ) by {
        assert(l.entries[j] == ye[j]);
        assert(within(ye[j].0, lo, hi));
        assert(key_le(ye[j].0, ye[MIN_KEYS as int].0));
    }
    assert(ascending(l.entries)) by {
        assert forall|a: int, b: int| 0 <= a < b < l.entries.len() implies key_le(
            #[trigger] l.entries[a].0,
            #[trigger] l.entries[b].0,
        ) by {
            assert(key_le(ye[a].0, ye[b].0));
        }
    }
    assert forall|j: int| #![trigger l.kids[j]] 0 <= j < l.kids.len() implies ordered(
        l.kids[j],
        lower(l.entries, lo, j),
        upper(l.entries, mid, j),
    ) by {
        assert(l.kids[j] == y.kids[j]);
        assert(ordered(y.kids[j], lower(ye, lo, j), upper(ye, hi, j)));
        if j > 0 {
            assert(l.entries[j - 1] == ye[j - 1]);
        }
        if j < MIN_KEYS {
            assert(l.entries[j] == ye[j]);
        }
    }
    assert forall|j: int| 0 <= j < r.entries.len() implies within(
        #[trigger] r.entries[j].0,
        mid,
        hi,
    ) by {
        assert(r.entries[j] == ye[j + MIN_DEGREE]);
        assert(within(ye[j + MIN_DEGREE].0, lo, hi));
        assert(key_le(ye[MIN_KEYS as int].0, ye[j + MIN_DEGREE].0));
    }
    assert(ascending(r.entries)) by {
        assert forall|a: int, b: int| 0 <= a < b < r.entries.len() implies key_le(
            #[trigger] r.entries[a].0,
            #[trigger] r.entries[b].0,
        ) by {
            assert(key_le(ye[a + MIN_DEGREE].0, ye[b + MIN_DEGREE].0));
        }
    }
    assert forall|j: int| #![trigger r.kids[j]] 0 <= j < r.kids.len() implies ordered(
        r.kids[j],
        lower(r.entries, mid, j),
        upper(r.entries, hi, j),
    ) by {
        let j2 = j + MIN_DEGREE;
        assert(r.kids[j] == y.kids[j2]);
        assert(ordered(y.kids[j2], lower(ye, lo, j2), upper(ye, hi, j2)));
        if j > 0 {
            assert(r.entries[j - 1] == ye[j2 - 1]);
        }
        if j < MIN_KEYS {
            assert(r.entries[j] == ye[j2]);
        }
    }
}

/// Splitting a child keeps search-tree order.
pub proof fn lemma_split_ordered<K: PartialOrd, I>(
    t: Subtree<K, I>,
    i: int,
    z: int,
    lo: Option<K>,
    hi: Option<K>,
)
    requires
        total_order::<K>(),
        t.kids.len() == t.entries.len() + 1,
        0 <= i < t.kids.len(),
        t.kids[i].entries.len() == MAX_KEYS,
        row_ok(t.kids[i].entries, t.kids[i].kids),
        ordered(t, lo, hi),
    ensures
        ordered(split_at(t, i, z), lo, hi),
{
    let es = t.entries;
    let y = t.kids[i];
    let m = y.entries[MIN_KEYS as int];
    let t2 = split_at(t, i, z);
    let es2 = t2.entries;
    let li = lower(es, lo, i);
    let ui = upper(es, hi, i);
    assert(ordered(y, li, ui));
    lemma_halves_ordered(y, z, li, ui);
    assert(within(m.0, lo, hi)) by {
        if i > 0 {
            assert(within(es[i - 1].0, lo, hi));
            if let Some(b) = lo {
                lemma_le_trans(b, es[i - 1].0, m.0);
            }
        }
        if i < es.len() {
            assert(within(es[i].0, lo, hi));
            if let Some(b) = hi {
                lemma_le_trans(m.0, es[i].0, b);
            }
        }
    }
    assert forall|j: int| 0 <= j < es2.len() implies within(#[trigger] es2[j].0, lo, hi) by {
        if j < i {
            assert(es2[j] == es[j]);
            assert(within(es[j].0, lo, hi));
        } else if j > i {
            assert(es2[j] == es[j - 1]);
            assert(within(es[j - 1].0, lo, hi));
        }
    }
    assert(ascending(es2)) by {
        assert forall|a: int, b: int| 0 <= a < b < es2.len() implies key_le(
            #[trigger] es2[a].0,
            #[trigger] es2[b].0,
        ) by {
            if b < i {
                assert(key_le(es[a].0, es[b].0));
            } else if b == i {
                assert(es2[a] == es[a]);
                if a < i - 1 {
                    assert(key_le(es[a].0, es[i - 1].0));
                    lemma_le_trans(es[a].0, es[i - 1].0, m.0);
                }
            } else if a < i {
                assert(es2[a] == es[a]);
                assert(es2[b] == es[b - 1]);
                assert(key_le(es[a].0, es[b - 1].0));
            } else if a == i {
                assert(es2[b] == es[b - 1]);
                if b - 1 > i {
                    assert(key_le(es[i].0, es[b - 1].0));
                    lemma_le_trans(m.0, es[i].0, es[b - 1].0);
                }
            } else {
                assert(es2[a] == es[a - 1]);
                assert(es2[b] == es[b - 1]);
                assert(key_le(es[a - 1].0, es[b - 1].0));
            }
        }
    }
    assert forall|j: int| #![trigger t2.kids[j]] 0 <= j < t2.kids.len() implies ordered(
        t2.kids[j],
        lower(es2, lo, j),
        upper(es2, hi, j),
    ) by {
        if j < i {
            assert(t2.kids[j] == t.kids[j]);
            assert(ordered(t.kids[j], lower(es, lo, j), upper(es, hi, j)));
            if j > 0 {
                assert(es2[j - 1] == es[j - 1]);
            }
            assert(es2[j] == es[j]);
        } else if j == i {
            assert(t2.kids[j] == left_half(y));
            if j > 0 {
                assert(es2[j - 1] == es[j - 1]);
            }
            assert(es2[j] == m);
        } else if j == i + 1 {
            assert(t2.kids[j] == right_half(y, z));
            assert(es2[j - 1] == m);
            if j < es2.len() {
                assert(es2[j] == es[j - 1]);
            }
        } else {
            assert(t2.kids[j] == t.kids[j - 1]);
            assert(ordered(t.kids[j - 1], lower(es, lo, j - 1), upper(es, hi, j - 1)));
            assert(es2[j - 1] == es[j - 2]);
            if j < es2.len() {
                assert(es2[j] == es[j - 1]);
            }
        }
    }
}

/// Replacing a child by a subtree that is in search-tree order between the
/// child's bounds keeps search-tree order.
pub proof fn lemma_with_kid_ordered<K: PartialOrd, I>(
    t: Subtree<K, I>,
    i: int,
    k: Subtree<K, I>,
    lo: Option<K>,
    hi: Option<K>,
)
    requires
        0 <= i < t.kids.len(),
        ordered(t, lo, hi),
        ordered(k, lower(t.entries, lo, i), upper(t.entries, hi, i)),
    ensures
        ordered(with_kid(t, i, k), lo, hi),
{
    let t2 = with_kid(t, i, k);
    assert forall|j: int| #![trigger t2.kids[j]] 0 <= j < t2.kids.len() implies ordered(
        t2.kids[j],
        lower(t2.entries, lo, j),
        upper(t2.entries, hi, j),
    ) by {
        if j != i {
            assert(t2.kids[j] == t.kids[j]);
        }
    }
}

/// Replacing a child by a subtree of the same height keeps the shape.
pub proof fn lemma_with_kid_shape<K, I>(t: Subtree<K, I>, i: int, k: Subtree<K, I>, h: nat, root: bool)
    requires
        h > 0,
        0 <= i < t.kids.len(),
        well_shaped(t, h, root),
        well_shaped(k, (h - 1) as nat, false),
    ensures
        well_shaped(with_kid(t, i, k), h, root),
{
    let t2 = with_kid(t, i, k);
    assert forall|j: int| #![trigger t2.kids[j]] 0 <= j < t2.kids.len() implies well_shaped(
        t2.kids[j],
        (h - 1) as nat,
        false,
    ) by {
        if j != i {
            assert(t2.kids[j] == t.kids[j]);
        }
    }
}

/// Replacing a child by a subtree that owns, besides handles of the child,
/// only handles from `fresh` on keeps the handles distinct, where all
/// handles so far were below `fresh`.
pub proof fn lemma_with_kid_distinct<K, I>(t: Subtree<K, I>, i: int, k: Subtree<K, I>, fresh: int)
    requires
        0 <= i < t.kids.len(),
        distinct(t),
        distinct(k),
        forall|a: int| owns(t, a) ==> a < fresh,
        forall|a: int| owns(k, a) ==> owns(t.kids[i], a) || a >= fresh,
    ensures
        distinct(with_kid(t, i, k)),
        forall|a: int| owns(with_kid(t, i, k), a) ==> owns(t, a) || (a >= fresh && owns(k, a)),
{
    let t2 = with_kid(t, i, k);
    assert forall|j: int, a: int| 0 <= j < t.kids.len() && j != i && owns(t.kids[j], a) implies a
        < fresh by {
        lemma_owns_kid(t, j, a);
    }
    assert forall|a: int| owns(t2, a) implies owns(t, a) || (a >= fresh && owns(k, a)) by {
        if a != t2.id {
            let j = lemma_owns_below(t2, a);
            if j != i {
                assert(t2.kids[j] == t.kids[j]);
                lemma_owns_kid(t, j, a);
            } else if owns(t.kids[i], a) {
                lemma_owns_kid(t, i, a);
            }
        }
    }
    assert forall|j: int| 0 <= j < t2.kids.len() implies !#[trigger] owns(t2.kids[j], t2.id) by {
        if j != i {
            assert(t2.kids[j] == t.kids[j]);
        } else {
            assert(t2.kids[j] == k);
            assert(owns(t, t.id));
            assert(!owns(t.kids[i], t.id));
        }
    }
    assert forall|j: int, l: int, x: int| 0 <= j < l < t2.kids.len() implies !(#[trigger] owns(
        t2.kids[j],
        x,
    ) && #[trigger] owns(t2.kids[l], x)) by {
        if owns(t2.kids[j], x) && owns(t2.kids[l], x) {
            if j != i && l != i {
                assert(t2.kids[j] == t.kids[j] && t2.kids[l] == t.kids[l]);
            } else if j == i {
                assert(t2.kids[l] == t.kids[l]);
                assert(owns(t.kids[i], x));
            } else {
                assert(t2.kids[j] == t.kids[j]);
                assert(owns(t.kids[i], x));
            }
        }
    }
    assert forall|j: int| #![trigger t2.kids[j]] 0 <= j < t2.kids.len() implies distinct(
        t2.kids[j],
    ) by {
        if j != i {
            assert(t2.kids[j] == t.kids[j]);
        }
    }
}

/// Putting an entry into a leaf between a key that is not above its key
/// and one that is not below keeps search-tree order.
pub proof fn lemma_leaf_insert_ordered<K: PartialOrd, I>(
    es: Seq<(K, I)>,
    pos: int,
    x: (K, I),
    lo: Option<K>,
    hi: Option<K>,
)
    requires
        total_order::<K>(),
        ordered_row(es, Seq::<Subtree<K, I>>::empty(), lo, hi),
        within(x.0, lo, hi),
        0 <= pos <= es.len(),
        pos > 0 ==> key_le(es[pos - 1].0, x.0),
        pos < es.len() ==> key_le(x.0, es[pos].0),
    ensures
        ordered_row(es.insert(pos, x), Seq::<Subtree<K, I>>::empty(), lo, hi),
{
    let es2 = es.insert(pos, x);
    assert forall|j: int| 0 <= j < es2.len() implies within(#[trigger] es2[j].0, lo, hi) by {
        if j < pos {
            assert(es2[j] == es[j]);
            assert(within(es[j].0, lo, hi));
        } else if j > pos {
            assert(es2[j] == es[j - 1]);
            assert(within(es[j - 1].0, lo, hi));
        }
    }
    assert forall|a: int, b: int| 0 <= a < b < es2.len() implies key_le(
        #[trigger] es2[a].0,
        #[trigger] es2[b].0,
    ) by {
        if b < pos {
            assert(key_le(es[a].0, es[b].0));
        } else if b == pos {
            assert(es2[a] == es[a]);
            if a < pos - 1 {
                assert(key_le(es[a].0, es[pos - 1].0));
                lemma_le_trans(es[a].0, es[pos - 1].0, x.0);
            }
        } else if a < pos {
            assert(es2[a] == es[a]);
            assert(es2[b] == es[b - 1]);
            assert(key_le(es[a].0, es[b - 1].0));
        } else if a == pos {
            assert(es2[b] == es[b - 1]);
            if b - 1 > pos {
                assert(key_le(es[pos].0, es[b - 1].0));
                lemma_le_trans(x.0, es[pos].0, es[b - 1].0);
            }
        } else {
            assert(es2[a] == es[a - 1]);
            assert(es2[b] == es[b - 1]);
            assert(key_le(es[a - 1].0, es[b - 1].0));
        }
    }
}

/// Reading a node from the left: the contents up to child `j + 1` are
/// those up to child `j`, then entry `j`, then the contents of child
/// `j + 1`.
pub proof fn lemma_join_grows<K, I>(es: Seq<(K, I)>, ks: Seq<Subtree<K, I>>, j: int)
    requires
        ks.len() == es.len() + 1,
        0 <= j < es.len(),
    ensures
        join(es.take(j + 1), ks.take(j + 2)) == join(es.take(j), ks.take(j + 1)) + seq![es[j]]
            + flat(ks[j + 1]),
        join(es.take(0), ks.take(1)) == flat(ks[0]),
        es.take(es.len() as int) == es,
        ks.take(ks.len() as int) == ks,
{
    let es1 = es.take(j + 1);
    let ks1 = ks.take(j + 2);
    assert(es1.drop_last() =~= es.take(j));
    assert(ks1.drop_last() =~= ks.take(j + 1));
    assert(es1.last() == es[j]);
    assert(ks1.last() == ks[j + 1]);
    assert(ks.take(1)[0] == ks[0]);
    assert(es.take(es.len() as int) =~= es);
    assert(ks.take(ks.len() as int) =~= ks);
}

/// A tree has more nodes than levels below its root.
pub proof fn lemma_height_below_size<K, I>(t: Subtree<K, I>, h: nat, root: bool)
    requires
        well_shaped(t, h, root),
    ensures
        h < size(t),
    decreases h,
{
    if h > 0 {
        lemma_height_below_size(t.kids[0], (h - 1) as nat, false);
        lemma_count_covers(t.kids, 0);
    }
}

} // verus!
