//! A model made of a router and several B-trees, the buckets, of which the
//! router picks one for each key. The router's arithmetic is not done
//! here: its output reaches this module as a number already scaled to the
//! count of buckets, is clamped to a bucket, and the key is looked up
//! there.

use crate::btree::{answers, BTree, MAX_ENTRIES};
use crate::config::{
    content, entry, entry_of, is_position_rows, parsed, position_rows, read_toml, rows_of,
    value_array_arrays, ConfigError, Content,
};
use crate::model::Model;
use crate::neural::{network_accepted, network_refused, Network};
use crate::laws::{grown_from, lemma_grown_holds_log, lemma_grown_step};
use crate::order::{key_eq, total_order};
use vstd::prelude::*;

verus! {

/// Why a model could not be built.
#[derive(Clone, Copy, Debug, PartialEq, Eq)]
pub enum BuildError {
    /// Entry `slot` of bucket `bucket` names a position that the dataset
    /// does not have.
    PositionOutOfRange { bucket: usize, slot: usize },
}

/// What applies a network to keys. Nothing is promised of the numbers that
/// come out: the model clamps whatever it is given.
pub trait Router<K>: Sized where K: Copy {
    /// Buffers that one evaluation after the other may write to.
    type Scratch;

    /// Make ready to apply `net`.
    fn prepare(net: &Network) -> (r: Self)
        requires
            net.wf(),
    ;

    /// Buffers large enough for any layer's output.
    fn scratch(&self) -> (r: Self::Scratch);

    /// Apply the network to `key` and scale what comes out, as a fraction
    /// of `largest`, to `count` buckets.
    fn route(&self, key: K, largest: u32, count: usize, scratch: &mut Self::Scratch) -> (r: usize);
}

/// A network, the router that applies it, the B-trees it chooses among, and
/// the largest position that any of them holds.
pub struct ForwardingModel<K, R> {
    net: Network,
    router: R,
    btrees: Vec<BTree<K, u32>>,
    max_prediction: u32,
}

/// The in-order contents of each of `trees`.
pub open spec fn contents_of<K>(trees: Seq<BTree<K, u32>>) -> Seq<Seq<(K, u32)>> {
    Seq::new(trees.len(), |b: int| trees[b]@)
}

/// `trees` are the buckets that `rows` describe for `data`, and `largest`
/// is the largest position in `rows`: there is one tree for each row,
/// filled with the row's positions in order, each under the key that `data`
/// has there.
pub open spec fn grown_buckets<K>(
    data: Seq<K>,
    rows: Seq<Seq<u32>>,
    trees: Seq<Seq<(K, u32)>>,
    largest: u32,
) -> bool {
    &&& trees.len() == rows.len()
    &&& forall|b: int|
        0 <= b < rows.len() ==> grown_from(entries_of(data, #[trigger] rows[b]), trees[b])
    &&& in_range_before(data.len(), rows, rows.len() as int, 0)
    &&& max_before(rows, rows.len() as int, 0, largest)
}

/// The entries that a bucket with these positions holds: each position
/// with the key that the dataset has there.
pub open spec fn entries_of<K>(data: Seq<K>, positions: Seq<u32>) -> Seq<(K, u32)> {
    Seq::new(positions.len(), |s: int| (data[positions[s] as int], positions[s]))
}

/// Every position before entry `slot` of bucket `bucket`, reading the
/// buckets in order, is one of a dataset of `len` keys.
pub open spec fn in_range_before(len: nat, rows: Seq<Seq<u32>>, bucket: int, slot: int) -> bool {
    forall|b: int, s: int|
        0 <= b < rows.len() && 0 <= s < rows[b].len() && (b < bucket || (b == bucket && s < slot))
            ==> (#[trigger] rows[b][s]) < len
}

/// `m` is the largest of the positions before entry `slot` of bucket
/// `bucket`, reading the buckets in order, or 0 if there is none.
pub open spec fn max_before(rows: Seq<Seq<u32>>, bucket: int, slot: int, m: u32) -> bool {
    &&& forall|b: int, s: int|
        0 <= b < rows.len() && 0 <= s < rows[b].len() && (b < bucket || (b == bucket && s < slot))
            ==> (#[trigger] rows[b][s]) <= m
    &&& m == 0 || exists|b: int, s: int|
        0 <= b < rows.len() && 0 <= s < rows[b].len() && (b < bucket || (b == bucket && s < slot))
            && (#[trigger] rows[b][s]) == m
}

/// The buckets `rows` do not fit a dataset of `len` keys, for the reason
/// `e`: it names the first position, reading the buckets in order, that
/// the dataset does not have.
pub open spec fn build_refused(len: nat, rows: Seq<Seq<u32>>, e: BuildError) -> bool {
    match e {
        BuildError::PositionOutOfRange { bucket, slot } => {
            &&& bucket < rows.len()
            &&& slot < rows[bucket as int].len()
            &&& rows[bucket as int][slot as int] >= len
            &&& in_range_before(len, rows, bucket as int, slot as int)
        },
    }
}

/// The key under which the buckets stand in a model's description.
pub open spec fn indices_key() -> Seq<char> {
    "btree_indices"@
}

/// The table `c` describes buckets that fit a dataset of `len` keys.
pub open spec fn model_admitted(c: Content, len: nat) -> bool {
    &&& entry(c, indices_key()) matches Some(x)
    &&& is_position_rows(x)
    &&& forall|b: int|
        0 <= b < position_rows(x).len() ==> (#[trigger] position_rows(x)[b]).len() <= MAX_ENTRIES
    &&& in_range_before(len, position_rows(x), position_rows(x).len() as int, 0)
}

/// The table `c` describes no model for a dataset of `len` keys, for the
/// reason `e`: the first of these that applies. There is no entry
/// `btree_indices`; the entry is no array of arrays of positions; `e`
/// names the first bucket that is too large; `e` says why the buckets do
/// not fit the dataset.
pub open spec fn model_refused(c: Content, len: nat, e: ConfigError) -> bool {
    match e {
        ConfigError::MissingIndices => entry(c, indices_key()) is None,
        ConfigError::BadIndices => entry(c, indices_key()) matches Some(x) && !is_position_rows(x),
        ConfigError::BucketTooLarge { bucket } => {
            &&& entry(c, indices_key()) matches Some(x)
            &&& is_position_rows(x)
            &&& bucket < position_rows(x).len()
            &&& position_rows(x)[bucket as int].len() > MAX_ENTRIES
            &&& forall|b: int|
                0 <= b < bucket ==> (#[trigger] position_rows(x)[b]).len() <= MAX_ENTRIES
        },
        ConfigError::Build(why) => {
            &&& entry(c, indices_key()) matches Some(x)
            &&& is_position_rows(x)
            &&& forall|b: int|
                0 <= b < position_rows(x).len() ==> (#[trigger] position_rows(x)[b]).len()
                    <= MAX_ENTRIES
            &&& build_refused(len, position_rows(x), why)
        },
        _ => false,
    }
}

/// `m` is the model that the table `c` describes for the dataset `data`.
pub open spec fn model_accepted<K: PartialOrd, R>(
    c: Content,
    data: Seq<K>,
    m: ForwardingModel<K, R>,
) -> bool {
    &&& model_admitted(c, data.len())
    &&& network_accepted(c, m.network())
    &&& m.wf()
    &&& m.built_from(data, position_rows(entry(c, indices_key()).unwrap()))
}

/// The table `c` describes no model for a dataset of `len` keys, for the
/// reason `e`: the buckets are at fault, or these are in order and the
/// layers are at fault.
pub open spec fn description_refused(c: Content, len: nat, e: ConfigError) -> bool {
    model_refused(c, len, e) || (model_admitted(c, len) && network_refused(c, e))
}

/// The bucket that a scaled prediction selects among `count` buckets: the
/// prediction itself, or the last bucket if it points behind.
pub open spec fn clamped(scaled: usize, count: nat) -> int {
    if scaled < count {
        scaled as int
    } else {
        count - 1
    }
}

impl<K, R> ForwardingModel<K, R> {
    /// The network that the router applies.
    pub closed spec fn network(&self) -> Network {
        self.net
    }

    /// The router that the model holds and routes every key with: what
    /// [`Router::prepare`] made of the network when the model was built.
    pub closed spec fn prepared(&self) -> R {
        self.router
    }

    /// The in-order contents of the buckets.
    pub closed spec fn buckets(&self) -> Seq<Seq<(K, u32)>> {
        contents_of(self.btrees@)
    }

    /// The largest position held, 0 if none is.
    pub closed spec fn largest(&self) -> u32 {
        self.max_prediction
    }
}

impl<K: PartialOrd, R> ForwardingModel<K, R> {
    /// The router is a well-formed network and every bucket a well-formed
    /// tree.
    pub closed spec fn wf(&self) -> bool {
        &&& self.net.wf()
        &&& forall|b: int| 0 <= b < self.btrees@.len() ==> (#[trigger] self.btrees@[b]).wf()
    }

    /// The buckets are what [`build`](Self::build) makes of `data` and
    /// `rows`: one bucket for each row, filled with the row's positions in
    /// order, each under the key that `data` has there; and the largest
    /// position is kept.
    pub open spec fn built_from(&self, data: Seq<K>, rows: Seq<Seq<u32>>) -> bool {
        grown_buckets(data, rows, self.buckets(), self.largest())
    }

    /// What a lookup of `key` under the scaled prediction `scaled` may
    /// return: nothing if there is no bucket, else an answer of the bucket
    /// that `scaled` selects.
    pub open spec fn may_answer_in(&self, key: K, scaled: usize, r: Option<u32>) -> bool {
        if self.buckets().len() == 0 {
            r is None
        } else {
            answers(self.buckets()[clamped(scaled, self.buckets().len())], key, r)
        }
    }
}

impl<K, R> ForwardingModel<K, R> where K: Copy + Default + PartialEq + PartialOrd, R: Router<K> {
    /// Make a model of a router and of one B-tree for each bucket, built by
    /// inserting `(data[position], position)` for every position of the
    /// bucket, in the order given. Fails at the first position that `data`
    /// does not have.
    pub fn build(net: Network, data: &[K], buckets: &Vec<Vec<u32>>) -> (r: Result<Self, BuildError>)
        requires
            net.wf(),
            forall|b: int| 0 <= b < buckets@.len() ==> (#[trigger] buckets@[b])@.len() <= MAX_ENTRIES,
        ensures
            match r {
                Ok(m) => m.wf() && m.network() == net && m.built_from(data@, rows_of(buckets@)),
                Err(e) => build_refused(data@.len(), rows_of(buckets@), e),
            },
    {
        match Self::grow(data, buckets) {
            Ok((btrees, max_prediction)) => {
                let router = R::prepare(&net);
                Ok(ForwardingModel { net, router, btrees, max_prediction })
            },
            Err(e) => Err(e),
        }
    }

    fn grow(data: &[K], buckets: &Vec<Vec<u32>>) -> (r: Result<(Vec<BTree<K, u32>>, u32), BuildError>)
        requires
            forall|b: int| 0 <= b < buckets@.len() ==> (#[trigger] buckets@[b])@.len() <= MAX_ENTRIES,
        ensures
            match r {
                Ok((trees, largest)) => {
                    &&& forall|b: int| 0 <= b < trees@.len() ==> (#[trigger] trees@[b]).wf()
                    &&& grown_buckets(data@, rows_of(buckets@), contents_of(trees@), largest)
                },
                Err(e) => build_refused(data@.len(), rows_of(buckets@), e),
            },
    {
        let ghost rows = rows_of(buckets@);
        let mut max_prediction: u32 = 0;
        let mut btrees: Vec<BTree<K, u32>> = Vec::new();
        let mut b: usize = 0;
        while b < buckets.len()
            invariant
                b <= buckets@.len(),
                btrees@.len() == b,
                forall|c: int| 0 <= c < buckets@.len() ==> (#[trigger] buckets@[c])@.len() <= MAX_ENTRIES,
                forall|c: int| 0 <= c < b ==> (#[trigger] btrees@[c]).wf(),
                rows == rows_of(buckets@),
                forall|c: int|
                    0 <= c < b ==> grown_from(
                        entries_of(data@, (#[trigger] buckets@[c])@),
                        btrees@[c]@,
                    ),
                in_range_before(data@.len(), rows, b as int, 0),
                max_before(rows, b as int, 0, max_prediction),
            decreases buckets@.len() - b,
        {
            let array = &buckets[b];
            let mut btree: BTree<K, u32> = BTree::new();
            let mut s: usize = 0;
            proof {
                assert(entries_of(data@, array@.take(0)) =~= Seq::<(K, u32)>::empty());
            }
            while s < array.len()
                invariant
                    b < buckets@.len(),
                    *array == buckets@[b as int],
                    array@.len() <= MAX_ENTRIES,
                    s <= array@.len(),
                    btree.wf(),
                    rows == rows_of(buckets@),
                    grown_from(entries_of(data@, array@.take(s as int)), btree@),
                    in_range_before(data@.len(), rows, b as int, s as int),
                    max_before(rows, b as int, s as int, max_prediction),
                decreases array@.len() - s,
            {
                let index = array[s];
                proof {
                    assert(rows[b as int][s as int] == index);
                }
                if index as usize >= data.len() {
                    return Err(BuildError::PositionOutOfRange { bucket: b, slot: s });
                }
                let ghost seen = max_prediction;
                if index > max_prediction {
                    max_prediction = index;
                }
                proof {
                    if max_prediction != 0 && max_prediction == seen {
                        let (b0, s0) = choose|b0: int, s0: int|
                            0 <= b0 < rows.len() && 0 <= s0 < rows[b0].len() && (b0 < b || (b0 == b
                                && s0 < s)) && (#[trigger] rows[b0][s0]) == seen;
                        assert(rows[b0][s0] == max_prediction);
                    }
                    assert(max_before(rows, b as int, s + 1, max_prediction));
                }
                proof {
                    lemma_grown_holds_log(entries_of(data@, array@.take(s as int)), btree@);
                }
                let ghost before = btree@;
                btree.insert(data[index as usize], index);
                proof {
                    let e = (data@[index as int], index);
                    let p = choose|p: int|
                        0 <= p <= before.len() && btree@ == #[trigger] before.insert(p, e);
                    lemma_grown_step(entries_of(data@, array@.take(s as int)), before, p, e);
                    assert(entries_of(data@, array@.take(s as int)).push(e) =~= entries_of(
                        data@,
                        array@.take(s + 1),
                    ));
                }
                s += 1;
            }
            proof {
                assert(array@.take(s as int) =~= array@);
            }
            btrees.push(btree);
            b += 1;
        }
        proof {
            assert forall|c: int| 0 <= c < rows.len() implies grown_from(
                entries_of(data@, #[trigger] rows[c]),
                contents_of(btrees@)[c],
            ) by {
                assert(rows[c] == buckets@[c]@);
            }
        }
        Ok((btrees, max_prediction))
    }

    /// Build the model that a TOML table describes: the buckets from the
    /// entry `btree_indices`, an array with, for each bucket, the array of
    /// its positions, and the router from the layers. The buckets are judged
    /// first.
    pub fn from_toml(v: &toml::Value, data: &[K]) -> (r: Result<Self, ConfigError>)
        ensures
            match r {
                Ok(m) => model_accepted(content(*v), data@, m),
                Err(e) => description_refused(content(*v), data@.len(), e),
            },
    {
        let indices = match entry_of(v, "btree_indices") {
            Some(indices) => indices,
            None => {
                return Err(ConfigError::MissingIndices);
            },
        };
        let arrays = match value_array_arrays(indices) {
            Ok(arrays) => arrays,
            Err(e) => {
                return Err(e);
            },
        };
        let ghost rows = rows_of(arrays@);
        let ghost x = content(*indices);
        let mut b: usize = 0;
        while b < arrays.len()
            invariant
                b <= arrays@.len(),
                rows == rows_of(arrays@),
                entry(content(*v), indices_key()) == Some(x),
                is_position_rows(x),
                rows == position_rows(x),
                forall|c: int| 0 <= c < b ==> (#[trigger] rows[c]).len() <= MAX_ENTRIES,
            decreases arrays@.len() - b,
        {
            proof {
                assert(rows[b as int] == arrays@[b as int]@);
            }
            if arrays[b].len() > MAX_ENTRIES {
                return Err(ConfigError::BucketTooLarge { bucket: b });
            }
            b += 1;
        }
        proof {
            assert forall|c: int| 0 <= c < arrays@.len() implies (#[trigger] arrays@[c])@.len()
                <= MAX_ENTRIES by {
                assert(rows[c] == arrays@[c]@);
            }
        }
        let (btrees, max_prediction) = match Self::grow(data, &arrays) {
            Ok(grown) => grown,
            Err(e) => {
                return Err(ConfigError::Build(e));
            },
        };
        let net = match Network::from_toml(v) {
            Ok(net) => net,
            Err(e) => {
                return Err(e);
            },
        };
        let router = R::prepare(&net);
        Ok(ForwardingModel { net, router, btrees, max_prediction })
    }

    /// Read a model from the text of a TOML document.
    pub fn read_toml(text: &str, data: &[K]) -> (r: Result<Self, ConfigError>)
        ensures
            match parsed(text@) {
                None => r matches Err(e) && e == ConfigError::Syntax,
                Some(c) => match r {
                    Ok(m) => model_accepted(c, data@, m),
                    Err(e) => description_refused(c, data@.len(), e),
                },
            },
    {
        let value = match read_toml(text) {
            Ok(value) => value,
            Err(e) => {
                return Err(e);
            },
        };
        Self::from_toml(&value, data)
    }

    /// The network that the router applies.
    pub fn parameters(&self) -> (net: &Network)
        ensures
            *net == self.network(),
            self.wf() ==> net.wf(),
    {
        &self.net
    }

    /// The router that the model holds.
    pub fn router(&self) -> (router: &R)
        ensures
            *router == self.prepared(),
    {
        &self.router
    }

    /// Number of buckets.
    pub fn bucket_count(&self) -> (n: usize)
        ensures
            n == self.buckets().len(),
    {
        self.btrees.len()
    }

    /// The largest position that any bucket holds, 0 if none holds any: the
    /// constant by which predictions are scaled.
    pub fn max_prediction(&self) -> (m: u32)
        ensures
            m == self.largest(),
    {
        self.max_prediction
    }

    /// The bucket that serves a scaled prediction, whatever its size: none
    /// only if there is no bucket at all.
    pub fn bucket_for(&self, scaled: usize) -> (r: Option<usize>)
        ensures
            self.buckets().len() == 0 ==> r is None,
            self.buckets().len() > 0 ==> r == Some(clamped(scaled, self.buckets().len()) as usize),
            r matches Some(b) ==> b < self.buckets().len(),
    {
        let count = self.btrees.len();
        if count == 0 {
            None
        } else if scaled < count {
            Some(scaled)
        } else {
            Some(count - 1)
        }
    }

    /// Look `key` up in the bucket that the scaled prediction selects.
    pub fn eval_in(&self, key: K, scaled: usize) -> (r: Option<u32>)
        requires
            self.wf(),
        ensures
            self.may_answer_in(key, scaled, r),
    {
        match self.bucket_for(scaled) {
            None => None,
            Some(b) => self.btrees[b].eval(key),
        }
    }
}

impl<K, R> Model<K, u32> for ForwardingModel<K, R> where
    K: Copy + Default + PartialEq + PartialOrd,
    R: Router<K>,
 {
    open spec fn ready(&self) -> bool {
        self.wf()
    }

    /// An answer of the bucket that some scaled prediction selects: which
    /// one the router gives is not known here.
    open spec fn may_answer(&self, key: K, r: Option<u32>) -> bool {
        exists|scaled: usize| self.may_answer_in(key, scaled, r)
    }

    /// Route `key` and look it up in the bucket that the router selects.
    fn eval(&self, key: K) -> (r: Option<u32>) {
        let mut scratch = self.router.scratch();
        let scaled = self.router.route(key, self.max_prediction, self.btrees.len(), &mut scratch);
        self.eval_in(key, scaled)
    }

    /// Route and look up `keys` one after the other, with one set of
    /// buffers for all of them.
    fn eval_many(&self, keys: &[K], indices: &mut [Option<u32>]) {
        let mut scratch = self.router.scratch();
        let count = self.btrees.len();
        let mut i: usize = 0;
        while i < keys.len()
            invariant
                self.wf(),
                count == self.btrees@.len(),
                i <= keys@.len() <= indices@.len(),
                indices@.len() == old(indices)@.len(),
                forall|j: int| 0 <= j < i ==> self.may_answer(#[trigger] keys@[j], indices@[j]),
                forall|j: int| i <= j < indices@.len() ==> indices@[j] == old(indices)@[j],
            decreases keys@.len() - i,
        {
            let scaled = self.router.route(keys[i], self.max_prediction, count, &mut scratch);
            indices[i] = self.eval_in(keys[i], scaled);
            i += 1;
        }
    }
}

/// Routing is right where the router is: if a model was built from `data`
/// and `rows`, the keys are totally ordered, and a key of the dataset that
/// row `b` lists is looked up under a scaled prediction that selects bucket
/// `b`, the lookup returns a position at which `data` holds an equal key.
pub proof fn lemma_routed_lookup_finds<K: PartialOrd, R>(
    m: ForwardingModel<K, R>,
    data: Seq<K>,
    rows: Seq<Seq<u32>>,
    b: int,
    s: int,
    scaled: usize,
    r: Option<u32>,
)
    requires
        total_order::<K>(),
        m.wf(),
        m.built_from(data, rows),
        0 <= b < rows.len(),
        0 <= s < rows[b].len(),
        clamped(scaled, rows.len()) == b,
        m.may_answer_in(data[rows[b][s] as int], scaled, r),
    ensures
        r matches Some(j) && j < data.len() && key_eq(data[rows[b][s] as int], data[j as int]),
{
    broadcast use vstd::seq_lib::group_to_multiset_ensures;

    let key = data[rows[b][s] as int];
    let log = entries_of(data, rows[b]);
    let view = m.buckets()[b];
    assert(grown_from(log, view));
    lemma_grown_holds_log(log, view);
    assert(log[s] == (key, rows[b][s]));
    crate::order::lemma_order_facts(key, key);
    if r is None {
        assert(view.to_multiset().count(log[s]) > 0);
        assert(view.contains(log[s]));
        let l = choose|l: int| 0 <= l < view.len() && view[l] == log[s];
        assert(!key_eq(key, view[l].0));
    } else {
        let j = r->0;
        let l = choose|l: int|
            0 <= l < view.len() && (#[trigger] view[l]).1 == j && (total_order::<K>() ==> key_eq(
                key,
                view[l].0,
            ));
        assert(log.to_multiset().count(view[l]) > 0);
        assert(log.contains(view[l]));
        let q = choose|q: int| 0 <= q < log.len() && log[q] == view[l];
        assert(rows[b][q] < data.len());
    }
}


} // verus!
