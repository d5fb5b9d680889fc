//! The shape of a fully connected network: how many inputs and outputs each
//! layer has, whether the layers fit one another, and where in a layer's
//! storage a weight lies. The arithmetic on the weights themselves is not
//! done here.

use vstd::arithmetic::div_mod::{lemma_fundamental_div_mod, lemma_mod_pos_bound};
use crate::config::{
    content, entry, entry_of, float_rows, is_float_rows, layer_key, layer_name,
    value_array_arrays_float, ConfigError, Content,
};
use vstd::prelude::*;

verus! {

/// Fewest layers of a network.
pub const MIN_LAYERS: usize = 2;

/// A layer's weight matrix, stored row by row: one row for each output, one
/// column for each input.
#[derive(Clone, Copy, Debug, PartialEq, Eq)]
pub struct LayerShape {
    pub rows: usize,
    pub columns: usize,
}

/// Why the sizes given for a network's layers describe no network.
#[derive(Clone, Copy, Debug, PartialEq, Eq)]
pub enum ShapeError {
    /// There are fewer than `MIN_LAYERS` layers.
    TooFewLayers,
    /// The layer has no input, or no weight, or its weights do not fill
    /// whole rows of one weight for each input.
    WeightsMismatch { layer: usize },
    /// The layer does not have one bias for each of its rows.
    BiasMismatch { layer: usize },
}

/// The layers of a network, each fitting the one before.
pub struct NetworkShape {
    layers: Vec<LayerShape>,
}

/// Number of values that pass from layer `n - 1` to layer `n`, where
/// `sizes` gives for each layer the number of its weights and of its
/// biases, and keys have `key_dim` components: the first layer takes the
/// key, and every layer puts out as many values as its weights make rows of
/// one weight for each input.
pub open spec fn width_after(key_dim: nat, sizes: Seq<(usize, usize)>, n: int) -> nat
    decreases n,
{
    if n <= 0 {
        key_dim
    } else {
        let c = width_after(key_dim, sizes, n - 1);
        if c == 0 {
            0
        } else {
            (sizes[n - 1].0 as nat) / c
        }
    }
}

/// Number of inputs of layer `i`.
pub open spec fn layer_inputs(key_dim: nat, sizes: Seq<(usize, usize)>, i: int) -> nat {
    width_after(key_dim, sizes, i)
}

/// Number of outputs of layer `i`.
pub open spec fn layer_rows(key_dim: nat, sizes: Seq<(usize, usize)>, i: int) -> nat {
    width_after(key_dim, sizes, i + 1)
}

/// Layer `i` has inputs and weights, and its weights fill whole rows.
pub open spec fn weights_fit(key_dim: nat, sizes: Seq<(usize, usize)>, i: int) -> bool {
    let c = layer_inputs(key_dim, sizes, i);
    c > 0 && sizes[i].0 > 0 && (sizes[i].0 as nat) % c == 0
}

/// Layer `i` has one bias for each row.
pub open spec fn biases_fit(key_dim: nat, sizes: Seq<(usize, usize)>, i: int) -> bool {
    sizes[i].1 == layer_rows(key_dim, sizes, i)
}

/// The first `n` layers fit.
pub open spec fn layers_fit(key_dim: nat, sizes: Seq<(usize, usize)>, n: int) -> bool {
    forall|i: int|
        0 <= i < n ==> #[trigger] weights_fit(key_dim, sizes, i) && biases_fit(key_dim, sizes, i)
}

/// The sizes describe no network, for the reason `e`: there are too few
/// layers, or `e` names the first layer that does not fit and says whether
/// its weights or, these fitting, its biases are at fault.
pub open spec fn refused(key_dim: nat, sizes: Seq<(usize, usize)>, e: ShapeError) -> bool {
    match e {
        ShapeError::TooFewLayers => sizes.len() < MIN_LAYERS,
        ShapeError::WeightsMismatch { layer } => {
            &&& sizes.len() >= MIN_LAYERS
            &&& layer < sizes.len()
            &&& layers_fit(key_dim, sizes, layer as int)
            &&& !weights_fit(key_dim, sizes, layer as int)
        },
        ShapeError::BiasMismatch { layer } => {
            &&& sizes.len() >= MIN_LAYERS
            &&& layer < sizes.len()
            &&& layers_fit(key_dim, sizes, layer as int)
            &&& weights_fit(key_dim, sizes, layer as int)
            &&& !biases_fit(key_dim, sizes, layer as int)
        },
    }
}

/// Least number of blocks of `divisor` items that hold `dividend` items.
pub fn ceil_div(dividend: usize, divisor: usize) -> (r: usize)
    requires
        divisor > 0,
        dividend + divisor <= usize::MAX,
    ensures
        r == (dividend + divisor - 1) / (divisor as int),
        (r - 1) * divisor < dividend <= r * divisor,
{
    let r = (dividend + divisor - 1) / divisor;
    proof {
        let n = (dividend + divisor - 1) as int;
        let d = divisor as int;
        lemma_fundamental_div_mod(n, d);
        lemma_mod_pos_bound(n, d);
        assert(d * (n / d) == (n / d) * d) by (nonlinear_arith);
        assert((n / d - 1) * d == (n / d) * d - d) by (nonlinear_arith);
    }
    r
}

impl LayerShape {
    /// Where the weight from input `column` to output `row` lies in the
    /// layer's storage.
    pub fn offset(&self, row: usize, column: usize) -> (r: usize)
        requires
            row < self.rows,
            column < self.columns,
            self.rows * self.columns <= usize::MAX,
        ensures
            r == self.columns * row + column,
            r < self.rows * self.columns,
    {
        proof {
            let c = self.columns as int;
            assert(c * row + column < c * (row + 1)) by (nonlinear_arith)
                requires
                    column < c,
            ;
            assert(c * (row + 1) <= self.rows * c) by (nonlinear_arith)
                requires
                    row + 1 <= self.rows,
                    c >= 0,
            ;
        }
        self.columns * row + column
    }
}

impl NetworkShape {
    /// The layers, first to last.
    pub closed spec fn layers(&self) -> Seq<LayerShape> {
        self.layers@
    }

    /// There are at least `MIN_LAYERS` layers, none is empty, each has as
    /// many columns as the layer before has rows, and the number of a
    /// layer's weights is a machine number.
    pub open spec fn wf(&self) -> bool {
        &&& self.layers().len() >= MIN_LAYERS
        &&& forall|i: int|
            0 <= i < self.layers().len() ==> {
                &&& (#[trigger] self.layers()[i]).rows > 0
                &&& self.layers()[i].columns > 0
                &&& self.layers()[i].rows * self.layers()[i].columns <= usize::MAX
                &&& i > 0 ==> self.layers()[i].columns == self.layers()[i - 1].rows
            }
    }

    /// The shape is that of the network with these sizes: there are enough
    /// layers, all fit, and layer `i` has the rows and columns that the
    /// sizes give it.
    pub open spec fn fits(&self, key_dim: nat, sizes: Seq<(usize, usize)>) -> bool {
        &&& sizes.len() >= MIN_LAYERS
        &&& layers_fit(key_dim, sizes, sizes.len() as int)
        &&& self.layers().len() == sizes.len()
        &&& forall|i: int|
            0 <= i < sizes.len() ==> (#[trigger] self.layers()[i]).rows == layer_rows(
                key_dim,
                sizes,
                i,
            ) && self.layers()[i].columns == layer_inputs(key_dim, sizes, i)
    }

    /// Work out the shape of a network from the number of components of a
    /// key and, for each layer, the number of its weights and of its
    /// biases. Fails at the first layer that does not fit.
    pub fn new(key_dim: usize, sizes: &Vec<(usize, usize)>) -> (r: Result<Self, ShapeError>)
        ensures
            match r {
                Ok(shape) => shape.wf() && shape.fits(key_dim as nat, sizes@),
                Err(e) => refused(key_dim as nat, sizes@, e),
            },
    {
        if sizes.len() < MIN_LAYERS {
            return Err(ShapeError::TooFewLayers);
        }
        let mut layers: Vec<LayerShape> = Vec::new();
        let mut columns = key_dim;
        let mut i: usize = 0;
        while i < sizes.len()
            invariant
                MIN_LAYERS <= sizes@.len(),
                i <= sizes@.len(),
                layers@.len() == i,
                columns == layer_inputs(key_dim as nat, sizes@, i as int),
                layers_fit(key_dim as nat, sizes@, i as int),
                forall|j: int|
                    0 <= j < i ==> {
                        &&& (#[trigger] layers@[j]).rows == layer_rows(key_dim as nat, sizes@, j)
                        &&& layers@[j].columns == layer_inputs(key_dim as nat, sizes@, j)
                        &&& layers@[j].rows > 0
                        &&& layers@[j].columns > 0
                        &&& layers@[j].rows * layers@[j].columns <= usize::MAX
                        &&& j > 0 ==> layers@[j].columns == layers@[j - 1].rows
                    },
            decreases sizes@.len() - i,
        {
            let (weights, biases) = sizes[i];
            if columns == 0 || weights == 0 || weights % columns != 0 {
                proof {
                    assert(!weights_fit(key_dim as nat, sizes@, i as int));
                }
                return Err(ShapeError::WeightsMismatch { layer: i });
            }
            let rows = weights / columns;
            proof {
                assert(weights_fit(key_dim as nat, sizes@, i as int));
                assert(layer_rows(key_dim as nat, sizes@, i as int) == rows);
            }
            if biases != rows {
                proof {
                    assert(!biases_fit(key_dim as nat, sizes@, i as int));
                }
                return Err(ShapeError::BiasMismatch { layer: i });
            }
            proof {
                let w = weights as int;
                let c = columns as int;
                lemma_fundamental_div_mod(w, c);
                assert(c * (w / c) == (w / c) * c) by (nonlinear_arith);
                assert(rows > 0) by {
                    if w / c <= 0 {
                        assert(c * (w / c) <= 0) by (nonlinear_arith)
                            requires
                                w / c <= 0,
                                c > 0,
                        ;
                    }
                }
                assert(layer_rows(key_dim as nat, sizes@, i as int) == rows);
                assert(layer_inputs(key_dim as nat, sizes@, i + 1) == rows);
                assert(biases_fit(key_dim as nat, sizes@, i as int));
                assert(layers_fit(key_dim as nat, sizes@, i + 1));
            }
            layers.push(LayerShape { rows, columns });
            columns = rows;
            i += 1;
        }
        Ok(NetworkShape { layers })
    }

    /// Number of layers.
    pub fn depth(&self) -> (n: usize)
        ensures
            n == self.layers().len(),
    {
        self.layers.len()
    }

    /// Shape of layer `i`.
    pub fn layer(&self, i: usize) -> (l: LayerShape)
        requires
            i < self.layers().len(),
        ensures
            l == self.layers()[i as int],
    {
        self.layers[i]
    }

    /// What size of buffer holds the output of any layer: the largest
    /// number of rows that a layer has.
    pub fn buf_size(&self) -> (bufsize: usize)
        ensures
            forall|i: int| 0 <= i < self.layers().len() ==> (#[trigger] self.layers()[i]).rows <= bufsize,
            bufsize == 0 || exists|i: int|
                0 <= i < self.layers().len() && (#[trigger] self.layers()[i]).rows == bufsize,
    {
        let mut bufsize: usize = 0;
        let mut i: usize = 0;
        while i < self.layers.len()
            invariant
                i <= self.layers@.len(),
                forall|j: int| 0 <= j < i ==> (#[trigger] self.layers@[j]).rows <= bufsize,
                bufsize == 0 || exists|j: int|
                    0 <= j < i && (#[trigger] self.layers@[j]).rows == bufsize,
            decreases self.layers@.len() - i,
        {
            let ghost seen = bufsize;
            if self.layers[i].rows > bufsize {
                bufsize = self.layers[i].rows;
            }
            proof {
                if bufsize != 0 && bufsize == seen {
                    let j = choose|j: int| 0 <= j < i && (#[trigger] self.layers@[j]).rows == seen;
                    assert(self.layers@[j].rows == bufsize);
                } else if bufsize != 0 {
                    assert(self.layers@[i as int].rows == bufsize);
                }
            }
            i += 1;
        }
        proof {
            if bufsize != 0 {
                let j = choose|j: int|
                    0 <= j < self.layers@.len() && (#[trigger] self.layers@[j]).rows == bufsize;
                assert(self.layers()[j].rows == bufsize);
            }
        }
        bufsize
    }
}

/// The weights of a layer, row by row, and its biases, each a 64-bit float
/// given by its bits.
pub struct LayerParams {
    pub weights: Vec<u64>,
    pub biases: Vec<u64>,
}

/// A network: its shape and the parameters of its layers.
pub struct Network {
    shape: NetworkShape,
    params: Vec<LayerParams>,
}

/// For each layer the number of its weights and of its biases.
pub open spec fn sizes_of(params: Seq<LayerParams>) -> Seq<(usize, usize)> {
    Seq::new(params.len(), |i: int| (params[i].weights.len(), params[i].biases.len()))
}

/// The table `c` has entries for exactly the layers `0` to `n - 1`: those
/// keys are there, and the next is not. (Counting stops at the largest
/// machine number.)
pub open spec fn layers_counted(c: Content, n: nat) -> bool {
    &&& forall|i: nat| i < n ==> (#[trigger] entry(c, layer_name(i))) is Some
    &&& n == usize::MAX || entry(c, layer_name(n)) is None
}

/// The entry of layer `i` in `c` is an array of at least two arrays of
/// floats.
pub open spec fn is_layer(c: Content, i: nat) -> bool {
    &&& entry(c, layer_name(i)) matches Some(e)
    &&& is_float_rows(e)
    &&& float_rows(e).len() >= 2
}

/// The weights of layer `i` in `c`: the first array of the layer's entry.
pub open spec fn layer_weights(c: Content, i: nat) -> Seq<u64> {
    float_rows(entry(c, layer_name(i)).unwrap())[0]
}

/// The biases of layer `i` in `c`: the second array of the layer's entry.
pub open spec fn layer_biases(c: Content, i: nat) -> Seq<u64> {
    float_rows(entry(c, layer_name(i)).unwrap())[1]
}

/// For each of the first `n` layers in `c` the number of its weights and of
/// its biases.
pub open spec fn sizes_in(c: Content, n: nat) -> Seq<(usize, usize)> {
    Seq::new(
        n,
        |i: int| (layer_weights(c, i as nat).len() as usize, layer_biases(c, i as nat).len() as usize),
    )
}

/// `net` is the network that `c` describes, for keys of one component.
pub open spec fn network_accepted(c: Content, net: Network) -> bool {
    &&& layers_counted(c, net.params().len())
    &&& forall|i: nat|
        i < net.params().len() ==> {
            &&& #[trigger] is_layer(c, i)
            &&& net.params()[i as int].weights@ == layer_weights(c, i)
            &&& net.params()[i as int].biases@ == layer_biases(c, i)
        }
    &&& net.wf()
    &&& net.shape().fits(1, sizes_of(net.params()))
}

/// `c` describes no network, for the reason `e`: `e` names the first layer
/// whose entry is malformed, or all entries are well-formed and `e` says
/// why their sizes make no network.
pub open spec fn network_refused(c: Content, e: ConfigError) -> bool {
    exists|n: nat|
        #![trigger layers_counted(c, n)]
        layers_counted(c, n) && match e {
            ConfigError::BadLayer { layer } => {
                &&& layer < n
                &&& forall|i: nat| i < layer ==> #[trigger] is_layer(c, i)
                &&& !is_layer(c, layer as nat)
            },
            ConfigError::Shape(s) => {
                &&& forall|i: nat| i < n ==> #[trigger] is_layer(c, i)
                &&& refused(1, sizes_in(c, n), s)
            },
            _ => false,
        }
}

impl Network {
    /// The shape of the network.
    pub closed spec fn shape(&self) -> NetworkShape {
        self.shape
    }

    /// The parameters, layer by layer.
    pub closed spec fn params(&self) -> Seq<LayerParams> {
        self.params@
    }

    /// The shape is well-formed and is the shape of the parameters.
    pub open spec fn wf(&self) -> bool {
        &&& self.shape().wf()
        &&& self.shape().fits(
            self.shape().layers()[0].columns as nat,
            sizes_of(self.params()),
        )
    }

    /// In a well-formed network every layer has a weight for each row and
    /// column and a bias for each row.
    pub proof fn lemma_params_fill_shape(&self, i: int)
        requires
            self.wf(),
            0 <= i < self.params().len(),
        ensures
            self.params()[i].weights@.len() == self.shape().layers()[i].rows
                * self.shape().layers()[i].columns,
            self.params()[i].biases@.len() == self.shape().layers()[i].rows,
    {
        broadcast use vstd::std_specs::vec::axiom_spec_len;

        let key_dim = self.shape().layers()[0].columns as nat;
        let sizes = sizes_of(self.params());
        assert(weights_fit(key_dim, sizes, i));
        assert(biases_fit(key_dim, sizes, i));
        assert(self.shape().layers()[i].rows == layer_rows(key_dim, sizes, i));
        assert(self.shape().layers()[i].columns == layer_inputs(key_dim, sizes, i));
        assert(sizes[i].0 == self.params()[i].weights@.len());
        assert(sizes[i].1 == self.params()[i].biases@.len());
        let w = sizes[i].0 as int;
        let c = layer_inputs(key_dim, sizes, i) as int;
        lemma_fundamental_div_mod(w, c);
        assert(c * (w / c) == (w / c) * c) by (nonlinear_arith);
    }

    /// Make a network from the parameters of its layers, for keys of
    /// `key_dim` components. Fails at the first layer that does not fit.
    pub fn new(key_dim: usize, params: Vec<LayerParams>) -> (r: Result<Self, ShapeError>)
        ensures
            match r {
                Ok(net) => {
                    &&& net.wf()
                    &&& net.params() == params@
                    &&& net.shape().fits(key_dim as nat, sizes_of(params@))
                },
                Err(e) => refused(key_dim as nat, sizes_of(params@), e),
            },
    {
        let mut sizes: Vec<(usize, usize)> = Vec::new();
        let mut i: usize = 0;
        while i < params.len()
            invariant
                i <= params@.len(),
                sizes@.len() == i,
                forall|j: int| 0 <= j < i ==> #[trigger] sizes@[j] == sizes_of(params@)[j],
            decreases params@.len() - i,
        {
            sizes.push((params[i].weights.len(), params[i].biases.len()));
            i += 1;
        }
        proof {
            assert(sizes@ =~= sizes_of(params@));
        }
        match NetworkShape::new(key_dim, &sizes) {
            Ok(shape) => {
                proof {
                    assert(shape.layers()[0].columns == layer_inputs(
                        key_dim as nat,
                        sizes_of(params@),
                        0,
                    ));
                }
                Ok(Network { shape, params })
            },
            Err(e) => Err(e),
        }
    }

    /// Read a network from a TOML table with one entry for each layer,
    /// `layer0`, `layer1` and so on without a gap, each an array of two
    /// arrays of floats: the layer's weights, row by row, and its biases.
    pub fn from_toml(v: &toml::Value) -> (r: Result<Self, ConfigError>)
        ensures
            match r {
                Ok(net) => network_accepted(content(*v), net),
                Err(e) => network_refused(content(*v), e),
            },
    {
        let ghost c = content(*v);
        let mut n: usize = 0;
        while n < usize::MAX
            invariant
                c == content(*v),
                forall|i: nat| i < n ==> (#[trigger] entry(c, layer_name(i))) is Some,
            ensures
                layers_counted(c, n as nat),
            decreases usize::MAX - n,
        {
            let key = layer_key(n);
            if entry_of(v, key.as_str()).is_none() {
                break ;
            }
            n += 1;
        }
        let mut params: Vec<LayerParams> = Vec::new();
        let mut i: usize = 0;
        while i < n
            invariant
                c == content(*v),
                layers_counted(c, n as nat),
                i <= n,
                params@.len() == i,
                forall|j: nat|
                    j < i ==> {
                        &&& #[trigger] is_layer(c, j)
                        &&& params@[j as int].weights@ == layer_weights(c, j)
                        &&& params@[j as int].biases@ == layer_biases(c, j)
                    },
            decreases n - i,
        {
            let key = layer_key(i);
            proof {
                assert(entry(c, layer_name(i as nat)) is Some);
            }
            let e = entry_of(v, key.as_str()).unwrap();
            let mut rows = match value_array_arrays_float(e, i) {
                Ok(rows) => rows,
                Err(err) => {
                    proof {
                        assert(!is_layer(c, i as nat));
                        assert(layers_counted(c, n as nat));
                    }
                    return Err(err);
                },
            };
            if rows.len() < 2 {
                proof {
                    assert(!is_layer(c, i as nat));
                    assert(layers_counted(c, n as nat));
                }
                return Err(ConfigError::BadLayer { layer: i });
            }
            let ghost all = crate::config::rows_of(rows@);
            proof {
                assert(all[0] == rows@[0]@);
                assert(all[1] == rows@[1]@);
            }
            let biases = rows.swap_remove(1);
            let weights = rows.swap_remove(0);
            params.push(LayerParams { weights, biases });
            proof {
                assert(is_layer(c, i as nat));
                assert(params@[i as int].weights@ == layer_weights(c, i as nat));
                assert(params@[i as int].biases@ == layer_biases(c, i as nat));
            }
            i += 1;
        }
        proof {
            broadcast use vstd::std_specs::vec::axiom_spec_len;

            assert forall|j: int| 0 <= j < n implies sizes_of(params@)[j] == sizes_in(c, n as nat)[j] by {
                assert(is_layer(c, j as nat));
            }
            assert(sizes_of(params@) =~= sizes_in(c, n as nat));
        }
        let ghost given = params@;
        match Network::new(1, params) {
            Ok(net) => {
                proof {
                    assert(net.params() == given);
                    assert(net.params().len() == n);
                    assert(layers_counted(c, net.params().len()));
                    assert(net.shape().fits(1, sizes_of(net.params())));
                    assert forall|j: nat| j < net.params().len() implies {
                        &&& #[trigger] is_layer(c, j)
                        &&& net.params()[j as int].weights@ == layer_weights(c, j)
                        &&& net.params()[j as int].biases@ == layer_biases(c, j)
                    } by {
                        assert(given[j as int] == net.params()[j as int]);
                    }
                    assert(net.wf());
                }
                Ok(net)
            },
            Err(e) => {
                proof {
                    assert(layers_counted(c, n as nat));
                    assert(refused(1, sizes_in(c, n as nat), e));
                    assert forall|j: nat| j < n implies #[trigger] is_layer(c, j) by {}
                }
                Err(ConfigError::Shape(e))
            },
        }
    }

    /// Number of layers.
    pub fn depth(&self) -> (n: usize)
        requires
            self.wf(),
        ensures
            n == self.params().len(),
            n == self.shape().layers().len(),
    {
        self.shape.depth()
    }

    /// Shape of layer `i`.
    pub fn layer(&self, i: usize) -> (l: LayerShape)
        requires
            i < self.shape().layers().len(),
        ensures
            l == self.shape().layers()[i as int],
    {
        self.shape.layer(i)
    }

    /// What size of buffer holds the output of any layer: the largest
    /// number of rows that a layer has.
    pub fn buf_size(&self) -> (bufsize: usize)
        ensures
            forall|i: int|
                0 <= i < self.shape().layers().len() ==> (#[trigger] self.shape().layers()[i]).rows
                    <= bufsize,
            bufsize == 0 || exists|i: int|
                0 <= i < self.shape().layers().len() && (#[trigger] self.shape().layers()[i]).rows
                    == bufsize,
    {
        let bufsize = self.shape.buf_size();
        proof {
            if bufsize != 0 {
                let i = choose|i: int|
                    0 <= i < self.shape.layers().len() && (#[trigger] self.shape.layers()[i]).rows
                        == bufsize;
                assert(self.shape().layers()[i].rows == bufsize);
            }
        }
        bufsize
    }

    /// The bits of the weight from input `column` to output `row` of layer
    /// `layer`.
    pub fn weight(&self, layer: usize, row: usize, column: usize) -> (bits: u64)
        requires
            self.wf(),
            layer < self.params().len(),
            row < self.shape().layers()[layer as int].rows,
            column < self.shape().layers()[layer as int].columns,
        ensures
            bits == self.params()[layer as int].weights@[self.shape().layers()[layer as int].columns
                * row + column],
    {
        proof {
            self.lemma_params_fill_shape(layer as int);
        }
        let at = self.shape.layer(layer).offset(row, column);
        self.params[layer].weights[at]
    }

    /// The bits of the bias of output `row` of layer `layer`.
    pub fn bias(&self, layer: usize, row: usize) -> (bits: u64)
        requires
            self.wf(),
            layer < self.params().len(),
            row < self.shape().layers()[layer as int].rows,
        ensures
            bits == self.params()[layer as int].biases@[row as int],
    {
        proof {
            self.lemma_params_fill_shape(layer as int);
        }
        self.params[layer].biases[row]
    }
}

} // verus!
