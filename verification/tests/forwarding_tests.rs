use learned_index_structures::btree::MAX_ENTRIES;
use learned_index_structures::config::{read_toml, ConfigError};
use learned_index_structures::forwarding_model::{BuildError, ForwardingModel, Router};
use learned_index_structures::model::Model;
use learned_index_structures::neural::{LayerParams, LayerShape, Network, ShapeError};
use std::cell::Cell;

/// Routes the keys of `dataset` each to the bucket that holds it in
/// `four_buckets`, and counts the sets of buffers that were asked for.
struct Ideal {
    depth: usize,
    buffers: Cell<usize>,
}

impl Router<f32> for Ideal {
    type Scratch = Vec<f32>;

    fn prepare(net: &Network) -> Self {
        Ideal {
            depth: net.depth(),
            buffers: Cell::new(0),
        }
    }

    fn scratch(&self) -> Vec<f32> {
        self.buffers.set(self.buffers.get() + 1);
        vec![0.0; 2]
    }

    fn route(&self, key: f32, largest: u32, count: usize, scratch: &mut Vec<f32>) -> usize {
        // the key at position i is i * i / 4
        let position = (4.0 * key).sqrt();
        scratch[0] = position;
        ((position / largest as f32) * count as f32) as usize
    }
}

/// Sends every key behind the last bucket.
struct Astray;

impl Router<u32> for Astray {
    type Scratch = ();

    fn prepare(_net: &Network) -> Self {
        Astray
    }

    fn scratch(&self) {}

    fn route(&self, _key: u32, _largest: u32, _count: usize, _scratch: &mut ()) -> usize {
        usize::MAX
    }
}

fn router() -> Network {
    let layer = |weights: &[f64], biases: &[f64]| LayerParams {
        weights: weights.iter().map(|x| x.to_bits()).collect(),
        biases: biases.iter().map(|x| x.to_bits()).collect(),
    };
    Network::new(1, vec![layer(&[1.0, 0.5], &[0.0, 0.0]), layer(&[1.0, 1.0], &[0.0])])
        .ok()
        .unwrap()
}

fn dataset() -> Vec<f32> {
    (0..40).map(|i| (i * i) as f32 / 4.0).collect()
}

fn four_buckets() -> Vec<Vec<u32>> {
    vec![
        (0..10).collect(),
        (10..20).collect(),
        (20..30).collect(),
        (30..40).collect(),
    ]
}

#[test]
fn a_model_keeps_its_router() {
    let data = dataset();
    let model = ForwardingModel::<_, Ideal>::build(router(), &data, &four_buckets()).ok().unwrap();
    assert_eq!(model.parameters().depth(), 2);
    assert_eq!(model.parameters().buf_size(), 2);
    assert_eq!(f64::from_bits(model.parameters().weight(0, 1, 0)), 0.5);
}

#[test]
fn every_key_is_found_in_its_bucket() {
    let data = dataset();
    let model = ForwardingModel::<_, Ideal>::build(router(), &data, &four_buckets()).ok().unwrap();
    assert_eq!(model.bucket_count(), 4);
    assert_eq!(model.max_prediction(), 39);
    for (i, &key) in data.iter().enumerate() {
        let j = model.eval_in(key, i / 10).unwrap();
        assert_eq!(data[j as usize], key);
        assert_eq!(j as usize, i);
    }
}

#[test]
fn a_key_is_missed_in_another_bucket() {
    let data = dataset();
    let model = ForwardingModel::<_, Ideal>::build(router(), &data, &four_buckets()).ok().unwrap();
    assert_eq!(model.eval_in(data[5], 1), None);
    assert_eq!(model.eval_in(data[35], 0), None);
    assert_eq!(model.eval_in(0.1, 0), None);
}

#[test]
fn a_prediction_behind_the_buckets_selects_the_last() {
    let data = dataset();
    let model = ForwardingModel::<_, Ideal>::build(router(), &data, &four_buckets()).ok().unwrap();
    assert_eq!(model.bucket_for(0), Some(0));
    assert_eq!(model.bucket_for(3), Some(3));
    assert_eq!(model.bucket_for(4), Some(3));
    assert_eq!(model.bucket_for(usize::MAX), Some(3));
    assert_eq!(model.eval_in(data[39], 4), Some(39));
    assert_eq!(model.eval_in(data[39], usize::MAX), Some(39));
    assert_eq!(model.eval_in(data[0], usize::MAX), None);
}

#[test]
fn a_model_without_buckets_finds_nothing() {
    let data = dataset();
    let model = ForwardingModel::<_, Ideal>::build(router(), &data, &vec![]).ok().unwrap();
    assert_eq!(model.bucket_count(), 0);
    assert_eq!(model.max_prediction(), 0);
    assert_eq!(model.bucket_for(0), None);
    assert_eq!(model.eval_in(data[0], 0), None);
}

#[test]
fn the_largest_position_is_kept() {
    let data = dataset();
    let model = ForwardingModel::<_, Ideal>::build(router(), &data, &vec![vec![3, 17, 5], vec![], vec![16, 2]])
        .ok()
        .unwrap();
    assert_eq!(model.max_prediction(), 17);
    assert_eq!(model.bucket_count(), 3);
    let model = ForwardingModel::<_, Ideal>::build(router(), &data, &vec![vec![], vec![0, 0]]).ok().unwrap();
    assert_eq!(model.max_prediction(), 0);
    assert_eq!(model.eval_in(data[0], 1), Some(0));
}

#[test]
fn positions_are_inserted_in_the_order_given() {
    let data: Vec<u32> = vec![9, 3, 7, 3, 1];
    let model = ForwardingModel::<_, Astray>::build(router(), &data, &vec![vec![4, 2, 0], vec![3, 1]]).ok().unwrap();
    assert_eq!(model.eval_in(1, 0), Some(4));
    assert_eq!(model.eval_in(7, 0), Some(2));
    assert_eq!(model.eval_in(9, 0), Some(0));
    assert_eq!(model.eval_in(3, 0), None);
    let found = model.eval_in(3, 1).unwrap();
    assert!(found == 1 || found == 3);
}

#[test]
fn the_first_position_out_of_range_is_named() {
    let data = dataset();
    let r = ForwardingModel::<_, Ideal>::build(router(), &data, &vec![vec![0, 39], vec![1, 40, 41], vec![99]]);
    assert_eq!(
        r.err(),
        Some(BuildError::PositionOutOfRange { bucket: 1, slot: 1 })
    );
    let none: Vec<f32> = vec![];
    let r = ForwardingModel::<_, Ideal>::build(router(), &none, &vec![vec![], vec![0]]);
    assert_eq!(
        r.err(),
        Some(BuildError::PositionOutOfRange { bucket: 1, slot: 0 })
    );
}

#[test]
fn a_routed_lookup_finds_every_key_of_the_dataset() {
    let data = dataset();
    let model = ForwardingModel::<_, Ideal>::build(router(), &data, &four_buckets()).ok().unwrap();
    for &key in data.iter() {
        let j = model.eval(key).unwrap();
        assert_eq!(data[j as usize], key);
    }
    assert_eq!(model.eval(0.1), None);
    assert_eq!(model.eval(1.0e9), None);
    assert_eq!(model.eval(-5.0), None);
    assert_eq!(model.eval(f32::NAN), None);
}

#[test]
fn a_batch_is_routed_and_looked_up_key_by_key_with_one_set_of_buffers() {
    let data = dataset();
    let model = ForwardingModel::<_, Ideal>::build(router(), &data, &four_buckets()).ok().unwrap();
    let keys = [data[0], data[12], data[39], 0.1, data[25]];
    let mut indices = [Some(1000u32); 7];
    assert_eq!(model.router().buffers.get(), 0);
    model.eval_many(&keys, &mut indices);
    assert_eq!(
        indices,
        [Some(0), Some(12), Some(39), None, Some(25), Some(1000), Some(1000)]
    );
    assert_eq!(model.router().buffers.get(), 1);
    model.eval(data[3]);
    assert_eq!(model.router().buffers.get(), 2);
}

#[test]
fn a_router_gone_astray_still_has_a_bucket_searched() {
    let data: Vec<u32> = vec![9, 3, 7, 3, 1];
    let model = ForwardingModel::<_, Astray>::build(router(), &data, &vec![vec![4, 2, 0], vec![3, 1]])
        .ok()
        .unwrap();
    // every key is sent to the last bucket
    assert_eq!(model.eval(9), None);
    assert_eq!(model.eval(1), None);
    let found = model.eval(3).unwrap();
    assert!(found == 1 || found == 3);
    let none = ForwardingModel::<_, Astray>::build(router(), &data, &vec![]).ok().unwrap();
    assert_eq!(none.eval(9), None);
}

const DESCRIPTION: &str = "
btree_indices = [[0, 1, 2], [3, 4], [5]]
layer0 = [[1.0, 2.0], [-3.0, 4.0]]
layer1 = [[1.0, 2.0, 3.0, 4.0], [5.0, 5.0]]
layer2 = [[-1.0, 1.0], [2.0]]
";

#[test]
fn a_model_is_read_from_its_description() {
    let data: Vec<f32> = vec![0.5, 1.5, 2.5, 3.5, 4.5, 5.5];
    let model = ForwardingModel::<_, Ideal>::read_toml(DESCRIPTION, &data).ok().unwrap();
    let net = model.parameters();
    assert_eq!(model.router().depth, 3);
    assert_eq!(model.bucket_count(), 3);
    assert_eq!(model.max_prediction(), 5);
    assert_eq!(model.eval_in(1.5, 0), Some(1));
    assert_eq!(model.eval_in(3.5, 1), Some(3));
    assert_eq!(model.eval_in(5.5, 2), Some(5));
    assert_eq!(model.eval_in(5.5, 1), None);
    assert_eq!(net.depth(), 3);
    assert_eq!(net.layer(1), LayerShape { rows: 2, columns: 2 });
    assert_eq!(f64::from_bits(net.weight(2, 0, 1)), 1.0);
}

#[test]
fn the_buckets_are_read_from_a_table() {
    let data: Vec<u32> = vec![10, 20, 30];
    let value = read_toml(
        "btree_indices = [[2, 0], [1]]\nlayer0 = [[1.0], [0.0]]\nlayer1 = [[2.0], [0.5]]",
    )
    .ok()
    .unwrap();
    let model = ForwardingModel::<_, Astray>::from_toml(&value, &data).ok().unwrap();
    assert_eq!(model.parameters().depth(), 2);
    assert_eq!(f64::from_bits(model.parameters().bias(1, 0)), 0.5);
    assert_eq!(model.bucket_count(), 2);
    assert_eq!(model.max_prediction(), 2);
    assert_eq!(model.eval_in(30, 0), Some(2));
    assert_eq!(model.eval_in(20, 1), Some(1));
    assert_eq!(model.eval_in(20, 0), None);
}

#[test]
fn a_description_that_is_no_document_is_a_syntax_error() {
    let data: Vec<f32> = vec![0.5];
    let r = ForwardingModel::<_, Ideal>::read_toml("btree_indices = [[0]", &data);
    assert_eq!(r.err(), Some(ConfigError::Syntax));
}

#[test]
fn a_description_without_buckets_is_refused() {
    let data: Vec<f32> = vec![0.5];
    let r = ForwardingModel::<_, Ideal>::read_toml("layer0 = [[1.0], [1.0]]", &data);
    assert_eq!(r.err(), Some(ConfigError::MissingIndices));
    let value = read_toml("btree_indices = [[0]]").ok().unwrap();
    let inner = value.get("btree_indices").unwrap();
    assert_eq!(
        ForwardingModel::<_, Ideal>::from_toml(inner, &data).err(),
        Some(ConfigError::MissingIndices)
    );
}

#[test]
fn buckets_that_are_no_positions_are_refused() {
    let data: Vec<f32> = vec![0.5];
    let r = ForwardingModel::<_, Ideal>::read_toml("btree_indices = 5", &data);
    assert_eq!(r.err(), Some(ConfigError::BadIndices));
    let r = ForwardingModel::<_, Ideal>::read_toml("btree_indices = [[0.0]]", &data);
    assert_eq!(r.err(), Some(ConfigError::BadIndices));
    let r = ForwardingModel::<_, Ideal>::read_toml("btree_indices = [[-1]]", &data);
    assert_eq!(r.err(), Some(ConfigError::BadIndices));
}

#[test]
fn a_position_that_the_dataset_lacks_is_refused_when_read() {
    let data: Vec<f32> = vec![0.5, 1.5];
    let r = ForwardingModel::<_, Ideal>::read_toml(
        "btree_indices = [[0, 1], [1, 2]]\nlayer0 = [[1.0], [1.0]]\nlayer1 = [[1.0], [1.0]]",
        &data,
    );
    assert_eq!(
        r.err(),
        Some(ConfigError::Build(BuildError::PositionOutOfRange {
            bucket: 1,
            slot: 1
        }))
    );
}

#[test]
fn the_buckets_are_judged_before_the_layers() {
    let data: Vec<f32> = vec![0.5, 1.5];
    let r = ForwardingModel::<_, Ideal>::read_toml("btree_indices = [[0, 1]]\nlayer0 = [[1.0], [1.0]]", &data);
    assert_eq!(r.err(), Some(ConfigError::Shape(ShapeError::TooFewLayers)));
    let r = ForwardingModel::<_, Ideal>::read_toml("btree_indices = [[0, 5]]\nlayer0 = 3", &data);
    assert_eq!(
        r.err(),
        Some(ConfigError::Build(BuildError::PositionOutOfRange {
            bucket: 0,
            slot: 1
        }))
    );
    let r = ForwardingModel::<_, Ideal>::read_toml(
        "btree_indices = [[0, 1]]\nlayer0 = [[1.0], [1.0]]\nlayer1 = [[1.0], [2]]",
        &data,
    );
    assert_eq!(r.err(), Some(ConfigError::BadLayer { layer: 1 }));
}

#[test]
fn a_tree_takes_entries_up_to_its_limit_of_handles() {
    assert_eq!(MAX_ENTRIES, 0xFFFF_FFFB);
}
