use learned_index_structures::config::{read_toml, ConfigError};
use learned_index_structures::neural::{
    ceil_div, LayerParams, LayerShape, Network, NetworkShape, ShapeError,
};

fn bits(values: &[f64]) -> Vec<u64> {
    values.iter().map(|x| x.to_bits()).collect()
}

fn layer(weights: &[f64], biases: &[f64]) -> LayerParams {
    LayerParams {
        weights: bits(weights),
        biases: bits(biases),
    }
}

#[test]
fn blocks_are_counted_upwards() {
    assert_eq!(ceil_div(0, 8), 0);
    assert_eq!(ceil_div(1, 8), 1);
    assert_eq!(ceil_div(8, 8), 1);
    assert_eq!(ceil_div(9, 8), 2);
    assert_eq!(ceil_div(64, 32), 2);
    assert_eq!(ceil_div(65, 32), 3);
    assert_eq!(ceil_div(7, 1), 7);
}

#[test]
fn weights_lie_row_by_row() {
    let shape = LayerShape { rows: 3, columns: 4 };
    assert_eq!(shape.offset(0, 0), 0);
    assert_eq!(shape.offset(0, 3), 3);
    assert_eq!(shape.offset(1, 0), 4);
    assert_eq!(shape.offset(2, 3), 11);
}

#[test]
fn a_chain_of_layers_gets_its_shape() {
    // a scalar key, 2 outputs, then a 2 x 2 layer, then one output
    let sizes = vec![(2, 2), (4, 2), (2, 1)];
    let shape = NetworkShape::new(1, &sizes).unwrap();
    assert_eq!(shape.depth(), 3);
    assert_eq!(shape.layer(0), LayerShape { rows: 2, columns: 1 });
    assert_eq!(shape.layer(1), LayerShape { rows: 2, columns: 2 });
    assert_eq!(shape.layer(2), LayerShape { rows: 1, columns: 2 });
    assert_eq!(shape.buf_size(), 2);
}

#[test]
fn the_widest_layer_sizes_the_buffers() {
    let sizes = vec![(3, 3), (15, 5), (10, 2), (2, 1)];
    let shape = NetworkShape::new(1, &sizes).unwrap();
    assert_eq!(shape.buf_size(), 5);
    let keys_of_two = vec![(4, 2), (2, 1)];
    let shape = NetworkShape::new(2, &keys_of_two).unwrap();
    assert_eq!(shape.layer(0), LayerShape { rows: 2, columns: 2 });
    assert_eq!(shape.buf_size(), 2);
}

#[test]
fn fewer_than_two_layers_are_no_network() {
    assert_eq!(
        NetworkShape::new(1, &vec![]).err(),
        Some(ShapeError::TooFewLayers)
    );
    assert_eq!(
        NetworkShape::new(1, &vec![(2, 2)]).err(),
        Some(ShapeError::TooFewLayers)
    );
    // too few layers is said before anything about the one layer there is
    assert_eq!(
        NetworkShape::new(1, &vec![(0, 5)]).err(),
        Some(ShapeError::TooFewLayers)
    );
}

#[test]
fn weights_that_fill_no_whole_rows_are_refused() {
    assert_eq!(
        NetworkShape::new(1, &vec![(2, 2), (5, 2), (2, 1)]).err(),
        Some(ShapeError::WeightsMismatch { layer: 1 })
    );
    assert_eq!(
        NetworkShape::new(1, &vec![(0, 0), (4, 2)]).err(),
        Some(ShapeError::WeightsMismatch { layer: 0 })
    );
    assert_eq!(
        NetworkShape::new(0, &vec![(2, 2), (4, 2)]).err(),
        Some(ShapeError::WeightsMismatch { layer: 0 })
    );
}

#[test]
fn biases_that_do_not_match_the_rows_are_refused() {
    assert_eq!(
        NetworkShape::new(1, &vec![(2, 3), (4, 2)]).err(),
        Some(ShapeError::BiasMismatch { layer: 0 })
    );
    assert_eq!(
        NetworkShape::new(1, &vec![(2, 2), (4, 2), (2, 2)]).err(),
        Some(ShapeError::BiasMismatch { layer: 2 })
    );
    // the first layer at fault is named, and its weights before its biases
    assert_eq!(
        NetworkShape::new(1, &vec![(2, 2), (4, 1), (3, 1)]).err(),
        Some(ShapeError::BiasMismatch { layer: 1 })
    );
    assert_eq!(
        NetworkShape::new(1, &vec![(2, 2), (3, 1), (2, 7)]).err(),
        Some(ShapeError::WeightsMismatch { layer: 1 })
    );
}

#[test]
fn a_network_keeps_its_parameters() {
    let net = Network::new(
        1,
        vec![
            layer(&[1.0, 2.0], &[-3.0, 4.0]),
            layer(&[1.0, 2.0, 3.0, 4.0], &[5.0, 5.0]),
            layer(&[-1.0, 1.0], &[2.0]),
        ],
    )
    .ok()
    .unwrap();
    assert_eq!(net.depth(), 3);
    assert_eq!(net.buf_size(), 2);
    assert_eq!(net.layer(1), LayerShape { rows: 2, columns: 2 });
    assert_eq!(f64::from_bits(net.weight(0, 1, 0)), 2.0);
    assert_eq!(f64::from_bits(net.weight(1, 0, 1)), 2.0);
    assert_eq!(f64::from_bits(net.weight(1, 1, 0)), 3.0);
    assert_eq!(f64::from_bits(net.weight(2, 0, 1)), 1.0);
    assert_eq!(f64::from_bits(net.bias(0, 0)), -3.0);
    assert_eq!(f64::from_bits(net.bias(1, 1)), 5.0);
    assert_eq!(f64::from_bits(net.bias(2, 0)), 2.0);
}

#[test]
fn a_network_of_misfitting_layers_is_refused() {
    let r = Network::new(1, vec![layer(&[1.0, 2.0], &[0.0, 0.0]), layer(&[1.0, 2.0, 3.0], &[0.0])]);
    assert_eq!(r.err(), Some(ShapeError::WeightsMismatch { layer: 1 }));
    let r = Network::new(1, vec![layer(&[1.0], &[0.0])]);
    assert_eq!(r.err(), Some(ShapeError::TooFewLayers));
}

const THREE_LAYERS: &str = "
layer0 = [[1.0, 2.0], [-3.0, 4.0]]
layer1 = [[1.0, 2.0, 3.0, 4.0], [5.0, 5.0]]
layer2 = [[-1.0, 1.0], [2.0]]
";

#[test]
fn a_network_is_read_from_its_layers() {
    let value = read_toml(THREE_LAYERS).ok().unwrap();
    let net = Network::from_toml(&value).ok().unwrap();
    assert_eq!(net.depth(), 3);
    assert_eq!(net.layer(0), LayerShape { rows: 2, columns: 1 });
    assert_eq!(net.layer(2), LayerShape { rows: 1, columns: 2 });
    assert_eq!(f64::from_bits(net.weight(0, 0, 0)), 1.0);
    assert_eq!(f64::from_bits(net.weight(1, 1, 1)), 4.0);
    assert_eq!(f64::from_bits(net.weight(2, 0, 0)), -1.0);
    assert_eq!(f64::from_bits(net.bias(0, 1)), 4.0);
    assert_eq!(f64::from_bits(net.bias(2, 0)), 2.0);
}

#[test]
fn layers_are_counted_up_to_the_first_gap() {
    // twelve layers of one weight each: layer10 and layer11 count, and
    // layer13 behind the gap does not
    let mut text = String::new();
    for i in 0..12 {
        text.push_str(&format!("layer{} = [[{}.5], [0.25]]\n", i, i));
    }
    text.push_str("layer13 = 5\n");
    let value = read_toml(&text).ok().unwrap();
    let net = Network::from_toml(&value).ok().unwrap();
    assert_eq!(net.depth(), 12);
    assert_eq!(f64::from_bits(net.weight(10, 0, 0)), 10.5);
    assert_eq!(f64::from_bits(net.weight(11, 0, 0)), 11.5);
    assert_eq!(f64::from_bits(net.bias(7, 0)), 0.25);
}

#[test]
fn a_document_without_layers_has_too_few() {
    let value = read_toml("btree_indices = [[0]]").ok().unwrap();
    assert_eq!(
        Network::from_toml(&value).err(),
        Some(ConfigError::Shape(ShapeError::TooFewLayers))
    );
    let value = read_toml("layer0 = [[1.0], [1.0]]\nlayer2 = [[1.0], [1.0]]").ok().unwrap();
    assert_eq!(
        Network::from_toml(&value).err(),
        Some(ConfigError::Shape(ShapeError::TooFewLayers))
    );
}

#[test]
fn a_malformed_layer_is_named() {
    let value = read_toml("layer0 = [[1.0], [1.0]]\nlayer1 = [[1.0], [1]]").ok().unwrap();
    assert_eq!(
        Network::from_toml(&value).err(),
        Some(ConfigError::BadLayer { layer: 1 })
    );
    let value = read_toml("layer0 = [[1.0]]\nlayer1 = [[1.0], [1.0]]").ok().unwrap();
    assert_eq!(
        Network::from_toml(&value).err(),
        Some(ConfigError::BadLayer { layer: 0 })
    );
    let value = read_toml("layer0 = 3.5\nlayer1 = [[1.0], [1.0]]").ok().unwrap();
    assert_eq!(
        Network::from_toml(&value).err(),
        Some(ConfigError::BadLayer { layer: 0 })
    );
    // a malformed layer is said before a misfit of the layers before it
    let value = read_toml("layer0 = [[1.0], [1.0, 2.0]]\nlayer1 = 7").ok().unwrap();
    assert_eq!(
        Network::from_toml(&value).err(),
        Some(ConfigError::BadLayer { layer: 1 })
    );
}

#[test]
fn layers_that_do_not_fit_are_refused_when_read() {
    let value =
        read_toml("layer0 = [[1.0, 2.0], [0.0, 0.0]]\nlayer1 = [[1.0, 2.0, 3.0], [0.0]]")
            .ok()
            .unwrap();
    assert_eq!(
        Network::from_toml(&value).err(),
        Some(ConfigError::Shape(ShapeError::WeightsMismatch { layer: 1 }))
    );
    let value = read_toml("layer0 = [[1.0, 2.0], [0.0]]\nlayer1 = [[1.0, 2.0], [0.0]]")
        .ok()
        .unwrap();
    assert_eq!(
        Network::from_toml(&value).err(),
        Some(ConfigError::Shape(ShapeError::BiasMismatch { layer: 0 }))
    );
}
