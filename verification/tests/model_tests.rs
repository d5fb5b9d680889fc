use learned_index_structures::model::Model;

struct Halves;

impl Model<u32, u32> for Halves {
    fn eval(&self, key: u32) -> Option<u32> {
        if key % 2 == 0 {
            Some(key / 2)
        } else {
            None
        }
    }
}

#[test]
fn the_batch_asks_key_by_key_in_order() {
    let model = Halves;
    let keys = [4u32, 5, 6];
    let mut indices = [Some(9u32); 4];
    model.eval_many(&keys, &mut indices);
    assert_eq!(indices, [Some(2), None, Some(3), Some(9)]);
}

#[test]
fn the_batch_of_no_keys_writes_nothing() {
    let model = Halves;
    let keys: [u32; 0] = [];
    let mut indices = [Some(1u32), None];
    model.eval_many(&keys, &mut indices);
    assert_eq!(indices, [Some(1), None]);
}
