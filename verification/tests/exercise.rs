//! Runs against the model.

use floresta_db::exercise::{
    apply, compare_value, ensure_equal, exercise, exercise_random, fixed_key, verify_model,
    ExerciseError, Model, Operation, XorShift64, MAX_OPERATIONS, RECORD_BYTES,
};
use floresta_db::{Config, Database, Mode};

fn record(selector: u8, key: u64, value: u64) -> Vec<u8> {
    let mut bytes = vec![selector];
    bytes.extend_from_slice(&key.to_le_bytes());
    bytes.extend_from_slice(&value.to_le_bytes());
    assert_eq!(bytes.len(), RECORD_BYTES);
    bytes
}

#[test]
fn generates_the_documented_sequence() {
    let mut random = XorShift64::new(1);
    assert_eq!(random.next(), 0x4082_2041);
    assert_eq!(random.next(), 0x1000_4106_0c01_1441);
    assert_eq!(XorShift64::new(0).state, 0x9e37_79b9_7f4a_7c15);
}

#[test]
fn a_model_is_a_map() {
    let mut model = Model::new();
    assert_eq!(model.get(1), None);
    model.insert(1, 10);
    model.insert(2, 20);
    model.insert(1, 11);
    assert_eq!(model.get(1), Some(11));
    assert_eq!(model.get(2), Some(20));
    assert!(model.remove(1));
    assert!(!model.remove(1));
    assert_eq!(model.get(1), None);
    assert_eq!(model.entries.len(), 1);
}

#[test]
fn an_input_leaves_what_its_operations_say() {
    let mut input = Vec::new();
    input.extend(record(0, 1, 100));
    input.extend(record(1, 1, 200));
    input.extend(record(1, 2, u64::MAX));
    input.extend(record(3, 1, 0));
    input.extend(record(4, 9, 0));
    input.extend(record(5, 0, 0));
    input.extend(record(2, 1, 0));
    input.extend(record(2, 1, 0));
    input.extend(record(6, 0, 0));
    input.extend(record(7, 3, 300));
    input.extend(record(12, 0, 0));
    input.extend_from_slice(&[0; 16]);
    let model = exercise(&input).unwrap();
    assert_eq!(model.entries.len(), 2);
    assert_eq!(model.get(1), None);
    assert_eq!(model.get(2), Some(u64::MAX));
    assert_eq!(model.get(3), Some(300));
}

#[test]
fn long_inputs_are_cut() {
    let mut input = Vec::new();
    for key in 0..MAX_OPERATIONS as u64 {
        input.extend(record(0, key, key));
    }
    input.extend(record(0, 5_000, 1));
    let model = exercise(&input).unwrap();
    assert_eq!(model.entries.len(), MAX_OPERATIONS);
    assert_eq!(model.get(5_000), None);
    assert_eq!(exercise(b"").unwrap().entries.len(), 0);
}

#[test]
fn random_runs_agree_with_the_model() {
    for seed in [0, 1, 7] {
        let model = exercise_random(seed, 2_000).unwrap();
        assert!(!model.entries.is_empty());
    }
}

#[test]
fn differences_are_reported() {
    assert!(compare_value(3, &None, None).is_ok());
    assert!(compare_value(3, &Some(7_u64.to_le_bytes().to_vec()), Some(7)).is_ok());
    let error = compare_value(3, &Some(vec![7]), Some(7)).unwrap_err();
    assert_eq!(
        error.message(),
        "operation 3: lookup result differs from the reference model"
    );
    assert!(compare_value(3, &None, Some(7)).is_err());
    assert!(ensure_equal(4, "delete result", true, true).is_ok());
    assert!(matches!(
        ensure_equal(4, "delete result", true, false),
        Err(ExerciseError::Mismatch {
            step: 4,
            operation: "delete result"
        })
    ));
}

#[test]
fn a_full_database_ends_a_run() {
    let mut config = Config::new(Mode::KeyMap, 4);
    config.block_size = 1 << 16;
    config.body_capacity = 1 << 16;
    config.blob_capacity = 1 << 16;
    let mut database = Database::create(config).unwrap();
    let mut model = Model::new();
    let mut refused = None;
    for step in 0..3_000 {
        match apply(database, &mut model, Operation::Put(step, step), step) {
            Ok(next) => database = next,
            Err(error) => {
                refused = Some((step, error.message()));
                break;
            }
        }
    }
    let (step, text) = refused.unwrap();
    assert_eq!(step, 2_048);
    assert!(text.ends_with(" capacity exhausted"));
}

#[test]
fn a_model_is_read_back() {
    let mut config = Config::new(Mode::KeyMap, 4);
    config.block_size = 1 << 16;
    config.body_capacity = 1 << 16;
    config.blob_capacity = 1 << 16;
    let mut database = Database::create(config).unwrap();
    let mut model = Model::new();
    model.insert(5, 50);
    assert!(verify_model(1, &database, &model).is_err());
    database
        .put(&fixed_key(5), &50_u64.to_le_bytes())
        .unwrap();
    assert!(verify_model(1, &database, &model).is_ok());
    assert_eq!(fixed_key(258)[..3], [2, 1, 0]);
}

#[test]
fn an_input_of_the_greatest_length_finds_room() {
    let mut input = Vec::new();
    for step in 0..1_030_u64 {
        match step % 8 {
            6 => input.extend(record(2, step - 1, 0)),
            7 if step % 64 == 63 => input.extend(record(5, 0, 0)),
            _ => input.extend(record(0, step, u64::MAX - step)),
        }
    }
    let model = exercise(&input).unwrap();
    assert_eq!(model.get(0), Some(u64::MAX));
    assert_eq!(model.get(5), None);
    assert_eq!(model.get(1_023), None);
    assert_eq!(model.get(1_022), None);
    assert_eq!(model.get(1_020), Some(u64::MAX - 1_020));
    assert_eq!(model.get(1_024), None);
}

#[test]
fn a_model_is_walked_in_the_order_of_its_keys() {
    let mut model = Model::new();
    model.insert(9, 1);
    model.insert(2, 2);
    let keys: Vec<u64> = model.entries.keys().copied().collect();
    assert_eq!(keys, vec![2, 9]);
}
