//! Configurations, layout rules and error texts.

use floresta_db::layout::{
    align_up, NODE_ALIGNMENT, NODE_POINTER_OFFSET, NODE_SIZE, NODE_SIZE_U64,
};
use floresta_db::{
    Config, Database, Error, Mode, DEFAULT_HASH_SEED, KEY_SIZE, MAX_INLINE_VALUE_SIZE,
};

#[test]
fn validates_default_map_configuration() -> Result<(), Error> {
    Config::new(Mode::KeyMap, 1_024).validate()
}

#[test]
fn rejects_blob_capacity_for_set() {
    let mut config = Config::new(Mode::KeySet, 1);
    config.blob_capacity = 4_096;
    assert!(matches!(config.validate(), Err(Error::InvalidConfig(_))));
}

#[test]
fn uses_fixed_cache_aligned_node_size() {
    assert_eq!(NODE_SIZE, 32);
    assert_eq!(NODE_SIZE_U64, 32);
}

#[test]
fn aligns_without_overflow() {
    assert_eq!(align_up(0, 8), Some(0));
    assert_eq!(align_up(1, 8), Some(8));
    assert_eq!(align_up(8, 8), Some(8));
    assert_eq!(align_up(u64::MAX, 8), None);
    assert_eq!(align_up(1, 3), None);
}

#[test]
fn packs_two_aligned_nodes_per_cache_line() {
    assert_eq!(NODE_SIZE, 32);
    assert_eq!(NODE_ALIGNMENT, 32);
    assert_eq!(NODE_POINTER_OFFSET, 24);
}

#[test]
fn has_documented_defaults() {
    assert_eq!(DEFAULT_HASH_SEED, 0);
    assert_eq!(KEY_SIZE, 16);
    assert_eq!(MAX_INLINE_VALUE_SIZE, 8);
    let set = Config::new(Mode::KeySet, 4_096);
    assert_eq!(set.bucket_count, 4_096);
    assert_eq!(set.blob_capacity, 0);
    assert_eq!(set.body_capacity, 1 << 30);
    assert_eq!(set.block_size, 1 << 20);
    let map = Config::new(Mode::KeyMap, 1_024);
    assert_ne!(set.mode, map.mode);
    assert_eq!(map.blob_capacity, 1 << 30);
}

fn defect(change: fn(&mut Config)) -> String {
    let mut config = Config::new(Mode::KeyMap, 1_024);
    change(&mut config);
    match config.validate() {
        Ok(()) => String::new(),
        Err(error) => error.message(),
    }
}

#[test]
fn names_every_broken_rule() {
    let rules: [(fn(&mut Config), &str); 8] = [
        (|config| config.bucket_count = 0, "bucket count must be nonzero"),
        (|config| config.body_capacity = 0, "body capacity must be nonzero"),
        (
            |config| config.body_capacity = 1 << 48,
            "body capacity exceeds the packed node-pointer range",
        ),
        (
            |config| config.blob_capacity = 0,
            "map mode requires nonzero fallback blob capacity",
        ),
        (
            |config| config.block_size = 4_096,
            "block size must be a power of two no smaller than 65536",
        ),
        (
            |config| config.block_size = 1 << 32,
            "block size must fit in 32 bits",
        ),
        (
            |config| config.body_capacity = (1 << 20) + 1,
            "body capacity must be block aligned",
        ),
        (
            |config| config.blob_capacity = (1 << 20) + 1,
            "blob capacity must be block aligned",
        ),
    ];
    for (change, rule) in rules {
        assert_eq!(defect(change), format!("invalid configuration: {rule}"));
    }
    assert_eq!(defect(|config| config.hash_seed = 7), "");
}

#[test]
fn describes_every_error() {
    let io = std::io::Error::new(std::io::ErrorKind::Other, "no disk");
    assert_eq!(Error::from(io).message(), "I/O error: no disk");
    assert_eq!(
        Error::InvalidKeyLength {
            expected: 16,
            actual: 1_048_576
        }
        .message(),
        "invalid key length: expected 16, got 1048576"
    );
    assert_eq!(Error::OutOfMemory.message(), "memory allocation failed");
    assert_eq!(
        Error::CapacityExhausted("body").message(),
        "body capacity exhausted"
    );
    assert_eq!(Error::Corrupt("x").message(), "database is corrupt: x");
    assert_eq!(Error::Busy("x").message(), "database is busy: x");
    assert_eq!(Error::Closed.message(), "database is closed");
    assert_eq!(Error::Unsupported("x").message(), "unsupported operation: x");
}

#[test]
fn create_rejects_an_invalid_configuration() {
    let mut config = Config::new(Mode::KeySet, 16);
    config.block_size = 1 << 10;
    assert!(matches!(
        Database::create(config),
        Err(Error::InvalidConfig(_))
    ));
}

#[test]
fn rejects_layouts_that_no_file_can_have() {
    let mut config = Config::new(Mode::KeyMap, u64::MAX);
    assert!(matches!(config.validate(), Err(Error::InvalidConfig(_))));
    assert!(matches!(
        Database::create(config),
        Err(Error::InvalidConfig(_))
    ));
    config = Config::new(Mode::KeyMap, 1_024);
    config.blob_capacity = u64::MAX / config.block_size * config.block_size;
    assert!(matches!(config.validate(), Err(Error::InvalidConfig(_))));
    config.blob_capacity = 1 << 30;
    config.body_capacity = u64::MAX / config.block_size * config.block_size;
    assert!(matches!(config.validate(), Err(Error::InvalidConfig(_))));
}
