//! Sets and maps.

use floresta_db::allocator::{AllocatorFiles, BlockAllocator};
use floresta_db::database::RuntimeFiles;
use floresta_db::layout::{
    DATA_START, FORMAT_PAGE_SIZE, HEADS_START, NODE_POINTER_OFFSET, NODE_SIZE, VALUE_BLOB_TAG,
};
use floresta_db::node::{read_node, Node};
use floresta_db::prepared::prepare;
use floresta_db::{xxh64, Config, Database, Error, Mode, PutResult, KEY_SIZE};

fn fixed_key(input: &[u8]) -> [u8; KEY_SIZE] {
    let mut key = [0_u8; KEY_SIZE];
    let length = input.len().min(KEY_SIZE);
    key[..length].copy_from_slice(&input[..length]);
    key
}

fn config(mode: Mode, buckets: u64) -> Config {
    let mut config = Config::new(mode, buckets);
    config.block_size = 64 * 1_024;
    config.body_capacity = config.block_size * 8;
    config.blob_capacity = if mode == Mode::KeyMap {
        config.block_size * 8
    } else {
        0
    };
    config
}

fn slices(keys: &[[u8; KEY_SIZE]]) -> Vec<&[u8]> {
    keys.iter().map(|key| key.as_slice()).collect()
}

/// The root of a bucket in closed files.
fn root(files: &RuntimeFiles, bucket: u64) -> u64 {
    let at = (HEADS_START + 8 * bucket) as usize;
    u64::from_le_bytes(files.heads[at..at + 8].try_into().unwrap())
}

/// The body of closed files.
fn body(files: &RuntimeFiles, config: &Config) -> Result<BlockAllocator, Error> {
    let copy = AllocatorFiles {
        data: files.body.data.clone(),
        counts: files.body.counts.clone(),
    };
    BlockAllocator::open(copy, config.body_capacity, config.block_size)
}

/// The nodes of a bucket in closed files, newest first.
fn chain(files: &RuntimeFiles, config: &Config, bucket: u64) -> Result<Vec<Node>, Error> {
    let body = body(files, config)?;
    let mut nodes = Vec::new();
    let mut offset = root(files, bucket);
    while offset != 0 {
        let node = read_node(&body, offset)?;
        offset = node.next;
        nodes.push(node);
    }
    Ok(nodes)
}

#[test]
fn inserts_replaces_and_deletes_colliding_map_keys() -> Result<(), Error> {
    let mut database = Database::create(config(Mode::KeyMap, 1))?;
    let first = fixed_key(b"key1");
    let second = fixed_key(b"key2");
    let missing = fixed_key(b"none");
    assert_eq!(database.put(&first, b"first")?, PutResult::Inserted);
    assert_eq!(database.put(&second, b"second")?, PutResult::Inserted);
    assert_eq!(database.put(&first, b"new")?, PutResult::Replaced);
    assert_eq!(database.get(&first)?, Some(b"new".to_vec()));
    assert_eq!(database.get(&second)?, Some(b"second".to_vec()));
    assert!(database.delete(&first)?);
    assert_eq!(database.get(&first)?, None);
    assert_eq!(database.get(&second)?, Some(b"second".to_vec()));
    assert!(!database.delete(&missing)?);
    Ok(())
}

#[test]
fn supports_concurrent_set_writers() -> Result<(), Error> {
    let mut database = Database::create(config(Mode::KeySet, 16))?;
    for item in 0_u64..64 {
        for writer in 0_u64..8 {
            let key = fixed_key(&(writer * 64 + item).to_le_bytes());
            assert!(database.add(&key).is_ok());
        }
    }
    for value in 0_u64..512 {
        assert!(database.contains(&fixed_key(&value.to_le_bytes()))?);
    }
    Ok(())
}

#[test]
fn serializes_concurrent_deleters_per_bucket() -> Result<(), Error> {
    let mut database = Database::create(config(Mode::KeySet, 1))?;
    let keys: Vec<[u8; KEY_SIZE]> = (0_u64..512)
        .map(|value| fixed_key(&value.to_le_bytes()))
        .collect();
    assert_eq!(database.add_batch(&slices(&keys))?, keys.len());
    for chunk in keys.chunks(64) {
        let result = database.batch_delete(&slices(chunk));
        assert!(matches!(result, Ok(deleted) if deleted.iter().all(|value| *value)));
    }
    for key in &keys {
        assert!(!database.contains(key)?);
    }
    Ok(())
}

#[test]
fn set_adds_retain_duplicates() -> Result<(), Error> {
    let mut database = Database::create(config(Mode::KeySet, 1))?;

    let same = fixed_key(b"same-key");
    let batch_key = fixed_key(b"batchkey");
    assert_eq!(database.add(&same)?, PutResult::Inserted);
    assert_eq!(database.add(&same)?, PutResult::Inserted);
    let batch = [batch_key.as_slice(), batch_key.as_slice()];
    assert_eq!(database.add_batch(&batch)?, 2);

    assert!(database.delete(&same)?);
    assert!(database.contains(&same)?);
    assert!(database.delete(&same)?);
    assert!(!database.contains(&same)?);
    assert!(database.delete(&batch_key)?);
    assert!(database.contains(&batch_key)?);
    assert!(database.delete(&batch_key)?);
    assert!(!database.contains(&batch_key)?);
    Ok(())
}

#[test]
fn prepares_batches_by_ascending_bucket_and_input_order() -> Result<(), Error> {
    let config = config(Mode::KeySet, 8);
    let keys: Vec<[u8; KEY_SIZE]> = (0_u64..64)
        .map(|value| fixed_key(&value.to_le_bytes()))
        .rev()
        .collect();
    let prepared = prepare(&config, &slices(&keys), false)?;
    assert_eq!(prepared.len(), 64);
    for pair in prepared.windows(2) {
        assert!(pair[0].bucket <= pair[1].bucket);
        if pair[0].bucket == pair[1].bucket {
            assert!(pair[0].order < pair[1].order);
        }
    }

    let prepared_keys = prepare(&config, &slices(&keys), true)?;
    for pair in prepared_keys.windows(2) {
        assert!(pair[0].bucket <= pair[1].bucket);
        if pair[0].bucket == pair[1].bucket {
            assert!(pair[0].rank <= pair[1].rank);
        }
    }
    for item in &prepared_keys {
        assert_eq!(item.rank, xxh64(&keys[item.order], config.hash_seed));
        assert_eq!(item.bucket, item.rank % 8);
    }
    Ok(())
}

#[test]
fn batch_prelinks_collisions_and_retains_duplicate_values() -> Result<(), Error> {
    let config = config(Mode::KeyMap, 1);
    let mut database = Database::create(config)?;
    database.put(&fixed_key(b"key-000A-0000000"), b"value-a")?;

    let entries = [
        (b"key-000B-0000000".as_slice(), b"value-b".as_slice()),
        (b"key-000C-0000000".as_slice(), b"value-c".as_slice()),
    ];
    assert_eq!(database.write_only()?.put_batch(&entries)?, 2);

    let files = database.close()?;
    let nodes = chain(&files, &config, 0)?;
    assert_eq!(nodes[0].key, *b"key-000C-0000000");
    assert_eq!(nodes[1].key, *b"key-000B-0000000");
    assert_eq!(nodes[2].key, *b"key-000A-0000000");
    let mut database = Database::open_runtime(files)?;

    let duplicates = [
        (b"same-key-0000000".as_slice(), b"first".as_slice()),
        (b"same-key-0000000".as_slice(), b"second".as_slice()),
    ];
    assert_eq!(database.write_only()?.put_batch(&duplicates)?, 2);
    assert_eq!(database.get(b"same-key-0000000")?, Some(b"second".to_vec()));
    assert!(database.delete(b"same-key-0000000")?);
    assert_eq!(database.get(b"same-key-0000000")?, Some(b"first".to_vec()));
    Ok(())
}

#[test]
fn batch_fetch_restores_input_order_across_buckets() -> Result<(), Error> {
    let mut database = Database::create(config(Mode::KeyMap, 8))?;
    let entries: Vec<([u8; KEY_SIZE], [u8; 8])> = (0_u64..8)
        .map(|value| (fixed_key(&value.to_le_bytes()), (value + 100).to_le_bytes()))
        .collect();
    let pairs: Vec<(&[u8], &[u8])> = entries
        .iter()
        .map(|(key, value)| (key.as_slice(), value.as_slice()))
        .collect();
    assert_eq!(database.write_only()?.put_batch(&pairs)?, entries.len());

    let missing = [255_u8; KEY_SIZE];
    let queries = [
        entries[5].0.as_slice(),
        missing.as_slice(),
        entries[1].0.as_slice(),
        entries[5].0.as_slice(),
        entries[7].0.as_slice(),
    ];
    let values = database.batch_fetch(&queries)?;
    assert_eq!(values[0], Some(entries[5].1.to_vec()));
    assert_eq!(values[1], None);
    assert_eq!(values[2], Some(entries[1].1.to_vec()));
    assert_eq!(values[3], Some(entries[5].1.to_vec()));
    assert_eq!(values[4], Some(entries[7].1.to_vec()));
    Ok(())
}

#[test]
fn concurrent_insert_only_puts_publish_once_without_replacement() -> Result<(), Error> {
    let mut database = Database::create(config(Mode::KeyMap, 1))?;
    let mut inserted = 0;
    for value in 0_u64..8 {
        if database
            .put_new(&fixed_key(b"same-key"), &value.to_le_bytes())
            .unwrap_or(false)
        {
            inserted += 1;
        }
    }
    assert_eq!(inserted, 1);
    let expected = database
        .get(&fixed_key(b"same-key"))?
        .ok_or(Error::Corrupt("insert-only key is missing"))?;
    assert!(!database.put_new(&fixed_key(b"same-key"), b"ignored")?);
    let files = database.close()?;
    let reopened = Database::open_runtime(files)?;
    assert_eq!(reopened.get(&fixed_key(b"same-key"))?, Some(expected));
    Ok(())
}

#[test]
fn write_only_automatically_inlines_values_across_reopen() -> Result<(), Error> {
    let mut database = Database::create(config(Mode::KeyMap, 16))?;
    let entries: Vec<([u8; KEY_SIZE], [u8; 8])> = (0_u64..128)
        .map(|value| (fixed_key(&value.to_le_bytes()), (value * 2).to_le_bytes()))
        .collect();
    let pairs: Vec<(&[u8], &[u8])> = entries
        .iter()
        .map(|(key, value)| (key.as_slice(), value.as_slice()))
        .collect();
    let mut writer = database.write_only()?;
    assert_eq!(writer.put_batch(&pairs)?, entries.len());
    assert_eq!(
        database.blob_file().map(|bytes| bytes.len() as u64),
        Some(FORMAT_PAGE_SIZE)
    );
    let files = database.close()?;
    let reopened = Database::open_runtime(files)?;
    for value in 0_u64..128 {
        assert_eq!(
            reopened.get(&fixed_key(&value.to_le_bytes()))?,
            Some((value * 2).to_le_bytes().to_vec())
        );
    }
    Ok(())
}

#[test]
fn tagged_or_non_eight_byte_values_fall_back_to_blobs() -> Result<(), Error> {
    let config = config(Mode::KeyMap, 8);
    let mut database = Database::create(config)?;
    let tagged_key = fixed_key(b"tagged");
    let short_key = fixed_key(b"short");
    let tagged = [0, 0, 0, 0, 0, 0, 0, 0x80];
    database.put(&tagged_key, &tagged)?;
    database.put(&short_key, b"short")?;
    let files = database.close()?;
    for key in [tagged_key, short_key] {
        let bucket = xxh64(&key, config.hash_seed) % config.bucket_count;
        let nodes = chain(&files, &config, bucket)?;
        let node = nodes
            .iter()
            .find(|node| node.key == key)
            .ok_or(Error::Corrupt("automatic blob test node is missing"))?;
        assert_ne!(node.value & VALUE_BLOB_TAG, 0);
    }
    let database = Database::open_runtime(files)?;
    assert_eq!(database.get(&tagged_key)?, Some(tagged.to_vec()));
    assert_eq!(database.get(&short_key)?, Some(b"short".to_vec()));
    Ok(())
}

#[test]
fn deletion_reuses_zero_count_page_before_growing_body() -> Result<(), Error> {
    let mut test_config = config(Mode::KeySet, 1);
    test_config.block_size = FORMAT_PAGE_SIZE;
    test_config.body_capacity = FORMAT_PAGE_SIZE * 2;
    let mut database = Database::create(test_config)?;
    let keys: Vec<[u8; KEY_SIZE]> = (0_u64..4_096)
        .map(|value| fixed_key(&value.to_le_bytes()))
        .collect();
    assert_eq!(database.add_batch(&slices(&keys))?, keys.len());
    let grown_length = database.body_file().len();

    let deleted = database.batch_delete(&slices(&keys[..2_048]))?;
    assert!(deleted.iter().all(|value| *value));
    let replacement = fixed_key(&4_096_u64.to_le_bytes());
    database.add(&replacement)?;
    assert_eq!(database.body_file().len(), grown_length);
    let files = database.close()?;
    let newest = root(&files, 0);
    let body = body(&files, &test_config)?;
    assert_eq!(read_node(&body, newest)?.key, replacement);
    let allocation = body.allocation_for(newest, NODE_SIZE as u32)?;
    assert_eq!(allocation.block, 0);
    Ok(())
}

#[test]
fn batch_delete_stops_after_last_match() -> Result<(), Error> {
    let config = config(Mode::KeySet, 1);
    let mut database = Database::create(config)?;
    let older = fixed_key(&1_u64.to_le_bytes());
    let newest = fixed_key(&2_u64.to_le_bytes());
    database.add(&older)?;
    database.add(&newest)?;

    let mut files = database.close()?;
    let nodes = chain(&files, &config, 0)?;
    assert_eq!(nodes[0].key, newest);
    assert_eq!(nodes[1].key, older);
    let at = nodes[1].offset as usize + NODE_POINTER_OFFSET;
    files.body.data[at..at + 8].copy_from_slice(&1_u64.to_le_bytes());
    let mut database = Database::open_runtime(files)?;
    assert_eq!(database.batch_delete(&[newest.as_slice()])?, vec![true]);
    let at = nodes[0].offset as usize + NODE_POINTER_OFFSET;
    assert_eq!(database.body_file()[at..at + 8], [0_u8; 8]);
    Ok(())
}

#[test]
fn batch_delete_preserves_result_order() -> Result<(), Error> {
    let mut database = Database::create(config(Mode::KeySet, 1))?;
    let first = fixed_key(b"first");
    let second = fixed_key(b"second");
    let third = fixed_key(b"third");
    let missing = fixed_key(b"missing");
    database.add_batch(&[first.as_slice(), second.as_slice(), third.as_slice()])?;

    assert!(matches!(
        database.batch_delete(&[first.as_slice(), first.as_slice()]),
        Err(Error::InvalidConfig(_))
    ));
    assert_eq!(
        database.batch_delete(&[second.as_slice(), missing.as_slice(), first.as_slice()])?,
        vec![true, false, true]
    );
    assert!(!database.contains(&first)?);
    assert!(!database.contains(&second)?);
    assert!(database.contains(&third)?);
    Ok(())
}

#[test]
fn batch_pop_returns_blob_values_in_input_order() -> Result<(), Error> {
    let mut database = Database::create(config(Mode::KeyMap, 8))?;
    let first = fixed_key(b"first");
    let second = fixed_key(b"second");
    let third = fixed_key(b"third");
    let missing = fixed_key(b"missing");
    database.put(&first, b"first-value")?;
    database.put(&second, b"second-value")?;
    database.put(&third, b"third-value")?;

    let popped = database.batch_pop(&[
        third.as_slice(),
        missing.as_slice(),
        first.as_slice(),
        second.as_slice(),
    ])?;
    assert_eq!(
        popped,
        vec![
            Some(b"third-value".to_vec()),
            None,
            Some(b"first-value".to_vec()),
            Some(b"second-value".to_vec()),
        ]
    );
    assert_eq!(
        database.batch_fetch(&[first.as_slice(), second.as_slice(), third.as_slice()])?,
        vec![None, None, None]
    );
    Ok(())
}

#[test]
fn operations_belong_to_one_mode() -> Result<(), Error> {
    let key = fixed_key(b"key");
    let mut set = Database::create(config(Mode::KeySet, 4))?;
    assert!(matches!(set.put(&key, b"v"), Err(Error::Unsupported(_))));
    assert!(matches!(set.put_new(&key, b"v"), Err(Error::Unsupported(_))));
    assert!(matches!(set.get(&key), Err(Error::Unsupported(_))));
    assert!(matches!(
        set.batch_fetch(&[key.as_slice()]),
        Err(Error::Unsupported(_))
    ));
    assert!(matches!(
        set.batch_pop(&[key.as_slice()]),
        Err(Error::Unsupported(_))
    ));
    assert!(matches!(set.write_only(), Err(Error::Unsupported(_))));
    assert!(set.blob_file().is_none());
    assert!(set.blob_count_file().is_none());

    let mut map = Database::create(config(Mode::KeyMap, 4))?;
    assert!(matches!(map.add(&key), Err(Error::Unsupported(_))));
    assert!(matches!(
        map.add_batch(&[key.as_slice()]),
        Err(Error::Unsupported(_))
    ));
    Ok(())
}

#[test]
fn keys_have_one_width() -> Result<(), Error> {
    let mut map = Database::create(config(Mode::KeyMap, 4))?;
    assert!(matches!(
        map.put(b"short", b"value"),
        Err(Error::InvalidKeyLength {
            expected: 16,
            actual: 5
        })
    ));
    assert!(matches!(
        map.get(&[0; 36]),
        Err(Error::InvalidKeyLength {
            expected: 16,
            actual: 36
        })
    ));
    assert!(map.delete(b"").is_err());
    assert!(map.contains(b"").is_err());
    assert!(map
        .batch_fetch(&[[0_u8; 16].as_slice(), b"x".as_slice()])
        .is_err());
    Ok(())
}

#[test]
fn a_full_map_refuses_and_keeps_its_entries() -> Result<(), Error> {
    let mut small = config(Mode::KeyMap, 4);
    small.body_capacity = small.block_size;
    let mut map = Database::create(small)?;
    for value in 0_u64..2_048 {
        map.put(&fixed_key(&value.to_le_bytes()), &value.to_le_bytes())?;
    }
    let last = fixed_key(&2_048_u64.to_le_bytes());
    assert!(matches!(
        map.put(&last, &[0; 8]),
        Err(Error::CapacityExhausted(_))
    ));
    for value in 0_u64..2_048 {
        assert_eq!(
            map.get(&fixed_key(&value.to_le_bytes()))?,
            Some(value.to_le_bytes().to_vec())
        );
    }
    assert_eq!(map.get(&last)?, None);
    Ok(())
}

#[test]
fn empty_values_and_empty_batches_are_fine() -> Result<(), Error> {
    let mut map = Database::create(config(Mode::KeyMap, 4))?;
    let key = fixed_key(b"empty");
    assert_eq!(map.put(&key, b"")?, PutResult::Inserted);
    assert_eq!(map.get(&key)?, Some(Vec::new()));
    assert_eq!(map.write_only()?.put_batch(&[])?, 0);
    assert_eq!(map.batch_delete(&[])?, Vec::<bool>::new());
    assert_eq!(map.batch_fetch(&[])?, Vec::new());
    Ok(())
}

#[test]
fn a_new_database_has_the_documented_files() -> Result<(), Error> {
    let map = Database::create(config(Mode::KeyMap, 8))?;
    assert_eq!(map.body_file().len() as u64, DATA_START);
    assert_eq!(map.body_count_file().len() as u64, FORMAT_PAGE_SIZE);
    assert_eq!(map.blob_file().map(|bytes| bytes.len() as u64), Some(DATA_START));
    assert_eq!(
        map.blob_count_file().map(|bytes| bytes.len() as u64),
        Some(FORMAT_PAGE_SIZE)
    );
    assert_eq!(map.heads_file().len() as u64, HEADS_START + 3 * FORMAT_PAGE_SIZE);
    assert!(map.bank_files(0).is_none());
    assert!(map.bank_files(1).is_none());
    Ok(())
}

/// A map with one bucket whose chain runs in a circle: `older` points back to `newest`.
fn circular_map(newest: &[u8], older: &[u8]) -> Result<Database, Error> {
    let config = config(Mode::KeyMap, 1);
    let mut database = Database::create(config)?;
    database.put(older, b"8 bytes!")?;
    database.put(newest, b"a value in a blob of its own")?;
    let mut files = database.close()?;
    let nodes = chain(&files, &config, 0)?;
    let at = nodes[1].offset as usize + NODE_POINTER_OFFSET;
    let word = u64::from_le_bytes(files.body.data[at..at + 8].try_into().unwrap());
    files.body.data[at..at + 8].copy_from_slice(&(word + nodes[0].offset).to_le_bytes());
    Database::open_runtime(files)
}

#[test]
fn batches_stop_at_a_damaged_chain() -> Result<(), Error> {
    let newest = fixed_key(b"newest");
    let older = fixed_key(b"older");
    let absent = fixed_key(b"absent");
    let mut database = circular_map(&newest, &older)?;
    assert!(matches!(
        database.batch_fetch(&[newest.as_slice(), absent.as_slice()]),
        Err(Error::Corrupt("body chain contains a cycle"))
    ));
    assert!(matches!(
        database.batch_delete(&[absent.as_slice()]),
        Err(Error::Corrupt("body chain contains a cycle"))
    ));
    assert!(matches!(
        database.checkpoint(),
        Err(Error::Corrupt("body chain contains a cycle"))
    ));
    assert_eq!(
        database.batch_fetch(&[older.as_slice(), newest.as_slice()])?,
        vec![
            Some(b"8 bytes!".to_vec()),
            Some(b"a value in a blob of its own".to_vec())
        ]
    );

    assert!(matches!(
        database.batch_pop(&[newest.as_slice(), absent.as_slice()]),
        Err(Error::Corrupt("body chain contains a cycle"))
    ));
    assert!(database.contains(&older)?);
    assert!(database.contains(&newest).is_err());
    Ok(())
}

#[test]
fn batches_are_put_in_front_of_a_damaged_chain() -> Result<(), Error> {
    let newest = fixed_key(b"newest");
    let older = fixed_key(b"older");
    let absent = fixed_key(b"absent");
    let mut database = circular_map(&newest, &older)?;
    let mut writer = database.write_only()?;
    assert_eq!(
        writer.put_batch(&[(absent.as_slice(), b"one".as_slice())])?,
        1
    );
    assert_eq!(database.get(&absent)?, Some(b"one".to_vec()));
    assert_eq!(database.batch_delete(&[absent.as_slice()])?, vec![true]);
    assert!(database.contains(&absent).is_err());
    Ok(())
}

#[test]
fn popped_nodes_leave_even_where_a_value_is_damaged() -> Result<(), Error> {
    let config = config(Mode::KeyMap, 1);
    let mut database = Database::create(config)?;
    let key = fixed_key(b"damaged");
    database.put(&key, b"a value in a blob of its own")?;
    let mut files = database.close()?;
    let word = chain(&files, &config, 0)?[0].value;
    let blobs = files.blobs.as_mut().unwrap();
    blobs.data[(word - VALUE_BLOB_TAG) as usize + 8] ^= 1;
    let mut database = Database::open_runtime(files)?;
    assert!(matches!(
        database.batch_pop(&[key.as_slice()]),
        Err(Error::Corrupt(_))
    ));
    assert!(!database.contains(&key)?);
    Ok(())
}
