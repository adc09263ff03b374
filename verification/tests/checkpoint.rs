//! Checkpoints, recovery and closed files.

use floresta_db::allocator::{AllocatorFiles, BlockAllocator};
use floresta_db::bytes::{overwrite, read_le64};
use floresta_db::database::checkpoint::CheckpointFiles;
use floresta_db::database::SnapshotFiles;
use floresta_db::header::{header_checksum, snapshot_bank_start};
use floresta_db::layout::{BLOB_HEADER_SIZE, VALUE_BLOB_TAG};
use floresta_db::manifest::{manifest_checksum, manifest_offset};
use floresta_db::node::{decode_blob_header, read_node};
use floresta_db::{xxh64, Config, Database, Error, Mode, PutResult, KEY_SIZE};

fn fixed_key(input: &[u8]) -> [u8; KEY_SIZE] {
    let mut key = [0_u8; KEY_SIZE];
    let length = input.len().min(KEY_SIZE);
    key[..length].copy_from_slice(&input[..length]);
    key
}

fn test_config() -> Config {
    let mut config = Config::new(Mode::KeyMap, 8);
    config.block_size = 64 * 1_024;
    config.body_capacity = config.block_size * 8;
    config.blob_capacity = config.block_size * 8;
    config
}

fn reopen(database: Database) -> Result<Database, Error> {
    Database::open(database.into_checkpoint_files())
}

#[test]
fn grows_closed_runtime_body_with_stable_offsets() -> Result<(), Error> {
    let config = test_config();
    let block_size = config.block_size;
    let mut database = Database::create(config)?;
    database.put(&fixed_key(b"firstkey"), b"one")?;
    let mut files = database.close()?;

    let counts = files.body.counts.clone();
    assert!(Database::ensure_runtime_body_headroom(
        &mut files.heads,
        &counts,
        block_size * 16
    )?);
    assert!(!Database::ensure_runtime_body_headroom(
        &mut files.heads,
        &counts,
        block_size * 16
    )?);
    let mut database = Database::open_runtime(files)?;
    assert_eq!(
        database.get(&fixed_key(b"firstkey"))?,
        Some(b"one".to_vec())
    );
    database.put(&fixed_key(b"secondky"), b"two")?;
    assert_eq!(
        database.get(&fixed_key(b"secondky"))?,
        Some(b"two".to_vec())
    );
    database.close()?;
    Ok(())
}

#[test]
fn headroom_must_be_nonzero_and_representable() -> Result<(), Error> {
    let mut files = Database::create(test_config())?.close()?;
    let counts = files.body.counts.clone();
    assert!(matches!(
        Database::ensure_runtime_body_headroom(&mut files.heads, &counts, 0),
        Err(Error::InvalidConfig("runtime body headroom must be nonzero"))
    ));
    assert!(matches!(
        Database::ensure_runtime_body_headroom(&mut files.heads, &counts, u64::MAX),
        Err(Error::InvalidConfig("runtime body headroom overflow"))
    ));
    Ok(())
}

#[test]
fn reopens_the_latest_complete_checkpoint() -> Result<(), Error> {
    let mut database = Database::create(test_config())?;
    assert_eq!(
        database.put(&fixed_key(b"firstkey"), b"one")?,
        PutResult::Inserted
    );
    assert_eq!(database.checkpoint()?, 1);
    database.put(&fixed_key(b"firstkey"), b"two")?;
    database.put(&fixed_key(b"secondky"), b"second")?;
    assert_eq!(database.checkpoint()?, 2);
    database.put(&fixed_key(b"firstkey"), b"not-checkpointed")?;

    let reopened = reopen(database)?;
    assert_eq!(
        reopened.get(&fixed_key(b"firstkey"))?,
        Some(b"two".to_vec())
    );
    assert_eq!(
        reopened.get(&fixed_key(b"secondky"))?,
        Some(b"second".to_vec())
    );
    Ok(())
}

#[test]
fn checkpoint_runs_while_writers_continue() -> Result<(), Error> {
    let mut database = Database::create(test_config())?;
    for key in 0_u64..64 {
        database.put(&fixed_key(&key.to_le_bytes()), &key.to_le_bytes())?;
    }
    database.start_checkpoint()?;
    for key in 64_u64..160 {
        database.put(&fixed_key(&key.to_le_bytes()), &key.to_le_bytes())?;
    }
    database.capture_checkpoint()?;
    for key in 160_u64..256 {
        database.put(&fixed_key(&key.to_le_bytes()), &key.to_le_bytes())?;
    }
    database.publish_checkpoint();
    database.finish_checkpoint();
    let reopened = reopen(database)?;
    for value in 0_u64..64 {
        assert_eq!(
            reopened.get(&fixed_key(&value.to_le_bytes()))?,
            Some(value.to_le_bytes().to_vec())
        );
    }
    Ok(())
}

#[test]
fn checkpoint_restarts_when_append_changes_its_captured_root() -> Result<(), Error> {
    let mut config = test_config();
    config.bucket_count = 1;
    let mut database = Database::create(config)?;
    database.put(&fixed_key(b"only-key"), b"old")?;
    database.start_checkpoint()?;
    assert!(database.put_new(&fixed_key(b"otherkey"), b"new")?);
    database.capture_checkpoint()?;
    database.publish_checkpoint();
    assert_eq!(database.finish_checkpoint(), 1);

    let reopened = reopen(database)?;
    assert_eq!(
        reopened.get(&fixed_key(b"only-key"))?,
        Some(b"old".to_vec())
    );
    assert_eq!(
        reopened.get(&fixed_key(b"otherkey"))?,
        Some(b"new".to_vec())
    );
    Ok(())
}

#[test]
fn open_falls_back_when_the_newest_snapshot_is_missing() -> Result<(), Error> {
    let mut database = Database::create(test_config())?;
    database.put(&fixed_key(b"only-key"), b"generation-one")?;
    assert_eq!(database.checkpoint()?, 1);
    database.put(&fixed_key(b"only-key"), b"generation-two")?;
    assert_eq!(database.checkpoint()?, 2);

    let mut files = database.into_checkpoint_files();
    files.zero = Err(Error::Corrupt("missing"));
    let reopened = Database::open(files)?;
    assert_eq!(
        reopened.get(&fixed_key(b"only-key"))?,
        Some(b"generation-one".to_vec())
    );
    Ok(())
}

#[test]
fn open_rejects_snapshot_root_corruption() -> Result<(), Error> {
    let config = test_config();
    let mut database = Database::create(config)?;
    database.put(&fixed_key(b"only-key"), b"value")?;
    assert_eq!(database.checkpoint()?, 1);

    let mut files = database.into_checkpoint_files();
    let key = fixed_key(b"only-key");
    let bucket = xxh64(&key, config.hash_seed) % config.bucket_count;
    let root = snapshot_bank_start(config.bucket_count, 1)? + 8 * bucket;
    assert_ne!(read_le64(&files.heads, root as usize), 0);
    overwrite(&mut files.heads, root as usize, &[0; 8]);
    assert!(matches!(Database::open(files), Err(Error::Corrupt(_))));
    Ok(())
}

#[test]
fn open_rejects_snapshot_blob_corruption() -> Result<(), Error> {
    let config = test_config();
    let mut database = Database::create(config)?;
    let key = *b"only-key-0000000";
    database.put(&key, b"value")?;
    assert_eq!(database.checkpoint()?, 1);

    let mut files = database.into_checkpoint_files();
    let bucket = xxh64(&key, config.hash_seed) % config.bucket_count;
    let root = snapshot_bank_start(config.bucket_count, 1)? + 8 * bucket;
    let offset = read_le64(&files.heads, root as usize);
    {
        let CheckpointFiles { one, .. } = &mut files;
        let snapshot = one
            .as_mut()
            .map_err(|_| Error::Corrupt("test snapshot is missing"))?;
        let copy = AllocatorFiles {
            data: snapshot.body.data.clone(),
            counts: snapshot.body.counts.clone(),
        };
        let body = BlockAllocator::open(copy, config.body_capacity, config.block_size)?;
        let node = read_node(&body, offset)?;
        let blobs = snapshot
            .blobs
            .as_mut()
            .ok_or(Error::Corrupt("test snapshot blob file is missing"))?;
        let blob = (node.value & !VALUE_BLOB_TAG) as usize;
        let (length, _checksum) = decode_blob_header(&blobs.data[blob..blob + BLOB_HEADER_SIZE]);
        assert_eq!(length, 5);
        blobs.data[blob + BLOB_HEADER_SIZE] = 0;
    }
    assert!(matches!(Database::open(files), Err(Error::Corrupt(_))));
    Ok(())
}

#[test]
fn open_rejects_header_corruption() -> Result<(), Error> {
    let config = test_config();
    let mut database = Database::create(config)?;
    database.put(&fixed_key(b"only-key"), b"value")?;
    database.checkpoint()?;

    let mut files = database.into_checkpoint_files();
    let buckets = (config.bucket_count + 1).to_le_bytes();
    overwrite(&mut files.heads, 24, &buckets);
    assert!(matches!(Database::open(files), Err(Error::Corrupt(_))));
    Ok(())
}

#[test]
fn open_rejects_manifest_with_wrong_generation_parity() -> Result<(), Error> {
    let mut database = Database::create(test_config())?;
    database.put(&fixed_key(b"only-key"), b"value")?;
    database.checkpoint()?;

    let mut files = database.into_checkpoint_files();
    let offset = manifest_offset(1)? as usize;
    let snapshot_checksum = read_le64(&files.heads, offset + 32);
    overwrite(&mut files.heads, offset + 8, &2_u64.to_le_bytes());
    let checksum = manifest_checksum(2, 1, snapshot_checksum).to_le_bytes();
    overwrite(&mut files.heads, offset + 24, &checksum);
    assert!(matches!(Database::open(files), Err(Error::Corrupt(_))));
    Ok(())
}

#[test]
fn open_needs_a_checkpoint() -> Result<(), Error> {
    let database = Database::create(test_config())?;
    assert!(matches!(
        reopen(database),
        Err(Error::Corrupt("database has no valid checkpoint"))
    ));
    Ok(())
}

#[test]
fn an_abandoned_checkpoint_leaves_the_older_one() -> Result<(), Error> {
    let mut database = Database::create(test_config())?;
    database.put(&fixed_key(b"only-key"), b"kept")?;
    assert_eq!(database.checkpoint()?, 1);
    database.put(&fixed_key(b"only-key"), b"lost")?;
    database.start_checkpoint()?;
    database.abandon_checkpoint();
    let mut reopened = reopen(database)?;
    assert_eq!(
        reopened.get(&fixed_key(b"only-key"))?,
        Some(b"kept".to_vec())
    );
    assert_eq!(reopened.checkpoint()?, 2);
    Ok(())
}

#[test]
fn a_checkpoint_keeps_the_newest_of_each_key() -> Result<(), Error> {
    let mut database = Database::create(test_config())?;
    let key = fixed_key(b"twice");
    let entries = [
        (key.as_slice(), b"older".as_slice()),
        (key.as_slice(), b"newer".as_slice()),
    ];
    database.write_only()?.put_batch(&entries)?;
    database.checkpoint()?;
    let mut reopened = reopen(database)?;
    assert_eq!(reopened.get(&key)?, Some(b"newer".to_vec()));
    assert!(reopened.delete(&key)?);
    assert_eq!(reopened.get(&key)?, None);
    Ok(())
}

#[test]
fn sets_are_recovered_too() -> Result<(), Error> {
    let mut config = test_config();
    config.mode = Mode::KeySet;
    config.blob_capacity = 0;
    let mut database = Database::create(config)?;
    for value in 0_u64..100 {
        database.add(&fixed_key(&value.to_le_bytes()))?;
    }
    database.checkpoint()?;
    database.add(&fixed_key(b"late"))?;
    let reopened = reopen(database)?;
    for value in 0_u64..100 {
        assert!(reopened.contains(&fixed_key(&value.to_le_bytes()))?);
    }
    assert!(!reopened.contains(&fixed_key(b"late"))?);
    Ok(())
}

#[test]
fn sync_keeps_the_contents_and_close_gives_them_back() -> Result<(), Error> {
    let mut database = Database::create(test_config())?;
    for value in 0_u64..300 {
        database.put(&fixed_key(&value.to_le_bytes()), b"a value of its own")?;
    }
    database.sync()?;
    for value in (0_u64..300).step_by(3) {
        assert!(database.delete(&fixed_key(&value.to_le_bytes()))?);
    }
    let files = database.close()?;
    let reopened = Database::open_runtime(files)?;
    for value in 0_u64..300 {
        let expected = if value % 3 == 0 {
            None
        } else {
            Some(b"a value of its own".to_vec())
        };
        assert_eq!(reopened.get(&fixed_key(&value.to_le_bytes()))?, expected);
    }
    Ok(())
}

#[test]
fn headroom_beyond_what_a_layout_can_hold_changes_nothing() -> Result<(), Error> {
    let mut database = Database::create(test_config())?;
    database.put(&fixed_key(b"firstkey"), b"one")?;
    let mut files = database.close()?;
    let counts = files.body.counts.clone();
    let heads = files.heads.clone();
    assert!(matches!(
        Database::ensure_runtime_body_headroom(&mut files.heads, &counts, 1 << 50),
        Err(Error::InvalidConfig(_))
    ));
    assert_eq!(files.heads, heads);
    let reopened = Database::open_runtime(files)?;
    assert_eq!(
        reopened.get(&fixed_key(b"firstkey"))?,
        Some(b"one".to_vec())
    );

    let mut files = Database::create(Config::new(Mode::KeySet, 1_024))?.close()?;
    let counts = files.body.counts.clone();
    assert!(Database::ensure_runtime_body_headroom(&mut files.heads, &counts, 1 << 50).is_err());
    Database::open_runtime(files)?;
    Ok(())
}

#[test]
fn closed_files_count_on_from_the_newest_checkpoint() -> Result<(), Error> {
    let mut database = Database::create(test_config())?;
    database.put(&fixed_key(b"firstkey"), b"one")?;
    assert_eq!(database.checkpoint()?, 1);
    database.put(&fixed_key(b"firstkey"), b"two")?;
    assert_eq!(database.checkpoint()?, 2);
    let second = copy_of(database.bank_files(0).unwrap());

    let mut database = Database::open_runtime(database.close()?)?;
    database.put(&fixed_key(b"firstkey"), b"three")?;
    assert_eq!(database.checkpoint()?, 3);
    let mut files = database.into_checkpoint_files();
    files.zero = Ok(second);
    let third = match &files.one {
        Ok(files) => copy_of(files),
        Err(_) => panic!("the third checkpoint is in bank one"),
    };
    let fallback = CheckpointFiles {
        heads: files.heads.clone(),
        zero: match &files.zero {
            Ok(files) => Ok(copy_of(files)),
            Err(_) => panic!("the second checkpoint is in bank zero"),
        },
        one: Err(Error::Corrupt("unreadable")),
    };
    files.one = Ok(third);
    let mut reopened = Database::open(files)?;
    assert_eq!(
        reopened.get(&fixed_key(b"firstkey"))?,
        Some(b"three".to_vec())
    );
    reopened.put(&fixed_key(b"secondky"), b"room")?;
    assert_eq!(reopened.checkpoint()?, 4);
    assert_eq!(
        Database::open(fallback)?.get(&fixed_key(b"firstkey"))?,
        Some(b"two".to_vec())
    );
    Ok(())
}

fn copy_of(files: &SnapshotFiles) -> SnapshotFiles {
    let copied = |files: &AllocatorFiles| AllocatorFiles {
        data: files.data.clone(),
        counts: files.counts.clone(),
    };
    SnapshotFiles {
        body: copied(&files.body),
        blobs: files.blobs.as_ref().map(copied),
    }
}

#[test]
fn one_checkpoint_is_at_work_at_a_time() -> Result<(), Error> {
    let mut database = Database::create(test_config())?;
    database.put(&fixed_key(b"firstkey"), b"one")?;
    assert_eq!(database.start_checkpoint()?, 1);
    assert!(matches!(
        database.start_checkpoint(),
        Err(Error::Busy("another checkpoint is active"))
    ));
    database.capture_checkpoint()?;
    assert!(matches!(
        database.checkpoint(),
        Err(Error::Busy("another checkpoint is active"))
    ));
    database.publish_checkpoint();
    assert!(matches!(database.checkpoint(), Err(Error::Busy(_))));
    assert_eq!(database.finish_checkpoint(), 1);
    assert_eq!(database.start_checkpoint()?, 0);
    database.abandon_checkpoint();
    assert_eq!(database.checkpoint()?, 2);
    Ok(())
}

#[test]
fn the_header_checksum_covers_the_fields_in_front_of_it() -> Result<(), Error> {
    let mut heads = Database::create(test_config())?.close()?.heads;
    assert!(matches!(
        header_checksum(&heads[..95]),
        Err(Error::Corrupt("heads header checksum range is invalid"))
    ));
    let checksum = header_checksum(&heads)?;
    assert_eq!(checksum, header_checksum(&heads[..96])?);
    assert_eq!(checksum, read_le64(&heads, 96));
    heads[200] ^= 1;
    assert_eq!(header_checksum(&heads)?, checksum);
    heads[95] ^= 1;
    assert_ne!(header_checksum(&heads)?, checksum);
    Ok(())
}
