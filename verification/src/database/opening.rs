//! Which files are opened or recovered from, and what is read from them.

use vstd::prelude::*;

#[allow(unused_imports)]
use super::checkpoint::{entries_of_lists, generation_outcome, next_bank, CheckpointFiles};
#[allow(unused_imports)]
use super::laws::values_of;
#[allow(unused_imports)]
use super::{
    database_create_defect, empty_chains, empty_storage, lemma_empty_storage, persisted_heads,
    RuntimeFiles, SnapshotFiles,
};
#[allow(unused_imports)]
use crate::allocator::AllocatorFiles;
#[allow(unused_imports)]
use crate::bytes::{le16, le32, le64, le64_bytes};
#[allow(unused_imports)]
use crate::config::{Config, Mode};
#[allow(unused_imports)]
use crate::copying::{lists_of, records_of};
#[allow(unused_imports)]
use crate::error::Error;
#[allow(unused_imports)]
use crate::format::{law_header_is_read, law_heads_layout, paged, tells};
#[allow(unused_imports)]
use crate::header::{config_of, heads_bytes};
#[allow(unused_imports)]
use crate::inspection::{inspected, paths};
#[allow(unused_imports)]
use crate::manifest::{manifest_at, roots_at, Manifest};
#[allow(unused_imports)]
use crate::snapshot::{all_turned, rebuild_defect, turned};
#[allow(unused_imports)]
use crate::storage::{Entry, Storage};

verus! {

/// The bucket heads stand behind the first 65,536 bytes of the heads file, and the roots of
/// the two banks behind them, each with eight bytes.
pub proof fn law_heads_are_read(heads: Seq<u8>, bucket_count: int, bucket: int)
    requires
        0 <= bucket < bucket_count,
    ensures
        ({
            let bank = (heads_bytes(bucket_count) - 65_536) / 3;
            &&& persisted_heads(heads, bucket_count).len() == bucket_count
            &&& persisted_heads(heads, bucket_count)[bucket] == le64(heads, 65_536 + 8 * bucket)
            &&& roots_at(heads, bucket_count, 0).len() == bucket_count
            &&& roots_at(heads, bucket_count, 0)[bucket] == le64(
                heads,
                65_536 + bank + 8 * bucket,
            )
            &&& roots_at(heads, bucket_count, 1).len() == bucket_count
            &&& roots_at(heads, bucket_count, 1)[bucket] == le64(
                heads,
                65_536 + 2 * bank + 8 * bucket,
            )
        }),
{
    law_heads_layout(bucket_count);
}

/// What the files of an allocator are read as: the bytes of the data file, the high-water
/// mark in the first word of the count file, and the page counts behind 65,536 bytes of it.
pub proof fn law_files_are_read(files: AllocatorFiles, capacity: int, block_size: int, block: int)
    requires
        0 <= block,
        65_536 + 2 * block + 2 <= files.counts@.len(),
    ensures
        ({
            let read = files.files(capacity, block_size);
            &&& read.data == files.data@
            &&& read.pages.block_size == block_size
            &&& read.pages.block_count == capacity / block_size
            &&& read.pages.high_water == le64(files.counts@, 0)
            &&& read.pages.counts[block] == le16(files.counts@, 65_536 + 2 * block)
            &&& read.pages.open is None
        }),
{
    assert(block < (files.counts@.len() - 65_536) / 2);
}

/// Runtime files are opened exactly where the heads file tells a valid configuration and
/// has the length for it, and the allocators can be opened.
pub proof fn law_runtime_is_opened(files: RuntimeFiles, config: Config)
    requires
        files.heads@.len() >= 104,
    ensures
        files.open_defect() is None && config_of(files.heads@) == Ok::<Config, Error>(config) <==> {
            &&& tells(files.heads@, config)
            &&& config.valid()
            &&& paged(files.heads@.len() as int)
            &&& files.heads@.len() == heads_bytes(config.bucket_count as int)
            &&& files.body.open_defect(
                config.body_capacity as int,
                config.block_size as int,
            ) is None
            &&& config.mode == Mode::KeyMap ==> files.blobs is Some && files.blobs->0.open_defect(
                config.blob_capacity as int,
                config.block_size as int,
            ) is None
        },
{
    law_header_is_read(files.heads@, config);
    crate::layout::lemma_round_up(8 * config.bucket_count, 65_536);
}

/// Whether an entry is what a node of a snapshot holds.
pub open spec fn stored_in(storage: Storage, at: int, entry: Entry) -> bool {
    let data = storage.body.data;
    let word = le64(data, at + 16);
    let blob = word - 0x8000_0000_0000_0000;
    &&& entry.key == data.subrange(at, at + 16)
    &&& entry.value == (if storage.config.mode == Mode::KeySet {
        Seq::empty()
    } else if word < 0x8000_0000_0000_0000 {
        le64_bytes(word)
    } else {
        storage.blobs->0.data.subrange(
            blob + 8,
            blob + 8 + le32(storage.blobs->0.data, blob),
        )
    })
}

/// A generation can be recovered exactly where its files were read and can be opened, the
/// snapshot passes inspection with the checksum of the manifest, and there is room for it.
/// Then every node of the snapshot is an entry, those of one bucket from the last to the
/// first, and nothing else is.
pub proof fn law_generation_is_recovered(
    config: Config,
    heads: Seq<u8>,
    files: Result<SnapshotFiles, Error>,
    manifest: Manifest,
)
    ensures
        ({
            let outcome = generation_outcome(config, heads, files, manifest);
            let storage = (files->Ok_0).storage(
                config,
                roots_at(heads, config.bucket_count as int, manifest.bank as int),
            );
            let chains = paths(storage);
            &&& outcome is Ok <==> {
                &&& files is Ok
                &&& (files->Ok_0).open_defect(config) is None
                &&& inspected(storage) == Ok::<u64, Error>(manifest.snapshot_checksum)
                &&& rebuild_defect(config, lists_of(storage, chains)) is None
            }
            &&& outcome matches Ok(entries) ==> {
                &&& entries.len() == chains.len()
                &&& forall|b: int|
                    0 <= b < chains.len() ==> (#[trigger] entries[b]).len() == chains[b].len()
                &&& forall|b: int, i: int|
                    0 <= b < chains.len() && 0 <= i < chains[b].len() ==> stored_in(
                        storage,
                        chains[b][chains[b].len() - 1 - i] as int,
                        #[trigger] entries[b][i],
                    )
            }
        }),
{
    let outcome = generation_outcome(config, heads, files, manifest);
    let storage = (files->Ok_0).storage(
        config,
        roots_at(heads, config.bucket_count as int, manifest.bank as int),
    );
    let chains = paths(storage);
    let lists = lists_of(storage, chains);
    if outcome is Ok {
        let entries = outcome->Ok_0;
        assert(entries == entries_of_lists(config.mode, all_turned(lists)));
        assert forall|b: int| 0 <= b < chains.len() implies (#[trigger] entries[b]).len()
            == chains[b].len() by {
            assert(all_turned(lists)[b] == turned(lists[b], false));
        }
        assert forall|b: int, i: int|
            0 <= b < chains.len() && 0 <= i < chains[b].len() implies stored_in(
            storage,
            chains[b][chains[b].len() - 1 - i] as int,
            #[trigger] entries[b][i],
        ) by {
            assert(lists[b] == records_of(storage, chains[b]));
            assert(all_turned(lists)[b] == turned(lists[b], false));
            assert(all_turned(lists)[b][i] == lists[b][lists[b].len() - 1 - i]);
        }
    }
}

/// Recovery takes the newest generation that can be recovered, and fails only where the
/// heads file tells no configuration or no generation can be recovered.
pub proof fn law_newest_is_recovered(files: CheckpointFiles, bank: u64)
    requires
        bank <= 1,
    ensures
        ({
            let heads = files.heads@;
            match files.recovery() {
                Ok((generation, entries)) => {
                    let config = files.checked_config()->Ok_0;
                    let chosen = manifest_at(heads, (generation % 2) as u64);
                    &&& files.checked_config() is Ok
                    &&& chosen is Some && (chosen->0).generation == generation
                    &&& generation_outcome(
                        config,
                        heads,
                        files.at(generation as int % 2),
                        chosen->0,
                    ) == Ok::<Seq<Seq<Entry>>, Error>(entries)
                    &&& manifest_at(heads, bank) matches Some(other) ==> other.generation
                        > generation ==> generation_outcome(
                        config,
                        heads,
                        files.at(bank as int),
                        other,
                    ) is Err
                },
                Err(_) => files.checked_config() matches Ok(config) ==> manifest_at(
                    heads,
                    bank,
                ) matches Some(other) ==> generation_outcome(
                    config,
                    heads,
                    files.at(bank as int),
                    other,
                ) is Err,
            }
        }),
{
}

/// Files to recover from have a configuration exactly where their heads file tells a valid
/// one and has the length for it.
pub proof fn law_config_is_checked(files: CheckpointFiles, config: Config)
    requires
        files.heads@.len() >= 104,
    ensures
        files.checked_config() == Ok::<Config, Error>(config) <==> {
            &&& tells(files.heads@, config)
            &&& config.valid()
            &&& paged(files.heads@.len() as int)
            &&& files.heads@.len() == heads_bytes(config.bucket_count as int)
        },
{
    law_header_is_read(files.heads@, config);
    crate::layout::lemma_round_up(8 * config.bucket_count, 65_536);
}

/// Generations go into the two banks by turns.
pub proof fn law_banks_take_turns(generation: u64)
    ensures
        next_bank(generation) <= 1,
        next_bank(generation) != generation as int % 2,
{
}

/// A database is created exactly where its configuration is valid, and holds nothing.
pub proof fn law_created_empty(config: Config, key: Seq<u8>)
    ensures
        database_create_defect(config) is None <==> config.valid(),
        config.valid() ==> {
            let storage = empty_storage(config);
            let entries = storage.entries(empty_chains(config));
            &&& storage.config == config
            &&& storage.holds(empty_chains(config), Set::empty(), Map::empty())
            &&& entries.len() == config.bucket_count
            &&& values_of(config, entries, key).len() == 0
        },
{
    if config.valid() {
        super::room::lemma_empty_files(config);
        lemma_empty_storage(config);
        crate::outcomes::lemma_bucket(config, key);
        let entries = empty_storage(config).entries(empty_chains(config));
        assert(entries[crate::storage::bucket_of(config, key)].len() == 0);
    }
}

} // verus!
