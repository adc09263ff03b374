//! Checkpoint creation and recovery.
//!
//! A checkpoint copies each bucket chain into one of two snapshot generations. A
//! checksummed manifest selects the newest valid generation when
//! [`Database::open`] rebuilds the runtime state.

use vstd::prelude::*;

use crate::allocator::{AllocatorFiles, BlockAllocator};
#[allow(unused_imports)]
use crate::allocator::Files;
use crate::bytes::copy_range;
#[allow(unused_imports)]
use crate::bytes::{le64_bytes, lemma_le_fields, patched};
use crate::config::{Config, Mode};
#[allow(unused_imports)]
use crate::copying::{entry_of, lists_of, record_at, records_of, Record};
use crate::database::{Banks, Database, SnapshotFiles, Stage};
#[allow(unused_imports)]
use crate::database::{
    lemma_capacity, lemma_heads_room, lemma_same_header, lemma_sealed_storage, sealed, value_for,
    Durable,
};
use crate::error::Error;
use crate::header::{heads_length, read_config};
#[allow(unused_imports)]
use crate::header::{
    bank_start, config_of, heads_bytes, heads_defect, lemma_word_bytes_length, word_bytes,
};
use crate::header::snapshot_bank_start;
#[allow(unused_imports)]
use crate::inspection::{
    distinct_keys, inspected, lemma_inspected, lemma_inspection_succeeds, lemma_paths, paths,
};
#[allow(unused_imports)]
use crate::layout::HEADS_START;
use crate::manifest::{
    invalidate_manifest, read_manifests, read_roots, store_words, write_manifest, Manifest,
};
#[allow(unused_imports)]
use crate::manifest::{
    lemma_banks, lemma_manifest_invalid, lemma_manifest_written, lemma_roots_written, manifest_at,
    manifest_start, manifest_words, manifests_of, newest_generation, roots_at,
};
use crate::mapped_file::MappedFile;
#[allow(unused_imports)]
use crate::snapshot::{
    all_firsts, all_turned, capture_defect, firsts, lemma_firsts, lemma_readable, packed,
    rebuild_defect, turned,
};
#[allow(unused_imports)]
use crate::snapshot::steps::{capture_outcome, rebuild_outcome};
#[allow(unused_imports)]
use crate::storage::{bucket_of, Entry, Storage};
use crate::table::Table;

verus! {

impl SnapshotFiles {
    /// What the files hold under a configuration, with the given roots.
    pub open spec fn storage(&self, config: Config, roots: Seq<u64>) -> Storage {
        Storage {
            config,
            heads: roots,
            body: self.body.files(config.body_capacity as int, config.block_size as int),
            blobs: match self.blobs {
                Some(files) if config.mode == Mode::KeyMap => Some(
                    files.files(config.blob_capacity as int, config.block_size as int),
                ),
                _ => None,
            },
        }
    }

    /// What stands in the way of opening the files, if anything.
    pub open spec fn open_defect(&self, config: Config) -> Option<Error> {
        let body = self.body.open_defect(config.body_capacity as int, config.block_size as int);
        if body is Some {
            body
        } else if config.mode == Mode::KeyMap {
            match self.blobs {
                None => Some(Error::Corrupt("map checkpoint blob file is missing")),
                Some(files) => files.open_defect(
                    config.blob_capacity as int,
                    config.block_size as int,
                ),
            }
        } else {
            None
        }
    }

    /// Opens a copy of the files as a table with the given roots.
    fn open_snapshot(&self, config: &Config, roots: Vec<u64>) -> (result: Result<Table, Error>)
        requires
            config.valid(),
            roots.len() == config.bucket_count,
        ensures
            match result {
                Ok(table) => {
                    &&& self.open_defect(*config) is None
                    &&& table.wf()
                    &&& table.storage() == self.storage(*config, roots@)
                },
                Err(error) => self.open_defect(*config) == Some(error),
            },
    {
        let body = BlockAllocator::open(
            copy_files(&self.body),
            config.body_capacity,
            config.block_size,
        )?;
        let blobs = if config.mode == Mode::KeyMap {
            match &self.blobs {
                None => {
                    return Err(Error::Corrupt("map checkpoint blob file is missing"));
                },
                Some(files) => Some(
                    BlockAllocator::open(
                        copy_files(files),
                        config.blob_capacity,
                        config.block_size,
                    )?,
                ),
            }
        } else {
            None
        };
        proof {
            lemma_capacity(*config);
        }
        Ok(
            Table {
                config: *config,
                heads: roots,
                body,
                blobs,
            },
        )
    }
}

/// Copies the files of an allocator.
fn copy_files(files: &AllocatorFiles) -> (copy: AllocatorFiles)
    ensures
        copy.data@ == files.data@,
        copy.counts@ == files.counts@,
{
    let data = copy_range(files.data.as_slice(), 0, files.data.len());
    let counts = copy_range(files.counts.as_slice(), 0, files.counts.len());
    proof {
        assert(files.data@.subrange(0, files.data@.len() as int) =~= files.data@);
        assert(files.counts@.subrange(0, files.counts@.len() as int) =~= files.counts@);
    }
    AllocatorFiles { data, counts }
}

/// The entries that lists of records stand for.
pub open spec fn entries_of_lists(mode: Mode, lists: Seq<Seq<Record>>) -> Seq<Seq<Entry>> {
    lists.map_values(
        |records: Seq<Record>| records.map_values(|record: Record| entry_of(mode, record)),
    )
}

/// The entries of a table are those of its records.
pub proof fn lemma_entries_of_lists(storage: Storage, chains: Seq<Seq<u64>>)
    requires
        storage.chains_hold(chains),
    ensures
        storage.entries(chains) == entries_of_lists(
            storage.config.mode,
            lists_of(storage, chains),
        ),
{
    let mode = storage.config.mode;
    let lists = lists_of(storage, chains);
    assert forall|b: int| 0 <= b < chains.len() implies #[trigger] storage.entries(chains)[b]
        == entries_of_lists(mode, lists)[b] by {
        let chain = chains[b];
        assert forall|i: int| 0 <= i < chain.len() implies #[trigger] storage.entries_of(chain)[i]
            == entries_of_lists(mode, lists)[b][i] by {
            assert(crate::storage::slot(chains, b, i));
            assert(storage.valid_word(
                crate::node::value_at(storage.body.data, chains[b][i] as int),
            ));
            assert(lists[b][i] == record_at(storage, chain[i]));
        }
        assert(storage.entries_of(chain) =~= entries_of_lists(mode, lists)[b]);
    }
    assert(storage.entries(chains) =~= entries_of_lists(mode, lists));
}

/// Files to recover from: the heads file, and the files of both banks or why they
/// could not be read.
pub struct CheckpointFiles {
    /// The heads file.
    pub heads: Vec<u8>,
    /// Files of bank zero.
    pub zero: Result<SnapshotFiles, Error>,
    /// Files of bank one.
    pub one: Result<SnapshotFiles, Error>,
}

/// The files of a bank that could be read.
pub open spec fn readable_files(files: Result<SnapshotFiles, Error>) -> Option<SnapshotFiles> {
    match files {
        Ok(files) => Some(files),
        Err(_) => None,
    }
}

/// Recovering the generation of a manifest: the entries, or why there are none.
pub open spec fn generation_outcome(
    config: Config,
    heads: Seq<u8>,
    files: Result<SnapshotFiles, Error>,
    manifest: Manifest,
) -> Result<Seq<Seq<Entry>>, Error> {
    match files {
        Err(error) => Err(error),
        Ok(files) => {
            let storage = files.storage(
                config,
                roots_at(heads, config.bucket_count as int, manifest.bank as int),
            );
            let lists = lists_of(storage, paths(storage));
            if files.open_defect(config) is Some {
                Err(files.open_defect(config)->0)
            } else {
                match inspected(storage) {
                    Err(error) => Err(error),
                    Ok(checksum) => if checksum != manifest.snapshot_checksum {
                        Err(Error::Corrupt("checkpoint snapshot checksum does not match"))
                    } else {
                        match rebuild_defect(config, lists) {
                            Some(error) => Err(error),
                            None => Ok(entries_of_lists(config.mode, all_turned(lists))),
                        }
                    },
                }
            }
        },
    }
}

impl CheckpointFiles {
    /// The files of a bank.
    pub open spec fn at(&self, bank: int) -> Result<SnapshotFiles, Error> {
        if bank == 0 {
            self.zero
        } else {
            self.one
        }
    }

    /// Recovering the generation of a manifest of these files.
    pub open spec fn generation(&self, config: Config, manifest: Manifest) -> Result<
        Seq<Seq<Entry>>,
        Error,
    > {
        generation_outcome(config, self.heads@, self.at(manifest.bank as int), manifest)
    }

    /// The configuration of the files.
    pub open spec fn checked_config(&self) -> Result<Config, Error> {
        let length = self.heads@.len() as int;
        if crate::mapped_file::open_defect(length, length) is Some {
            Err(crate::mapped_file::open_defect(length, length)->0)
        } else {
            match config_of(self.heads@) {
                Err(error) => Err(error),
                Ok(config) => if heads_defect(config.bucket_count as int) is Some {
                    Err(heads_defect(config.bucket_count as int)->0)
                } else if heads_bytes(config.bucket_count as int) != length {
                    Err(Error::Corrupt("heads file length does not match its configuration"))
                } else {
                    Ok(config)
                },
            }
        }
    }

    /// The manifest whose generation is recovered, where one is.
    pub open spec fn chosen(&self, config: Config) -> Manifest {
        match manifests_of(self.heads@) {
            (Some(manifest), _) if self.generation(config, manifest) is Ok => manifest,
            (_, other) => other->0,
        }
    }

    /// The snapshot of the generation that is recovered, where one is.
    pub open spec fn snapshot(&self, config: Config) -> Storage {
        let bank = self.chosen(config).bank as int;
        (self.at(bank)->Ok_0).storage(
            config,
            roots_at(self.heads@, config.bucket_count as int, bank),
        )
    }

    /// Recovery: the newest generation that is valid and its entries, or why there is
    /// none.
    pub open spec fn recovery(&self) -> Result<(u64, Seq<Seq<Entry>>), Error> {
        match self.checked_config() {
            Err(error) => Err(error),
            Ok(config) => {
                let (first, second) = manifests_of(self.heads@);
                let other = match second {
                    None => Err(Error::Corrupt("database has no valid checkpoint")),
                    Some(manifest) => match self.generation(config, manifest) {
                        Ok(entries) => Ok((manifest.generation, entries)),
                        Err(error) => Err(error),
                    },
                };
                match first {
                    None => other,
                    Some(manifest) => match self.generation(config, manifest) {
                        Ok(entries) => Ok((manifest.generation, entries)),
                        Err(error) => match other {
                            Ok(recovered) => Ok(recovered),
                            Err(_) => Err(error),
                        },
                    },
                }
            },
        }
    }
}

/// Whether a table is the one that is rebuilt from a snapshot: its nodes and values
/// stand one behind another, and nothing else has taken any room.
pub open spec fn rebuilt_from(snapshot: Storage, storage: Storage) -> bool {
    &&& rebuild_outcome(snapshot) == Ok::<Storage, Error>(storage)
    &&& packed(storage, lists_of(snapshot, paths(snapshot)))
}

/// Recovers the generation of a manifest.
fn open_generation(
    config: &Config,
    heads: &[u8],
    files: &SnapshotFiles,
    manifest: Manifest,
) -> (result: Result<(Table, Ghost<Seq<Seq<u64>>>), Error>)
    requires
        config.valid(),
        manifest.bank <= 1,
        heads_defect(config.bucket_count as int) is None,
        heads.len() == heads_bytes(config.bucket_count as int),
    ensures
        match generation_outcome(
            *config,
            heads@,
            Ok::<SnapshotFiles, Error>(*files),
            manifest,
        ) {
            Err(error) => result == Err::<(Table, Ghost<Seq<Seq<u64>>>), Error>(error),
            Ok(entries) => {
                &&& result is Ok
                &&& (result->Ok_0).0.wf()
                &&& (result->Ok_0).0.config == *config
                &&& (result->Ok_0).0.storage().holds(
                    (result->Ok_0).1@,
                    Set::empty(),
                    Map::empty(),
                )
                &&& (result->Ok_0).0.storage().entries((result->Ok_0).1@) == entries
                &&& rebuilt_from(
                    files.storage(
                        *config,
                        roots_at(heads@, config.bucket_count as int, manifest.bank as int),
                    ),
                    (result->Ok_0).0.storage(),
                )
            },
        },
{
    proof {
        lemma_banks(config.bucket_count as int);
    }
    let start: u64 = snapshot_bank_start(config.bucket_count, manifest.bank)?;
    let roots = read_roots(heads, config.bucket_count, start, Ghost(manifest.bank as int));
    let snapshot = files.open_snapshot(config, roots)?;
    let checksum: u64 = snapshot.snapshot_checksum()?;
    if checksum != manifest.snapshot_checksum {
        return Err(Error::Corrupt("checkpoint snapshot checksum does not match"));
    }
    let ghost source = snapshot.storage();
    proof {
        lemma_inspected(snapshot);
    }
    let rebuilt = snapshot.rebuild(Ghost(paths(source)));
    proof {
        if rebuilt is Ok {
            lemma_entries_of_lists((rebuilt->Ok_0).0.storage(), (rebuilt->Ok_0).1@);
        }
    }
    rebuilt
}

/// Recovers the generation of a manifest where the files of its bank could be read.
fn attempt_generation(
    config: &Config,
    heads: &[u8],
    files: &Option<SnapshotFiles>,
    missing: &mut Option<Error>,
    manifest: Manifest,
) -> (result: Result<(Table, Ghost<Seq<Seq<u64>>>), Error>)
    requires
        config.valid(),
        manifest.bank <= 1,
        heads_defect(config.bucket_count as int) is None,
        heads.len() == heads_bytes(config.bucket_count as int),
        *files is None ==> *old(missing) is Some,
    ensures
        match generation_outcome(
            *config,
            heads@,
            (match *files {
                Some(files) => Ok(files),
                None => Err((*old(missing))->0),
            }),
            manifest,
        ) {
            Err(error) => result == Err::<(Table, Ghost<Seq<Seq<u64>>>), Error>(error),
            Ok(entries) => {
                &&& result is Ok
                &&& (result->Ok_0).0.wf()
                &&& (result->Ok_0).0.config == *config
                &&& (result->Ok_0).0.storage().holds(
                    (result->Ok_0).1@,
                    Set::empty(),
                    Map::empty(),
                )
                &&& (result->Ok_0).0.storage().entries((result->Ok_0).1@) == entries
                &&& rebuilt_from(
                    (*files)->0.storage(
                        *config,
                        roots_at(heads@, config.bucket_count as int, manifest.bank as int),
                    ),
                    (result->Ok_0).0.storage(),
                )
            },
        },
{
    match files {
        Some(files) => open_generation(config, heads, files, manifest),
        None => match missing.take() {
            Some(error) => Err(error),
            None => Err(Error::Corrupt("database has no valid checkpoint")),
        },
    }
}

impl Database {
    /// Opens the newest valid checkpoint and rebuilds the runtime state.
    pub fn open(files: CheckpointFiles) -> (result: Result<Database, Error>)
        ensures
            match files.recovery() {
                Err(error) => result == Err::<Database, Error>(error),
                Ok((generation, entries)) => {
                    &&& result is Ok
                    &&& (result->Ok_0).wf()
                    &&& (result->Ok_0).sound()
                    &&& files.checked_config() == Ok::<Config, Error>((result->Ok_0).config())
                    &&& (result->Ok_0)@ == entries
                    &&& rebuilt_from(
                        files.snapshot((result->Ok_0).config()),
                        (result->Ok_0).storage(),
                    )
                    &&& (result->Ok_0).durable() == (Durable {
                        heads: files.heads@,
                        generation,
                        banks: Banks {
                            zero: readable_files(files.zero),
                            one: readable_files(files.one),
                        },
                        stage: Stage::Idle,
                    })
                },
            },
    {
        let length: u64 = files.heads.len() as u64;
        let heads = MappedFile::open(files.heads, length)?;
        let config = read_config(heads.as_bytes())?;
        if heads_length(config.bucket_count)? != length {
            return Err(Error::Corrupt("heads file length does not match its configuration"));
        }
        proof {
            lemma_heads_room(config.bucket_count as int);
        }
        let (first, second) = read_manifests(heads.as_bytes());
        let (zero, mut zero_missing) = match files.zero {
            Ok(files) => (Some(files), None),
            Err(error) => (None, Some(error)),
        };
        let (one, mut one_missing) = match files.one {
            Ok(files) => (Some(files), None),
            Err(error) => (None, Some(error)),
        };
        let mut first_error: Option<Error> = None;
        if let Some(manifest) = first {
            let attempt = if manifest.bank == 0 {
                attempt_generation(&config, heads.as_bytes(), &zero, &mut zero_missing, manifest)
            } else {
                attempt_generation(&config, heads.as_bytes(), &one, &mut one_missing, manifest)
            };
            match attempt {
                Ok((table, chains)) => {
                    return Ok(
                        Database {
                            table,
                            heads,
                            generation: manifest.generation,
                            banks: Banks { zero, one },
                            stage: Stage::Idle,
                            chains,
                        },
                    );
                },
                Err(error) => {
                    first_error = Some(error);
                },
            }
        }
        if let Some(manifest) = second {
            let attempt = if manifest.bank == 0 {
                attempt_generation(&config, heads.as_bytes(), &zero, &mut zero_missing, manifest)
            } else {
                attempt_generation(&config, heads.as_bytes(), &one, &mut one_missing, manifest)
            };
            match attempt {
                Ok((table, chains)) => {
                    return Ok(
                        Database {
                            table,
                            heads,
                            generation: manifest.generation,
                            banks: Banks { zero, one },
                            stage: Stage::Idle,
                            chains,
                        },
                    );
                },
                Err(error) => {
                    if first_error.is_none() {
                        first_error = Some(error);
                    }
                },
            }
        }
        match first_error {
            Some(error) => Err(error),
            None => Err(Error::Corrupt("database has no valid checkpoint")),
        }
    }
}

/// The bank that the generation behind `generation` goes to.
pub open spec fn next_bank(generation: u64) -> u64 {
    ((generation + 1) % 2) as u64
}

/// Whether a checkpoint into `bank` left the other bank alone: its manifest, its roots
/// and its files.
pub open spec fn other_kept(before: Durable, after: Durable, bucket_count: int, bank: u64) -> bool {
    let other = (1 - bank) as u64;
    &&& after.heads.len() == before.heads.len()
    &&& manifest_at(after.heads, other) == manifest_at(before.heads, other)
    &&& roots_at(after.heads, bucket_count, other as int) == roots_at(
        before.heads,
        bucket_count,
        other as int,
    )
    &&& after.banks.at(other as int) == before.banks.at(other as int)
}

/// The snapshot that a bank holds.
pub open spec fn banked(durable: Durable, config: Config, bank: u64) -> Storage {
    (durable.banks.at(bank as int)->0).storage(
        config,
        roots_at(durable.heads, config.bucket_count as int, bank as int),
    )
}

/// A change behind the header keeps the configuration.
proof fn lemma_config_kept(heads: Seq<u8>, at: int, bytes: Seq<u8>)
    requires
        heads.len() >= HEADS_START,
        104 <= at,
        at + bytes.len() <= heads.len(),
    ensures
        config_of(patched(heads, at, bytes)) == config_of(heads),
        patched(heads, at, bytes).len() == heads.len(),
{
    lemma_same_header(patched(heads, at, bytes), heads);
}

/// A change of the header page keeps the roots.
proof fn lemma_roots_kept(heads: Seq<u8>, at: int, bytes: Seq<u8>, bucket_count: int)
    requires
        0 <= bucket_count,
        heads.len() == heads_bytes(bucket_count),
        0 <= at,
        at + bytes.len() <= HEADS_START,
    ensures
        roots_at(patched(heads, at, bytes), bucket_count, 0) == roots_at(heads, bucket_count, 0),
        roots_at(patched(heads, at, bytes), bucket_count, 1) == roots_at(heads, bucket_count, 1),
{
    let after = patched(heads, at, bytes);
    lemma_banks(bucket_count);
    assert forall|bank: int, i: int|
        0 <= bank <= 1 && 0 <= i < bucket_count implies #[trigger] roots_at(
        after,
        bucket_count,
        bank,
    )[i] == roots_at(heads, bucket_count, bank)[i] by {
        crate::bytes::lemma_patched_fields(
            heads,
            at,
            bytes,
            bank_start(bucket_count, bank) + 8 * i,
        );
    }
    assert(roots_at(after, bucket_count, 0) =~= roots_at(heads, bucket_count, 0));
    assert(roots_at(after, bucket_count, 1) =~= roots_at(heads, bucket_count, 1));
}

/// The checksum of the snapshot of a database, or why there is none: the chains of
/// the source or the room for the snapshot give out, or it does not pass inspection.
pub open spec fn checkpoint_outcome(storage: Storage) -> Result<u64, Error> {
    match capture_outcome(storage) {
        Err(error) => Err(error),
        Ok(snapshot) => inspected(sealed(snapshot)),
    }
}

impl Database {
    /// Starts a checkpoint: makes the manifest of the next bank invalid, drops its files
    /// and clears its roots. Returns the bank. While a checkpoint is at work no other
    /// one can be started.
    pub fn start_checkpoint(&mut self) -> (result: Result<u64, Error>)
        requires
            old(self).wf(),
        ensures
            final(self).wf(),
            final(self).storage() == old(self).storage(),
            final(self).chains() == old(self).chains(),
            final(self).durable().generation == old(self).durable().generation,
            ({
                let before = old(self).durable();
                let after = final(self).durable();
                let bank = next_bank(before.generation);
                if before.stage != Stage::Idle {
                    &&& result == Err::<u64, Error>(Error::Busy("another checkpoint is active"))
                    &&& after == before
                } else if before.generation == u64::MAX {
                    &&& result == Err::<u64, Error>(
                        Error::CapacityExhausted("checkpoint generation"),
                    )
                    &&& after == before
                } else {
                    &&& result == Ok::<u64, Error>(bank)
                    &&& after.stage == Stage::Started
                    &&& manifest_at(after.heads, bank) is None
                    &&& after.banks.at(bank as int) is None
                    &&& other_kept(before, after, old(self).config().bucket_count as int, bank)
                }
            }),
    {
        if self.stage != Stage::Idle {
            return Err(Error::Busy("another checkpoint is active"));
        }
        if self.generation == u64::MAX {
            return Err(Error::CapacityExhausted("checkpoint generation"));
        }
        let bank: u64 = (self.generation + 1) % 2;
        self.clear_bank(bank);
        self.stage = Stage::Started;
        Ok(bank)
    }

    /// Makes the manifest of a bank invalid, drops its files and clears its roots.
    fn clear_bank(&mut self, bank: u64)
        requires
            old(self).wf(),
            old(self).durable().stage == Stage::Idle,
            bank == next_bank(old(self).durable().generation),
        ensures
            final(self).wf(),
            final(self).storage() == old(self).storage(),
            final(self).chains() == old(self).chains(),
            final(self).durable().generation == old(self).durable().generation,
            final(self).durable().stage == old(self).durable().stage,
            manifest_at(final(self).durable().heads, bank) is None,
            final(self).durable().banks.at(bank as int) is None,
            other_kept(
                old(self).durable(),
                final(self).durable(),
                old(self).config().bucket_count as int,
                bank,
            ),
    {
        let ghost count = self.table.config.bucket_count as int;
        let ghost first = self.heads@;
        proof {
            lemma_banks(count);
            lemma_heads_room(count);
            lemma_le_fields();
            lemma_manifest_invalid(first, bank);
            lemma_config_kept(first, manifest_start(bank as int), le64_bytes(0));
            lemma_roots_kept(first, manifest_start(bank as int), le64_bytes(0), count);
        }
        invalidate_manifest(&mut self.heads, bank);
        let ghost second = self.heads@;
        self.banks.put(bank, None);
        let cleared = zero_roots(self.table.heads.len());
        proof {
            lemma_roots_written(second, bank as int, cleared@);
            lemma_word_bytes_length(cleared@);
            lemma_config_kept(
                second,
                bank_start(count, bank as int),
                word_bytes(cleared@),
            );
        }
        let start: u64 = self.bank_offset(bank);
        store_words(&mut self.heads, start, &cleared);
    }

    /// Offset of the roots of a bank.
    fn bank_offset(&self, bank: u64) -> (start: u64)
        requires
            self.wf(),
            bank <= 1,
        ensures
            start == bank_start(self.config().bucket_count as int, bank as int),
    {
        proof {
            lemma_banks(self.table.config.bucket_count as int);
        }
        match snapshot_bank_start(self.table.config.bucket_count, bank) {
            Ok(start) => start,
            Err(_) => 0,
        }
    }

    /// Copies the first entry of each key into the files of the next bank and stores
    /// their roots. Returns the checksum of the snapshot.
    pub fn capture_checkpoint(&mut self) -> (result: Result<u64, Error>)
        requires
            old(self).wf(),
            old(self).durable().stage == Stage::Started,
        ensures
            final(self).wf(),
            final(self).storage() == old(self).storage(),
            final(self).chains() == old(self).chains(),
            final(self).durable().generation == old(self).durable().generation,
            ({
                let before = old(self).durable();
                let after = final(self).durable();
                let config = old(self).config();
                let bank = next_bank(before.generation);
                let lists = lists_of(old(self).storage(), old(self).chains());
                &&& other_kept(before, after, config.bucket_count as int, bank)
                &&& manifest_at(after.heads, bank) == manifest_at(before.heads, bank)
                &&& result == checkpoint_outcome(old(self).storage())
                &&& match result {
                    Err(_) => after == before,
                    Ok(checksum) => {
                        &&& after.stage == Stage::Captured(checksum)
                        &&& after.banks.at(bank as int) is Some
                        &&& banked(after, config, bank) == sealed(
                            capture_outcome(old(self).storage())->Ok_0,
                        )
                    },
                }
                &&& old(self).sound() ==> match capture_defect(config, lists) {
                    Some(error) => result == Err::<u64, Error>(error),
                    None => {
                        &&& result is Ok
                        &&& (after.banks.at(bank as int)->0).open_defect(config) is None
                        &&& inspected(banked(after, config, bank)) == result
                        &&& lists_of(
                            banked(after, config, bank),
                            paths(banked(after, config, bank)),
                        ) == all_firsts(lists)
                    },
                }
            }),
    {
        let ghost config = self.table.config;
        let ghost count = config.bucket_count as int;
        let ghost first = self.heads@;
        let ghost sound = self.sound();
        let ghost lists = lists_of(self.storage(), self.chains());
        let bank: u64 = if self.generation % 2 == 0 {
            1
        } else {
            0
        };
        proof {
            if sound {
                lemma_readable(self.storage(), self.chains());
            }
        }
        let (mut snapshot, chains) = self.table.capture(Ghost(self.chains@))?;
        let ghost captured = snapshot.storage();
        snapshot.body.seal_current();
        if let Some(blobs) = &mut snapshot.blobs {
            blobs.seal_current();
        }
        let ghost storage = snapshot.storage();
        proof {
            assert(storage == sealed(captured));
            if sound && capture_defect(config, lists) is None {
                lemma_sealed_snapshot(captured, chains@, lists);
            }
        }
        let checksum: u64 = snapshot.snapshot_checksum()?;
        let start: u64 = self.bank_offset(bank);
        let Table { config: _, heads: roots, body, blobs } = snapshot;
        proof {
            lemma_banks(count);
            lemma_heads_room(count);
            lemma_roots_written(first, bank as int, roots@);
            lemma_word_bytes_length(roots@);
            lemma_config_kept(first, bank_start(count, bank as int), word_bytes(roots@));
            lemma_capacity(config);
        }
        store_words(&mut self.heads, start, &roots);
        let body = body.into_files();
        let blobs = match blobs {
            Some(blobs) => Some(blobs.into_files()),
            None => None,
        };
        self.banks.put(bank, Some(SnapshotFiles { body, blobs }));
        self.stage = Stage::Captured(checksum);
        proof {
            assert(banked(self.durable(), config, bank) == storage);
        }
        Ok(checksum)
    }

    /// Writes the manifest of the next bank for the snapshot that was captured.
    pub fn publish_checkpoint(&mut self)
        requires
            old(self).wf(),
            old(self).durable().stage is Captured,
        ensures
            final(self).wf(),
            final(self).storage() == old(self).storage(),
            final(self).chains() == old(self).chains(),
            ({
                let before = old(self).durable();
                let after = final(self).durable();
                let bank = next_bank(before.generation);
                let count = old(self).config().bucket_count as int;
                &&& after.generation == before.generation
                &&& after.banks == before.banks
                &&& after.stage == Stage::Published
                &&& other_kept(before, after, count, bank)
                &&& roots_at(after.heads, count, bank as int) == roots_at(
                    before.heads,
                    count,
                    bank as int,
                )
                &&& manifest_at(after.heads, bank) == Some(
                    Manifest {
                        generation: (before.generation + 1) as u64,
                        bank,
                        snapshot_checksum: before.stage->Captured_0,
                    },
                )
            }),
    {
        let snapshot_checksum: u64 = match self.stage {
            Stage::Captured(checksum) => checksum,
            _ => 0,
        };
        let generation: u64 = self.generation + 1;
        let bank: u64 = generation % 2;
        let manifest = Manifest { generation, bank, snapshot_checksum };
        proof {
            let count = self.table.config.bucket_count as int;
            let bytes = word_bytes(manifest_words(manifest));
            lemma_heads_room(count);
            lemma_word_bytes_length(manifest_words(manifest));
            lemma_manifest_written(self.heads@, manifest);
            lemma_config_kept(self.heads@, manifest_start(bank as int), bytes);
            lemma_roots_kept(self.heads@, manifest_start(bank as int), bytes, count);
        }
        write_manifest(&mut self.heads, manifest);
        self.stage = Stage::Published;
    }

    /// Completes a checkpoint whose manifest is written. Returns its generation.
    pub fn finish_checkpoint(&mut self) -> (generation: u64)
        requires
            old(self).wf(),
            old(self).durable().stage == Stage::Published,
        ensures
            final(self).wf(),
            final(self).storage() == old(self).storage(),
            final(self).chains() == old(self).chains(),
            generation == old(self).durable().generation + 1,
            final(self).durable() == (Durable {
                generation,
                stage: Stage::Idle,
                ..old(self).durable()
            }),
    {
        self.generation = self.generation + 1;
        self.stage = Stage::Idle;
        self.generation
    }

    /// Undoes what a failed checkpoint left behind in the next bank.
    pub fn abandon_checkpoint(&mut self)
        requires
            old(self).wf(),
            old(self).durable().stage != Stage::Idle,
        ensures
            final(self).wf(),
            final(self).storage() == old(self).storage(),
            final(self).chains() == old(self).chains(),
            final(self).durable().generation == old(self).durable().generation,
            ({
                let before = old(self).durable();
                let after = final(self).durable();
                let bank = next_bank(before.generation);
                &&& after.stage == Stage::Idle
                &&& manifest_at(after.heads, bank) is None
                &&& after.banks.at(bank as int) is None
                &&& other_kept(before, after, old(self).config().bucket_count as int, bank)
            }),
    {
        let bank: u64 = (self.generation + 1) % 2;
        self.stage = Stage::Idle;
        self.clear_bank(bank);
    }
}

/// Roots of empty buckets.
fn zero_roots(count: usize) -> (roots: Vec<u64>)
    ensures
        roots@ == Seq::new(count as nat, |i: int| 0u64),
        roots.len() == count,
{
    let mut roots: Vec<u64> = Vec::new();
    while roots.len() < count
        invariant
            roots@.len() <= count,
            forall|i: int| 0 <= i < roots@.len() ==> #[trigger] roots@[i] == 0,
        decreases count - roots.len(),
    {
        roots.push(0);
    }
    assert(roots@ =~= Seq::new(count as nat, |i: int| 0u64));
    roots
}

/// A sealed snapshot passes inspection and holds what was captured.
proof fn lemma_sealed_snapshot(
    captured: Storage,
    chains: Seq<Seq<u64>>,
    lists: Seq<Seq<Record>>,
)
    requires
        captured.holds(chains, Set::empty(), Map::empty()),
        lists_of(captured, chains) == all_firsts(lists),
    ensures
        ({
            let storage = sealed(captured);
            &&& storage.holds(chains, Set::empty(), Map::empty())
            &&& paths(storage) == chains
            &&& lists_of(storage, chains) == all_firsts(lists)
            &&& inspected(storage) is Ok
            &&& forall|i: int|
                #![trigger storage.body.pages.counts[i]]
                0 <= i < captured.body.pages.high_water ==> storage.body.pages.counts[i]
                    != crate::pages::CLAIMED
            &&& captured.blobs is Some ==> forall|i: int|
                #![trigger storage.blobs->0.pages.counts[i]]
                0 <= i < captured.blobs->0.pages.high_water
                    ==> storage.blobs->0.pages.counts[i] != crate::pages::CLAIMED
        }),
{
    let storage = sealed(captured);
    lemma_sealed_storage(captured, chains);
    lemma_readable(storage, chains);
    lemma_paths(storage, chains);
    assert forall|b: int| 0 <= b < chains.len() implies #[trigger] lists_of(storage, chains)[b]
        == lists_of(captured, chains)[b] by {
        assert(records_of(storage, chains[b]) =~= records_of(captured, chains[b]));
    }
    assert(lists_of(storage, chains) =~= lists_of(captured, chains));
    let kept = all_firsts(lists);
    assert(distinct_keys(kept)) by {
        assert forall|b: int, i: int, j: int|
            #![trigger kept[b][i], kept[b][j]]
            0 <= b < kept.len() && 0 <= i < j < kept[b].len() implies kept[b][i].key
            != kept[b][j].key by {
            lemma_firsts(lists[b]);
        }
    }
    lemma_inspection_succeeds(storage, chains, chains.len() as int);
}

/// The entries of the first node of each key, which a checkpoint keeps, in the order in
/// which recovery puts them.
pub open spec fn kept_entries(storage: Storage, chains: Seq<Seq<u64>>) -> Seq<Seq<Entry>> {
    entries_of_lists(storage.config.mode, all_turned(all_firsts(lists_of(storage, chains))))
}

impl Database {
    /// Copies the first entry of each key into a generation of its own. Returns the
    /// generation. Fails where another checkpoint is at work.
    pub fn checkpoint(&mut self) -> (result: Result<u64, Error>)
        requires
            old(self).wf(),
        ensures
            final(self).wf(),
            final(self).storage() == old(self).storage(),
            final(self).chains() == old(self).chains(),
            ({
                let before = old(self).durable();
                let after = final(self).durable();
                let config = old(self).config();
                let bank = next_bank(before.generation);
                let lists = lists_of(old(self).storage(), old(self).chains());
                if before.stage != Stage::Idle {
                    &&& result == Err::<u64, Error>(Error::Busy("another checkpoint is active"))
                    &&& after == before
                } else if before.generation == u64::MAX {
                    &&& result == Err::<u64, Error>(
                        Error::CapacityExhausted("checkpoint generation"),
                    )
                    &&& after == before
                } else {
                    &&& after.stage == Stage::Idle
                    &&& other_kept(before, after, config.bucket_count as int, bank)
                    &&& match result {
                        Err(error) => {
                            &&& checkpoint_outcome(old(self).storage()) == Err::<u64, Error>(error)
                            &&& after.generation == before.generation
                            &&& manifest_at(after.heads, bank) is None
                            &&& after.banks.at(bank as int) is None
                        },
                        Ok(generation) => {
                            &&& generation == before.generation + 1
                            &&& after.generation == generation
                            &&& newest(after)
                            &&& checkpoint_outcome(old(self).storage()) is Ok
                            &&& manifest_at(after.heads, bank) == Some(
                                Manifest {
                                    generation,
                                    bank,
                                    snapshot_checksum: checkpoint_outcome(
                                        old(self).storage(),
                                    )->Ok_0,
                                },
                            )
                            &&& after.banks.at(bank as int) is Some
                            &&& banked(after, config, bank) == sealed(
                                capture_outcome(old(self).storage())->Ok_0,
                            )
                        },
                    }
                    &&& old(self).sound() ==> match capture_defect(config, lists) {
                        Some(error) => result == Err::<u64, Error>(error),
                        None => {
                            &&& result is Ok
                            &&& generation_outcome(
                                config,
                                after.heads,
                                Ok::<SnapshotFiles, Error>(after.banks.at(bank as int)->0),
                                manifest_at(after.heads, bank)->0,
                            ) == Ok::<Seq<Seq<Entry>>, Error>(
                                kept_entries(old(self).storage(), old(self).chains()),
                            )
                        },
                    }
                }
            }),
    {
        let _bank: u64 = self.start_checkpoint()?;
        match self.capture_checkpoint() {
            Ok(_) => {
                self.publish_checkpoint();
                Ok(self.finish_checkpoint())
            },
            Err(error) => {
                self.abandon_checkpoint();
                Err(error)
            },
        }
    }

    /// Gives out the files that recovery needs, as they are.
    pub fn into_checkpoint_files(self) -> (files: CheckpointFiles)
        requires
            self.wf(),
        ensures
            files.heads@ == self.durable().heads,
            files.checked_config() == Ok::<Config, Error>(self.config()),
            self.durable().banks.zero matches Some(snapshot) ==> files.zero == Ok::<
                SnapshotFiles,
                Error,
            >(snapshot),
            self.durable().banks.one matches Some(snapshot) ==> files.one == Ok::<
                SnapshotFiles,
                Error,
            >(snapshot),
            self.durable().banks.zero is None ==> files.zero == Err::<SnapshotFiles, Error>(
                Error::Corrupt("checkpoint files are missing"),
            ),
            self.durable().banks.one is None ==> files.one == Err::<SnapshotFiles, Error>(
                Error::Corrupt("checkpoint files are missing"),
            ),
    {
        proof {
            lemma_heads_room(self.table.config.bucket_count as int);
        }
        let Database { table: _, heads, generation: _, banks, stage: _, chains: _ } = self;
        let zero = match banks.zero {
            Some(files) => Ok(files),
            None => Err(Error::Corrupt("checkpoint files are missing")),
        };
        let one = match banks.one {
            Some(files) => Ok(files),
            None => Err(Error::Corrupt("checkpoint files are missing")),
        };
        CheckpointFiles { heads: heads.into_bytes(), zero, one }
    }
}

/// First value of a record list for a key.
proof fn lemma_first_record(records: Seq<Record>, mode: Mode, key: Seq<u8>)
    ensures
        ({
            let entries = records.map_values(|record: Record| entry_of(mode, record));
            let kept = turned(firsts(records), false).map_values(
                |record: Record| entry_of(mode, record),
            );
            match crate::storage::first_index(entries, key) {
                Some(index) => crate::storage::first_index(kept, key) matches Some(other)
                    && kept[other].value == entries[index].value,
                None => crate::storage::first_index(kept, key) is None,
            }
        }),
{
    let entries = records.map_values(|record: Record| entry_of(mode, record));
    let list = firsts(records);
    let back = turned(list, false);
    let kept = back.map_values(|record: Record| entry_of(mode, record));
    lemma_firsts(records);
    if crate::snapshot::has_key(records, key) {
        let some = choose|i: int| 0 <= i < records.len() && (#[trigger] records[i]).key == key;
        assert(entries[some].key == key);
        crate::storage::lemma_has_first_index(entries, key, some);
        let index = crate::storage::first_index(entries, key)->0;
        assert forall|j: int| 0 <= j < index implies (#[trigger] records[j]).key != key by {
            assert(entries[j].key == records[j].key);
        }
        lemma_kept_first(records, index);
        let place = choose|k: int| 0 <= k < list.len() && #[trigger] list[k] == records[index];
        let other = list.len() - 1 - place;
        assert(back[other] == records[index]);
        assert(kept[other].key == key);
        assert forall|j: int| 0 <= j < other implies (#[trigger] kept[j]).key != key by {
            assert(kept[j].key == list[list.len() - 1 - j].key);
        }
        assert(crate::storage::is_first(kept, key, other));
        crate::storage::lemma_first_index(kept, key, other);
    } else {
        assert forall|j: int| 0 <= j < entries.len() implies (#[trigger] entries[j]).key
            != key by {
            assert(entries[j].key == records[j].key);
        }
        crate::storage::lemma_no_first_index(entries, key);
        assert(!crate::snapshot::has_key(list, key));
        assert forall|j: int| 0 <= j < kept.len() implies (#[trigger] kept[j]).key != key by {
            assert(kept[j].key == list[list.len() - 1 - j].key);
        }
        crate::storage::lemma_no_first_index(kept, key);
    }
}

/// The first record of a key is kept.
proof fn lemma_kept_first(records: Seq<Record>, index: int)
    requires
        0 <= index < records.len(),
        forall|j: int| 0 <= j < index ==> (#[trigger] records[j]).key != records[index].key,
    ensures
        exists|k: int|
            0 <= k < firsts(records).len() && #[trigger] firsts(records)[k] == records[index],
    decreases records.len(),
{
    let front = records.drop_last();
    let kept = firsts(front);
    if index < front.len() {
        lemma_kept_first(front, index);
        let k = choose|k: int| 0 <= k < kept.len() && #[trigger] kept[k] == front[index];
        assert(firsts(records)[k] == records[index]);
    } else {
        lemma_firsts(front);
        assert(!crate::snapshot::has_key(kept, records[index].key)) by {
            assert(crate::snapshot::has_key(front, records[index].key)
                == crate::snapshot::has_key(kept, records[index].key));
        }
        assert(firsts(records)[kept.len() as int] == records[index]);
    }
}

/// What a checkpoint keeps gives every key the value that it has.
pub proof fn law_checkpoint_keeps_values(
    storage: Storage,
    chains: Seq<Seq<u64>>,
    key: Seq<u8>,
)
    requires
        storage.holds(chains, Set::empty(), Map::empty()),
    ensures
        value_for(storage.config, kept_entries(storage, chains), key) == value_for(
            storage.config,
            storage.entries(chains),
            key,
        ),
{
    let bucket = bucket_of(storage.config, key);
    let lists = lists_of(storage, chains);
    let mode = storage.config.mode;
    crate::outcomes::lemma_bucket(storage.config, key);
    lemma_entries_of_lists(storage, chains);
    lemma_first_record(lists[bucket], mode, key);
    assert(kept_entries(storage, chains)[bucket] =~= turned(
        firsts(lists[bucket]),
        false,
    ).map_values(|record: Record| entry_of(mode, record)));
    assert(storage.entries(chains)[bucket] =~= lists[bucket].map_values(
        |record: Record| entry_of(mode, record),
    ));
}

/// A checkpoint keeps one value of a key at most.
pub proof fn law_checkpoint_drops_duplicates(
    storage: Storage,
    chains: Seq<Seq<u64>>,
    key: Seq<u8>,
)
    requires
        storage.holds(chains, Set::empty(), Map::empty()),
    ensures
        crate::database::laws::values_of(
            storage.config,
            kept_entries(storage, chains),
            key,
        ).len() <= 1,
{
    let bucket = bucket_of(storage.config, key);
    let lists = lists_of(storage, chains);
    let mode = storage.config.mode;
    crate::outcomes::lemma_bucket(storage.config, key);
    lemma_entries_of_lists(storage, chains);
    let kept = kept_entries(storage, chains)[bucket];
    let list = firsts(lists[bucket]);
    let back = turned(list, false);
    assert(kept =~= back.map_values(|record: Record| entry_of(mode, record)));
    lemma_firsts(lists[bucket]);
    assert forall|i: int, j: int| 0 <= i < j < kept.len() implies (#[trigger] kept[i]).key != (
    #[trigger] kept[j]).key by {
        assert(kept[i].key == list[list.len() - 1 - i].key);
        assert(kept[j].key == list[list.len() - 1 - j].key);
    }
    crate::database::laws::lemma_held_once(kept, key);
}

/// Whether the newest manifest is that of the generation of the database.
pub open spec fn newest(durable: Durable) -> bool {
    let bank = (durable.generation % 2) as u64;
    &&& manifest_at(durable.heads, bank) matches Some(manifest) && manifest.generation
        == durable.generation
    &&& manifest_at(durable.heads, (1 - bank) as u64) matches Some(manifest) ==> manifest.generation
        < durable.generation
}

/// Whether files hold a durable state.
pub open spec fn holds_state(files: CheckpointFiles, durable: Durable) -> bool {
    &&& files.heads@ == durable.heads
    &&& durable.banks.zero matches Some(snapshot) ==> files.zero == Ok::<SnapshotFiles, Error>(
        snapshot,
    )
    &&& durable.banks.one matches Some(snapshot) ==> files.one == Ok::<SnapshotFiles, Error>(
        snapshot,
    )
}

/// Recovery gives back the entries of a checkpoint that succeeded, whatever was done
/// to the runtime state after it, and each key has the value that it had.
pub proof fn law_recovers_checkpoint(
    storage: Storage,
    chains: Seq<Seq<u64>>,
    durable: Durable,
    files: CheckpointFiles,
    key: Seq<u8>,
)
    requires
        storage.holds(chains, Set::empty(), Map::empty()),
        newest(durable),
        ({
            let bank = (durable.generation % 2) as u64;
            durable.banks.at(bank as int) is Some && generation_outcome(
                storage.config,
                durable.heads,
                Ok::<SnapshotFiles, Error>(durable.banks.at(bank as int)->0),
                manifest_at(durable.heads, bank)->0,
            ) == Ok::<Seq<Seq<Entry>>, Error>(kept_entries(storage, chains))
        }),
        holds_state(files, durable),
        files.checked_config() == Ok::<Config, Error>(storage.config),
    ensures
        files.recovery() == Ok::<(u64, Seq<Seq<Entry>>), Error>(
            (durable.generation, kept_entries(storage, chains)),
        ),
        files.snapshot(storage.config) == banked(
            durable,
            storage.config,
            (durable.generation % 2) as u64,
        ),
        value_for(storage.config, kept_entries(storage, chains), key) == value_for(
            storage.config,
            storage.entries(chains),
            key,
        ),
{
    law_checkpoint_keeps_values(storage, chains, key);
}

/// Where the newest generation cannot be recovered and the other one can, recovery
/// falls back to the other one.
pub proof fn law_recovery_falls_back(files: CheckpointFiles, config: Config)
    requires
        files.checked_config() == Ok::<Config, Error>(config),
        manifests_of(files.heads@).0 is Some,
        manifests_of(files.heads@).1 is Some,
        files.generation(config, manifests_of(files.heads@).0->0) is Err,
        files.generation(config, manifests_of(files.heads@).1->0) is Ok,
    ensures
        files.recovery() == Ok::<(u64, Seq<Seq<Entry>>), Error>(
            (
                (manifests_of(files.heads@).1->0).generation,
                files.generation(config, manifests_of(files.heads@).1->0)->Ok_0,
            ),
        ),
        (manifests_of(files.heads@).1->0).generation <= (manifests_of(
            files.heads@,
        ).0->0).generation,
{
}

/// A checkpoint, whether it succeeds or fails, leaves the generation in the other bank
/// as it was: it can be recovered afterwards exactly where it could before.
pub proof fn law_checkpoint_keeps_other_generation(
    before: Durable,
    after: Durable,
    config: Config,
    bank: u64,
)
    requires
        bank <= 1,
        other_kept(before, after, config.bucket_count as int, bank),
        manifest_at(before.heads, (1 - bank) as u64) is Some,
        before.banks.at(1 - bank) is Some,
    ensures
        ({
            let other = (1 - bank) as u64;
            &&& manifest_at(after.heads, other) == manifest_at(before.heads, other)
            &&& after.banks.at(other as int) == before.banks.at(other as int)
            &&& generation_outcome(
                config,
                after.heads,
                Ok::<SnapshotFiles, Error>(after.banks.at(other as int)->0),
                manifest_at(after.heads, other)->0,
            ) == generation_outcome(
                config,
                before.heads,
                Ok::<SnapshotFiles, Error>(before.banks.at(other as int)->0),
                manifest_at(before.heads, other)->0,
            )
        }),
{
    let other = (1 - bank) as u64;
    let manifest = manifest_at(before.heads, other)->0;
    assert(manifest.bank == other);
}

/// Whether a database knows the generation of the bank that it counts from, and a
/// manifest that is published is that of the next generation.
pub open spec fn counts_on(durable: Durable) -> bool {
    &&& manifest_at(durable.heads, (durable.generation % 2) as u64) matches Some(manifest)
        ==> manifest.generation <= durable.generation
    &&& durable.stage == Stage::Published ==> {
        let published = manifest_at(durable.heads, next_bank(durable.generation));
        published is Some && (published->0).generation == durable.generation + 1
    }
}

/// A new database counts its generations from none.
pub proof fn law_created_counts_on(config: Config)
    requires
        crate::database::database_create_defect(config) is None,
    ensures
        counts_on(
            Durable {
                heads: crate::header::header_of(config) + crate::mapped_file::zero_extended(
                    Seq::empty(),
                    heads_bytes(config.bucket_count as int) - 104,
                ),
                generation: 0,
                banks: Banks { zero: None, one: None },
                stage: Stage::Idle,
            },
        ),
{
    let rest = crate::mapped_file::zero_extended(
        Seq::empty(),
        heads_bytes(config.bucket_count as int) - 104,
    );
    let heads = crate::header::header_of(config) + rest;
    lemma_heads_room(config.bucket_count as int);
    lemma_le_fields();
    lemma_word_bytes_length(crate::header::header_words(config));
    assert(crate::header::header_of(config).len() == 104);
    crate::bytes::lemma_zero_fields(rest, 24, 8);
    crate::bytes::lemma_same_fields(heads, manifest_start(0), rest, 24, 8);
}

/// A recovered database counts on from the generation that it was recovered from.
pub proof fn law_recovered_counts_on(files: CheckpointFiles, banks: Banks)
    requires
        files.recovery() is Ok,
    ensures
        counts_on(
            Durable {
                heads: files.heads@,
                generation: (files.recovery()->Ok_0).0,
                banks,
                stage: Stage::Idle,
            },
        ),
{
}

/// A database opened from its runtime files counts on from the newest generation that
/// its heads file tells of.
pub proof fn law_reopened_counts_on(heads: Seq<u8>, banks: Banks)
    ensures
        counts_on(
            Durable {
                heads,
                generation: newest_generation(heads),
                banks,
                stage: Stage::Idle,
            },
        ),
{
}

/// A checkpoint of a database that counts on is the newest generation, and the
/// database counts on.
pub proof fn law_checkpoint_is_newest(before: Durable, after: Durable, bucket_count: int)
    requires
        counts_on(before),
        before.generation < u64::MAX,
        other_kept(before, after, bucket_count, next_bank(before.generation)),
        after.generation == before.generation + 1,
        after.stage == Stage::Idle,
        manifest_at(after.heads, next_bank(before.generation)) matches Some(manifest)
            && manifest.generation == after.generation,
    ensures
        newest(after),
        counts_on(after),
{
}

/// Bringing the files up to date makes no checkpoint: both manifests and the
/// roots of both banks stay as they are.
pub proof fn law_sync_makes_no_checkpoint(heads: Seq<u8>, runtime_heads: Seq<u64>, bank: u64)
    requires
        bank <= 1,
        heads.len() == heads_bytes(runtime_heads.len() as int),
    ensures
        manifest_at(crate::database::with_heads(heads, runtime_heads), bank) == manifest_at(
            heads,
            bank,
        ),
        roots_at(
            crate::database::with_heads(heads, runtime_heads),
            runtime_heads.len() as int,
            bank as int,
        ) == roots_at(heads, runtime_heads.len() as int, bank as int),
{
    let count = runtime_heads.len() as int;
    let after = crate::database::with_heads(heads, runtime_heads);
    let start = manifest_start(bank as int);
    lemma_heads_room(count);
    lemma_word_bytes_length(runtime_heads);
    crate::bytes::lemma_same_fields(after, start, heads, start, 8);
    crate::bytes::lemma_same_fields(after, start + 8, heads, start + 8, 8);
    crate::bytes::lemma_same_fields(after, start + 16, heads, start + 16, 8);
    crate::bytes::lemma_same_fields(after, start + 24, heads, start + 24, 8);
    crate::bytes::lemma_same_fields(after, start + 32, heads, start + 32, 8);
    let roots = crate::header::bank_start(count, bank as int);
    assert forall|i: int| 0 <= i < count implies #[trigger] roots_at(
        after,
        count,
        bank as int,
    )[i] == roots_at(heads, count, bank as int)[i] by {
        crate::bytes::lemma_same_fields(after, roots + 8 * i, heads, roots + 8 * i, 8);
    }
    assert(roots_at(after, count, bank as int) =~= roots_at(heads, count, bank as int));
}

} // verus!
