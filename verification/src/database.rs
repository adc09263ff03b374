//! The primary database API.

pub mod checkpoint;
pub mod files;
pub mod headroom;
pub mod laws;
pub mod opening;
pub mod room;

use vstd::prelude::*;

use crate::allocator::{AllocatorFiles, BlockAllocator};
#[allow(unused_imports)]
use crate::allocator::{batch_outcome, Files};
#[allow(unused_imports)]
use crate::bytes::{le64, lemma_patched_fields, lemma_same_fields, patched};
#[allow(unused_imports)]
use crate::batch::{fetch_fails, lemma_fetch_fails};
use crate::config::{Config, Mode};
#[allow(unused_imports)]
use crate::config::{lemma_layout_rule, KEY_SIZE};
#[allow(unused_imports)]
use crate::deletion::{batch_defect, deletion_report, entries_stripped, pop_report};
use crate::error::Error;
use crate::header::{heads_length, initialize_header, read_config};
#[allow(unused_imports)]
use crate::header::{
    bank_bytes, config_of, header_of, heads_bytes, heads_defect, lemma_header, lemma_word_bytes,
    lemma_word_bytes_length, word_bytes,
};
#[allow(unused_imports)]
use crate::insertion::{arranged, arrangement, batch_entries, entries_inserted, insert_defect};
#[allow(unused_imports)]
use crate::insertion::steps::insert_outcome;
use crate::layout::HEADS_START;
#[allow(unused_imports)]
use crate::layout::{DATA_START, FORMAT_PAGE_SIZE, NODE_ALIGNMENT, NODE_SIZE};
use crate::mapped_file::MappedFile;
#[allow(unused_imports)]
use crate::mapped_file::zero_extended;
#[allow(unused_imports)]
use crate::outcomes::{
    add_outcome, bucket_put, chain_put, chains_deleted, delete_outcome, entries_deleted, key_defect,
    lemma_added, lemma_deleted, lemma_lookup, lemma_put, next_node, put_defect, put_outcome,
    put_result,
};
use crate::outcomes::PutOutcome;
#[allow(unused_imports)]
use crate::pages::Pages;
#[allow(unused_imports)]
use crate::prepared::{key_views, keys_defect, lemma_keys_defect};
#[allow(unused_imports)]
use crate::storage::{bucket_of, chained, first_index, linked, slot, Entry, Storage};
use crate::table::Table;
#[allow(unused_imports)]
use crate::table::{contains_outcome, get_outcome};
#[allow(unused_imports)]
use crate::values::lemma_valid_blob_reads;

#[allow(unused_imports)]
use crate::database::checkpoint::{
    counts_on, law_created_counts_on, law_reopened_counts_on, law_sync_makes_no_checkpoint,
};
#[allow(unused_imports)]
use crate::database::room::{batch_fits, law_batch_finds_room};
#[allow(unused_imports)]
use crate::manifest::newest_generation;
use crate::manifest::read_manifests;

verus! {

/// Reports whether an operation published a new node or replaced one.
#[derive(Clone, Copy, Debug, PartialEq, Eq, Structural)]
pub enum PutResult {
    /// A new node was published; append-only set adds may retain an equivalent older node.
    Inserted,
    /// An existing node for the key was replaced.
    Replaced,
}

/// The runtime files of a database.
pub struct RuntimeFiles {
    /// The heads file.
    pub heads: Vec<u8>,
    /// The body files.
    pub body: AllocatorFiles,
    /// The blob files; none for a set.
    pub blobs: Option<AllocatorFiles>,
}

/// Files of one checkpoint generation.
pub struct SnapshotFiles {
    /// The nodes.
    pub body: AllocatorFiles,
    /// The values that do not fit a node; none in a set.
    pub blobs: Option<AllocatorFiles>,
}

/// The files of both checkpoint banks.
pub struct Banks {
    /// Files of bank zero.
    pub zero: Option<SnapshotFiles>,
    /// Files of bank one.
    pub one: Option<SnapshotFiles>,
}

impl Banks {
    /// The files of a bank.
    pub open spec fn at(&self, bank: int) -> Option<SnapshotFiles> {
        if bank == 0 {
            self.zero
        } else {
            self.one
        }
    }

    /// Replaces the files of a bank.
    pub(crate) fn put(&mut self, bank: u64, files: Option<SnapshotFiles>)
        requires
            bank <= 1,
        ensures
            final(self).at(bank as int) == files,
            final(self).at(1 - bank) == old(self).at(1 - bank),
    {
        if bank == 0 {
            self.zero = files;
        } else {
            self.one = files;
        }
    }
}

/// How far the checkpoint at work has come.
#[derive(Clone, Copy, Debug, PartialEq, Eq, Structural)]
pub enum Stage {
    /// No checkpoint is at work.
    Idle,
    /// The next bank is cleared.
    Started,
    /// The next bank holds a snapshot with this checksum.
    Captured(u64),
    /// The next bank has its manifest.
    Published,
}

/// A handle to one map or set. Every key is exactly 16 bytes.
pub struct Database {
    table: Table,
    heads: MappedFile,
    generation: u64,
    banks: Banks,
    stage: Stage,
    chains: Ghost<Seq<Seq<u64>>>,
}

/// What of a database its entries do not depend on: the heads file, the checkpoints,
/// and the one that is at work.
#[verifier::ext_equal]
pub struct Durable {
    /// The heads file.
    pub heads: Seq<u8>,
    /// Generation of the last checkpoint.
    pub generation: u64,
    /// The files of each checkpoint bank.
    pub banks: Banks,
    /// How far the checkpoint at work has come.
    pub stage: Stage,
}

/// What stands in the way of a new database, if anything.
pub open spec fn database_create_defect(config: Config) -> Option<Error> {
    match config.defect() {
        Some(rule) => Some(Error::InvalidConfig(rule)),
        None => None,
    }
}

/// Files without any page.
pub open spec fn empty_files(capacity: int, block_size: int) -> Files {
    Files {
        data: zero_extended(Seq::empty(), DATA_START as int),
        pages: Pages {
            block_size,
            block_count: capacity / block_size,
            counts: Seq::empty(),
            high_water: 0,
            open: None,
        },
    }
}

/// The storage of an empty database.
pub open spec fn empty_storage(config: Config) -> Storage {
    Storage {
        config,
        heads: Seq::new(config.bucket_count as nat, |i: int| 0u64),
        body: empty_files(config.body_capacity as int, config.block_size as int),
        blobs: if config.mode == Mode::KeyMap {
            Some(empty_files(config.blob_capacity as int, config.block_size as int))
        } else {
            None
        },
    }
}

/// Chains without any node.
pub open spec fn empty_chains(config: Config) -> Seq<Seq<u64>> {
    Seq::new(config.bucket_count as nat, |i: int| Seq::<u64>::empty())
}

/// An empty database is sound and has no entry.
pub proof fn lemma_empty_storage(config: Config)
    requires
        config.valid(),
        empty_storage(config).body.wf(),
        empty_storage(config).blobs matches Some(files) ==> files.wf(),
    ensures
        empty_storage(config).holds(empty_chains(config), Set::empty(), Map::empty()),
        empty_storage(config).entries(empty_chains(config)) == Seq::new(
            config.bucket_count as nat,
            |i: int| Seq::<Entry>::empty(),
        ),
{
    let storage = empty_storage(config);
    let chains = empty_chains(config);
    let none = Map::<int, int>::empty();
    vstd::arithmetic::div_mod::lemma_fundamental_div_mod(
        config.body_capacity as int,
        config.block_size as int,
    );
    vstd::arithmetic::mul::lemma_mul_is_commutative(
        config.body_capacity as int / config.block_size as int,
        config.block_size as int,
    );
    vstd::arithmetic::div_mod::lemma_fundamental_div_mod(
        config.blob_capacity as int,
        config.block_size as int,
    );
    vstd::arithmetic::mul::lemma_mul_is_commutative(
        config.blob_capacity as int / config.block_size as int,
        config.block_size as int,
    );
    assert forall|b: int, i: int| !slot(chains, b, i) by {}
    assert forall|o: int| !chained(chains, o) by {}
    assert forall|o: int| !storage.referred(chains, o) by {}
    assert(storage.live_nodes(chains, Set::empty()) =~= none);
    assert(storage.live_blobs(chains, none) =~= none);
    assert forall|b: int|
        #![trigger storage.entries(chains)[b]]
        0 <= b < chains.len() implies storage.entries(chains)[b] == Seq::<Entry>::empty() by {
        assert(storage.entries_of(chains[b]) =~= Seq::empty());
    }
    assert(storage.entries(chains) =~= Seq::new(
        config.bucket_count as nat,
        |i: int| Seq::<Entry>::empty(),
    ));
}

impl View for Database {
    type V = Seq<Seq<Entry>>;

    /// The entries of each bucket, newest first.
    open spec fn view(&self) -> Seq<Seq<Entry>> {
        self.storage().entries(self.chains())
    }
}

impl Database {
    /// What the runtime files hold.
    pub closed spec fn storage(&self) -> Storage {
        self.table.storage()
    }

    /// The offsets of the nodes of each bucket, newest first.
    pub closed spec fn chains(&self) -> Seq<Seq<u64>> {
        self.chains@
    }

    /// The heads file and the checkpoints.
    pub closed spec fn durable(&self) -> Durable {
        Durable {
            heads: self.heads@,
            generation: self.generation,
            banks: self.banks,
            stage: self.stage,
        }
    }

    /// The configuration.
    pub open spec fn config(&self) -> Config {
        self.storage().config
    }

    /// Validity of the files, whatever the chains are like.
    pub closed spec fn wf(&self) -> bool {
        &&& self.table.wf()
        &&& self.heads.wf()
        &&& self.heads@.len() == heads_bytes(self.table.config.bucket_count as int)
        &&& config_of(self.heads@) == Ok::<Config, Error>(self.table.config)
        &&& self.stage != Stage::Idle ==> self.generation < u64::MAX
        &&& counts_on(self.durable())
    }

    /// A valid database counts its generations on from the manifests that its heads
    /// file holds.
    pub proof fn law_counts_on(&self)
        requires
            self.wf(),
        ensures
            counts_on(self.durable()),
    {
    }

    /// Every bucket is a chain of valid nodes, no node and no blob is used twice, and
    /// the page counts are those of the nodes and blobs.
    pub open spec fn sound(&self) -> bool {
        self.storage().holds(self.chains(), Set::empty(), Map::empty())
    }

    /// Creates an empty database.
    pub fn create(config: Config) -> (result: Result<Database, Error>)
        ensures
            match result {
                Ok(database) => {
                    &&& database_create_defect(config) is None
                    &&& database.wf()
                    &&& database.sound()
                    &&& database.storage() == empty_storage(config)
                    &&& database@ == Seq::new(
                        config.bucket_count as nat,
                        |i: int| Seq::<Entry>::empty(),
                    )
                    &&& database.durable() == (Durable {
                        heads: header_of(config) + zero_extended(
                            Seq::empty(),
                            heads_bytes(config.bucket_count as int) - 104,
                        ),
                        generation: 0,
                        banks: Banks { zero: None, one: None },
                        stage: Stage::Idle,
                    })
                },
                Err(error) => database_create_defect(config) == Some(error),
            },
    {
        config.validate()?;
        proof {
            lemma_layout_rule(config);
            reveal(Config::layout_defect);
        }
        let length: u64 = heads_length(config.bucket_count)?;
        let mut heads = MappedFile::create(length)?;
        let header = initialize_header(&config);
        let ghost before = heads@;
        match heads.copy_in(0, header.as_slice()) {
            Ok(_) => {},
            Err(error) => {
                return Err(error);
            },
        }
        proof {
            assert(heads@ =~= header_of(config) + zero_extended(
                Seq::empty(),
                heads_bytes(config.bucket_count as int) - 104,
            ));
            assert(heads@.subrange(0, 104) =~= header_of(config));
            lemma_header(heads@, config);
        }
        let runtime_heads = create_runtime_heads(config.bucket_count, heads.as_bytes(), false);
        let body = BlockAllocator::create(config.body_capacity, config.block_size)?;
        let blobs = if config.mode == Mode::KeyMap {
            Some(BlockAllocator::create(config.blob_capacity, config.block_size)?)
        } else {
            None
        };
        let database = Database {
            table: Table { config, heads: runtime_heads, body, blobs },
            heads,
            generation: 0,
            banks: Banks { zero: None, one: None },
            stage: Stage::Idle,
            chains: Ghost(empty_chains(config)),
        };
        proof {
            assert(database.storage().heads =~= empty_storage(config).heads);
            assert(database.storage() == empty_storage(config));
            law_created_counts_on(config);
            lemma_empty_storage(config);
        }
        Ok(database)
    }
}

/// Whether `values` holds the value of each key, if it has one.
pub open spec fn values_for(
    config: Config,
    entries: Seq<Seq<Entry>>,
    keys: Seq<&[u8]>,
    values: Seq<Option<Vec<u8>>>,
) -> bool {
    &&& values.len() == keys.len()
    &&& forall|i: int|
        0 <= i < keys.len() ==> match value_for(config, entries, keys[i]@) {
            Some(value) => #[trigger] values[i] matches Some(bytes) && bytes@ == value,
            None => values[i] is None,
        }
}

/// The entries of the bucket of `key`.
pub open spec fn bucket_entries(config: Config, entries: Seq<Seq<Entry>>, key: Seq<u8>) -> Seq<
    Entry,
> {
    entries[bucket_of(config, key)]
}

/// The value that a map has for a key: that of the first entry.
pub open spec fn value_for(config: Config, entries: Seq<Seq<Entry>>, key: Seq<u8>) -> Option<
    Seq<u8>,
> {
    let bucket = bucket_entries(config, entries, key);
    match first_index(bucket, key) {
        Some(index) => Some(bucket[index].value),
        None => None,
    }
}

/// What a put reports.
pub open spec fn put_report(outcome: Result<PutOutcome, Error>) -> Result<PutResult, Error> {
    match outcome {
        Ok(PutOutcome::Inserted) => Ok(PutResult::Inserted),
        Ok(PutOutcome::Replaced) => Ok(PutResult::Replaced),
        Ok(PutOutcome::Existing) => Err(Error::Corrupt("upsert reported an existing key")),
        Err(error) => Err(error),
    }
}

/// What a put of an absent key reports.
pub open spec fn put_new_report(outcome: Result<PutOutcome, Error>) -> Result<bool, Error> {
    match outcome {
        Ok(PutOutcome::Inserted) => Ok(true),
        Ok(PutOutcome::Existing) => Ok(false),
        Ok(PutOutcome::Replaced) => Err(Error::Corrupt("insert-only put replaced a key")),
        Err(error) => Err(error),
    }
}

impl Database {
    /// Adds one key to a set without searching the bucket.
    ///
    /// Every call publishes a new node, even when an equivalent key already exists.
    pub fn add(&mut self, key: &[u8]) -> (result: Result<PutResult, Error>)
        requires
            old(self).wf(),
        ensures
            final(self).wf(),
            final(self).config() == old(self).config(),
            final(self).durable() == old(self).durable(),
            old(self).sound() ==> final(self).sound(),
            if old(self).config().mode != Mode::KeySet {
                &&& result == Err::<PutResult, Error>(
                    Error::Unsupported("add is available only for sets"),
                )
                &&& final(self).storage() == old(self).storage()
                &&& final(self)@ == old(self)@
            } else {
                &&& final(self).storage() == add_outcome(old(self).storage(), key@).0
                &&& result == (match add_outcome(old(self).storage(), key@).1 {
                    Ok(_) => Ok::<PutResult, Error>(PutResult::Inserted),
                    Err(error) => Err(error),
                })
                &&& old(self).sound() && key@.len() != KEY_SIZE ==> result is Err && final(self)@
                    == old(self)@
                &&& old(self).sound() && key@.len() == KEY_SIZE ==> match batch_outcome(
                    old(self).storage().body.pages,
                    NODE_SIZE as int,
                    NODE_ALIGNMENT as int,
                    1,
                ).1 {
                    Ok(_) => {
                        &&& result == Ok::<PutResult, Error>(PutResult::Inserted)
                        &&& final(self)@ == old(self)@.update(
                            bucket_of(old(self).config(), key@),
                            seq![Entry { key: key@, value: Seq::empty() }] + bucket_entries(
                                old(self).config(),
                                old(self)@,
                                key@,
                            ),
                        )
                    },
                    Err(error) => result == Err::<PutResult, Error>(error) && final(self)@ == old(
                        self,
                    )@,
                }
            },
    {
        if self.table.config.mode != Mode::KeySet {
            return Err(Error::Unsupported("add is available only for sets"));
        }
        let ghost before = *self;
        let inserted = self.table.insert_one(key);
        proof {
            let storage = before.storage();
            let bucket = bucket_of(storage.config, key@);
            if before.sound() && key@.len() == KEY_SIZE {
                lemma_added(storage, before.chains(), key@);
                if inserted is Ok {
                    self.chains@ = before.chains().update(
                        bucket,
                        seq![next_node(storage.body)] + before.chains()[bucket],
                    );
                }
            }
            lemma_rejected_key(storage, key@);
        }
        match inserted {
            Ok(_) => Ok(PutResult::Inserted),
            Err(error) => Err(error),
        }
    }

    /// Inserts or replaces a map value.
    pub fn put(&mut self, key: &[u8], value: &[u8]) -> (result: Result<PutResult, Error>)
        requires
            old(self).wf(),
        ensures
            final(self).wf(),
            final(self).config() == old(self).config(),
            final(self).durable() == old(self).durable(),
            old(self).sound() ==> final(self).sound(),
            if old(self).config().mode != Mode::KeyMap {
                &&& result == Err::<PutResult, Error>(
                    Error::Unsupported("put is available only for maps"),
                )
                &&& final(self).storage() == old(self).storage()
                &&& final(self)@ == old(self)@
            } else {
                &&& final(self).storage() == put_outcome(
                    old(self).storage(),
                    key@,
                    value@,
                    true,
                ).0
                &&& result == put_report(put_outcome(old(self).storage(), key@, value@, true).1)
                &&& old(self).sound() && key@.len() != KEY_SIZE ==> result is Err && final(self)@
                    == old(self)@
                &&& old(self).sound() && key@.len() == KEY_SIZE ==> match put_defect(
                    old(self).storage(),
                    value@,
                ) {
                    None => {
                        &&& result == Ok::<PutResult, Error>(
                            if value_for(old(self).config(), old(self)@, key@) is Some {
                                PutResult::Replaced
                            } else {
                                PutResult::Inserted
                            },
                        )
                        &&& final(self)@ == old(self)@.update(
                            bucket_of(old(self).config(), key@),
                            bucket_put(
                                bucket_entries(old(self).config(), old(self)@, key@),
                                Entry { key: key@, value: value@ },
                                true,
                            ),
                        )
                    },
                    Some(error) => result == Err::<PutResult, Error>(error) && final(self)@ == old(
                        self,
                    )@,
                }
            },
    {
        if self.table.config.mode != Mode::KeyMap {
            return Err(Error::Unsupported("put is available only for maps"));
        }
        match self.put_tracked(key, value, true)? {
            PutOutcome::Inserted => Ok(PutResult::Inserted),
            PutOutcome::Replaced => Ok(PutResult::Replaced),
            PutOutcome::Existing => Err(Error::Corrupt("upsert reported an existing key")),
        }
    }

    /// Inserts a map value only when its key does not exist.
    pub fn put_new(&mut self, key: &[u8], value: &[u8]) -> (result: Result<bool, Error>)
        requires
            old(self).wf(),
        ensures
            final(self).wf(),
            final(self).config() == old(self).config(),
            final(self).durable() == old(self).durable(),
            old(self).sound() ==> final(self).sound(),
            if old(self).config().mode != Mode::KeyMap {
                &&& result == Err::<bool, Error>(
                    Error::Unsupported("put_new is available only for maps"),
                )
                &&& final(self).storage() == old(self).storage()
                &&& final(self)@ == old(self)@
            } else {
                &&& final(self).storage() == put_outcome(
                    old(self).storage(),
                    key@,
                    value@,
                    false,
                ).0
                &&& result == put_new_report(
                    put_outcome(old(self).storage(), key@, value@, false).1,
                )
                &&& old(self).sound() && key@.len() != KEY_SIZE ==> result is Err && final(self)@
                    == old(self)@
                &&& old(self).sound() && key@.len() == KEY_SIZE ==> match put_defect(
                    old(self).storage(),
                    value@,
                ) {
                    None => {
                        &&& result == Ok::<bool, Error>(
                            value_for(old(self).config(), old(self)@, key@) is None,
                        )
                        &&& final(self)@ == old(self)@.update(
                            bucket_of(old(self).config(), key@),
                            bucket_put(
                                bucket_entries(old(self).config(), old(self)@, key@),
                                Entry { key: key@, value: value@ },
                                false,
                            ),
                        )
                    },
                    Some(error) => result == Err::<bool, Error>(error) && final(self)@ == old(
                        self,
                    )@,
                }
            },
    {
        if self.table.config.mode != Mode::KeyMap {
            return Err(Error::Unsupported("put_new is available only for maps"));
        }
        match self.put_tracked(key, value, false)? {
            PutOutcome::Inserted => Ok(true),
            PutOutcome::Existing => Ok(false),
            PutOutcome::Replaced => Err(Error::Corrupt("insert-only put replaced a key")),
        }
    }

    /// Puts a value and keeps track of the chains.
    fn put_tracked(&mut self, key: &[u8], value: &[u8], replace: bool) -> (result: Result<
        PutOutcome,
        Error,
    >)
        requires
            old(self).wf(),
            old(self).config().mode == Mode::KeyMap,
        ensures
            final(self).wf(),
            final(self).config() == old(self).config(),
            final(self).durable() == old(self).durable(),
            (final(self).storage(), result) == put_outcome(
                old(self).storage(),
                key@,
                value@,
                replace,
            ),
            old(self).sound() ==> final(self).sound(),
            old(self).sound() && key@.len() != KEY_SIZE ==> result is Err && final(self)@ == old(
                self,
            )@,
            old(self).sound() && key@.len() == KEY_SIZE ==> match put_defect(
                old(self).storage(),
                value@,
            ) {
                None => {
                    let bucket = bucket_entries(old(self).config(), old(self)@, key@);
                    &&& result == Ok::<PutOutcome, Error>(put_result(bucket, key@, replace))
                    &&& final(self)@ == old(self)@.update(
                        bucket_of(old(self).config(), key@),
                        bucket_put(bucket, Entry { key: key@, value: value@ }, replace),
                    )
                },
                Some(error) => result == Err::<PutOutcome, Error>(error) && final(self)@ == old(
                    self,
                )@,
            },
    {
        let ghost before = *self;
        let outcome = self.table.put_inner(key, value, replace);
        proof {
            let storage = before.storage();
            let bucket = bucket_of(storage.config, key@);
            if before.sound() && key@.len() == KEY_SIZE {
                lemma_put(storage, before.chains(), key@, value@, replace);
                if put_defect(storage, value@) is None {
                    self.chains@ = before.chains().update(
                        bucket,
                        chain_put(
                            storage.entries(before.chains())[bucket],
                            before.chains()[bucket],
                            key@,
                            next_node(storage.body),
                            replace,
                        ),
                    );
                }
            }
        }
        outcome
    }

    /// Returns a copied map value.
    pub fn get(&self, key: &[u8]) -> (result: Result<Option<Vec<u8>>, Error>)
        requires
            self.wf(),
        ensures
            if self.config().mode != Mode::KeyMap {
                result == Err::<Option<Vec<u8>>, Error>(
                    Error::Unsupported("get is available only for maps"),
                )
            } else {
                &&& match get_outcome(self.storage(), key@) {
                    Ok(Some(value)) => result matches Ok(Some(bytes)) && bytes@ == value,
                    Ok(None) => result matches Ok(None),
                    Err(error) => result == Err::<Option<Vec<u8>>, Error>(error),
                }
                &&& self.sound() && key@.len() == KEY_SIZE ==> match value_for(
                    self.config(),
                    self@,
                    key@,
                ) {
                    Some(value) => result matches Ok(Some(bytes)) && bytes@ == value,
                    None => result matches Ok(None),
                }
            },
    {
        if self.table.config.mode != Mode::KeyMap {
            return Err(Error::Unsupported("get is available only for maps"));
        }
        proof {
            if self.sound() && key@.len() == KEY_SIZE {
                lemma_get(self.storage(), self.chains(), key@);
            }
        }
        self.table.get(key)
    }

    /// Tests membership in either a set or map.
    pub fn contains(&self, key: &[u8]) -> (result: Result<bool, Error>)
        requires
            self.wf(),
        ensures
            result == contains_outcome(self.storage(), key@),
            self.sound() && key@.len() == KEY_SIZE ==> result == Ok::<bool, Error>(
                value_for(self.config(), self@, key@) is Some,
            ),
    {
        proof {
            if self.sound() && key@.len() == KEY_SIZE {
                lemma_lookup(self.storage(), self.chains(), Set::empty(), Map::empty(), key@);
            }
        }
        self.table.contains(key)
    }

    /// Unlinks the newest node of one key and immediately recycles empty pages.
    pub fn delete(&mut self, key: &[u8]) -> (result: Result<bool, Error>)
        requires
            old(self).wf(),
        ensures
            final(self).wf(),
            final(self).config() == old(self).config(),
            final(self).durable() == old(self).durable(),
            (final(self).storage(), result) == delete_outcome(old(self).storage(), key@),
            old(self).sound() ==> final(self).sound(),
            old(self).sound() && key@.len() != KEY_SIZE ==> result is Err && final(self)@ == old(
                self,
            )@,
            old(self).sound() && key@.len() == KEY_SIZE ==> {
                &&& result == Ok::<bool, Error>(
                    value_for(old(self).config(), old(self)@, key@) is Some,
                )
                &&& final(self)@ == entries_deleted(old(self).config(), old(self)@, key@)
            },
    {
        let ghost before = *self;
        let deleted = self.table.delete(key);
        proof {
            if before.sound() && key@.len() == KEY_SIZE {
                lemma_deleted(before.storage(), before.chains(), key@);
                self.chains@ = chains_deleted(before.storage(), before.chains(), key@);
            }
        }
        deleted
    }
}

impl Database {
    /// Returns values for a batch of keys in input order.
    pub fn batch_fetch(&self, keys: &[&[u8]]) -> (result: Result<Vec<Option<Vec<u8>>>, Error>)
        requires
            self.wf(),
        ensures
            if self.config().mode != Mode::KeyMap {
                result == Err::<Vec<Option<Vec<u8>>>, Error>(
                    Error::Unsupported("batch_fetch is available only for maps"),
                )
            } else {
                match keys_defect(key_views(keys@)) {
                    Some(error) => result == Err::<Vec<Option<Vec<u8>>>, Error>(error),
                    None => {
                        &&& match result {
                            Ok(values) => values@.len() == keys@.len() && forall|i: int|
                                0 <= i < keys@.len() ==> match get_outcome(
                                    self.storage(),
                                    keys@[i]@,
                                ) {
                                    Ok(Some(value)) => #[trigger] values@[i] matches Some(bytes)
                                        && bytes@ == value,
                                    Ok(None) => values@[i] is None,
                                    Err(_) => false,
                                },
                            Err(error) => fetch_fails(self.storage(), key_views(keys@), error),
                        }
                        &&& self.sound() ==> result is Ok && values_for(
                            self.config(),
                            self@,
                            keys@,
                            result->Ok_0@,
                        )
                    },
                }
            },
    {
        if self.table.config.mode != Mode::KeyMap {
            return Err(Error::Unsupported("batch_fetch is available only for maps"));
        }
        let result = self.table.batch_fetch(keys);
        proof {
            let views = key_views(keys@);
            lemma_keys_defect(views);
            if self.sound() && keys_defect(views) is None {
                assert forall|i: int| 0 <= i < keys@.len() implies get_outcome(
                    self.storage(),
                    (#[trigger] keys@[i])@,
                ) == Ok::<Option<Seq<u8>>, Error>(value_for(self.config(), self@, keys@[i]@)) by {
                    assert(views[i].len() == KEY_SIZE);
                    lemma_get(self.storage(), self.chains(), keys@[i]@);
                }
                if result is Err {
                    let error = result->Err_0;
                    lemma_fetch_fails(self.storage(), views, error);
                    let i = choose|i: int|
                        0 <= i < views.len() && get_outcome(self.storage(), #[trigger] views[i])
                            == Err::<Option<Seq<u8>>, Error>(error);
                    assert(views[i] == keys@[i]@);
                }
                if result is Ok {
                    let values = result->Ok_0;
                    assert forall|i: int| 0 <= i < keys@.len() implies match value_for(
                        self.config(),
                        self@,
                        keys@[i]@,
                    ) {
                        Some(value) => #[trigger] values@[i] matches Some(bytes) && bytes@ == value,
                        None => values@[i] is None,
                    } by {
                        assert(keys@[i]@ == keys@[i]@);
                    }
                }
            }
        }
        result
    }

    /// Deletes a batch of unique keys, and tells for each key in input order whether a
    /// node was removed.
    pub fn batch_delete(&mut self, keys: &[&[u8]]) -> (result: Result<Vec<bool>, Error>)
        requires
            old(self).wf(),
        ensures
            final(self).wf(),
            final(self).config() == old(self).config(),
            final(self).durable() == old(self).durable(),
            old(self).sound() ==> final(self).sound(),
            result matches Ok(deleted) ==> deleted@.len() == keys@.len(),
            match batch_defect(key_views(keys@)) {
                Some(error) => result == Err::<Vec<bool>, Error>(error) && final(self).storage()
                    == old(self).storage() && final(self)@ == old(self)@,
                None => {
                    &&& deletion_report(
                        old(self).storage(),
                        keys@,
                        final(self).storage(),
                        result,
                    )
                    &&& old(self).sound() ==> {
                        &&& final(self)@ == entries_stripped(old(self)@, key_views(keys@))
                        &&& result matches Ok(deleted) && deleted@.len() == keys@.len() && forall|
                            i: int,
                        |
                            0 <= i < keys@.len() ==> #[trigger] deleted@[i] == (value_for(
                                old(self).config(),
                                old(self)@,
                                keys@[i]@,
                            ) is Some)
                    }
                },
            },
    {
        self.table.batch_delete(keys, &mut self.chains)
    }

    /// Deletes map entries and returns their values in input order.
    pub fn batch_pop(&mut self, keys: &[&[u8]]) -> (result: Result<Vec<Option<Vec<u8>>>, Error>)
        requires
            old(self).wf(),
        ensures
            final(self).wf(),
            final(self).config() == old(self).config(),
            final(self).durable() == old(self).durable(),
            old(self).sound() ==> final(self).sound(),
            result matches Ok(values) ==> values@.len() == keys@.len(),
            if old(self).config().mode != Mode::KeyMap {
                &&& result == Err::<Vec<Option<Vec<u8>>>, Error>(
                    Error::Unsupported("batch_pop is available only for maps"),
                )
                &&& final(self).storage() == old(self).storage()
                &&& final(self)@ == old(self)@
            } else {
                match batch_defect(key_views(keys@)) {
                    Some(error) => {
                        &&& result == Err::<Vec<Option<Vec<u8>>>, Error>(error)
                        &&& final(self).storage() == old(self).storage()
                        &&& final(self)@ == old(self)@
                    },
                    None => {
                        &&& pop_report(old(self).storage(), keys@, final(self).storage(), result)
                        &&& old(self).sound() ==> {
                            &&& final(self)@ == entries_stripped(old(self)@, key_views(keys@))
                            &&& result is Ok
                            &&& values_for(old(self).config(), old(self)@, keys@, result->Ok_0@)
                        }
                    },
                }
            },
    {
        if self.table.config.mode != Mode::KeyMap {
            return Err(Error::Unsupported("batch_pop is available only for maps"));
        }
        self.table.batch_pop(keys, &mut self.chains)
    }
}

/// What a batch insertion of `count` entries makes of the files, and what it returns.
pub open spec fn batch_insert_outcome(
    storage: Storage,
    keys: Seq<Seq<u8>>,
    values: Seq<Seq<u8>>,
    count: usize,
) -> (Storage, Result<usize, Error>) {
    let items = arrangement(storage.config, keys);
    let list = batch_entries(storage.config.mode, keys, values);
    let (after, outcome) = insert_outcome(storage, arranged(list, items), items);
    (after, match outcome {
        Ok(_) => Ok(count),
        Err(error) => Err(error),
    })
}

/// What a batch insertion does to a sound database.
pub open spec fn insert_report(
    storage: Storage,
    entries: Seq<Seq<Entry>>,
    keys: Seq<Seq<u8>>,
    values: Seq<Seq<u8>>,
) -> (Seq<Seq<Entry>>, Option<Error>) {
    let list = batch_entries(storage.config.mode, keys, values);
    let defect = insert_defect(
        storage.config.mode,
        storage.body.pages,
        storage.blobs,
        arranged(list, arrangement(storage.config, keys)),
        0,
    );
    match defect {
        Some(error) => (entries, Some(error)),
        None => (entries_inserted(storage.config, entries, list), None),
    }
}

impl Database {
    /// Adds a batch of set keys without a search, and returns their number.
    pub fn add_batch(&mut self, keys: &[&[u8]]) -> (result: Result<usize, Error>)
        requires
            old(self).wf(),
        ensures
            final(self).wf(),
            final(self).config() == old(self).config(),
            final(self).durable() == old(self).durable(),
            old(self).sound() ==> final(self).sound(),
            result matches Ok(count) ==> count == keys.len(),
            if old(self).config().mode != Mode::KeySet {
                &&& result == Err::<usize, Error>(
                    Error::Unsupported("add_batch is available only for sets"),
                )
                &&& final(self).storage() == old(self).storage()
                &&& final(self)@ == old(self)@
            } else {
                match keys_defect(key_views(keys@)) {
                    Some(error) => {
                        &&& result == Err::<usize, Error>(error)
                        &&& final(self).storage() == old(self).storage()
                        &&& final(self)@ == old(self)@
                    },
                    None => {
                        let (entries, defect) = insert_report(
                            old(self).storage(),
                            old(self)@,
                            key_views(keys@),
                            Seq::empty(),
                        );
                        &&& (final(self).storage(), result) == batch_insert_outcome(
                            old(self).storage(),
                            key_views(keys@),
                            Seq::empty(),
                            keys.len(),
                        )
                        &&& old(self).sound() ==> final(self)@ == entries && result == (
                        match defect {
                            Some(error) => Err::<usize, Error>(error),
                            None => Ok(keys.len()),
                        })
                        &&& old(self).sound() && batch_fits(
                            old(self).storage(),
                            Seq::empty(),
                            keys.len() as int,
                        ) ==> result == Ok::<usize, Error>(keys.len())
                    },
                }
            },
    {
        if self.table.config.mode != Mode::KeySet {
            return Err(Error::Unsupported("add_batch is available only for sets"));
        }
        let values: Vec<&[u8]> = Vec::new();
        let ghost before = *self;
        proof {
            assert(key_views(values@) =~= Seq::empty());
        }
        let inserted = self.table.insert_batch(keys, &values, &mut self.chains);
        proof {
            let views = key_views(keys@);
            if before.sound() && keys_defect(views) is None && batch_fits(
                before.storage(),
                Seq::empty(),
                keys.len() as int,
            ) {
                law_batch_finds_room(before.storage(), before.chains(), views, Seq::empty());
            }
        }
        inserted
    }

    /// Returns a writer that puts batches of map entries without a search.
    pub fn write_only(&mut self) -> (result: Result<WriteOnlyWriter<'_>, Error>)
        requires
            old(self).wf(),
        ensures
            if old(self).config().mode != Mode::KeyMap {
                &&& result is Err
                &&& result->Err_0 == Error::Unsupported("write_only is available only for maps")
                &&& *final(self) == *old(self)
            } else {
                &&& result is Ok
                &&& *(result->Ok_0).database == *old(self)
                &&& *final((result->Ok_0).database) == *final(self)
            },
    {
        if self.table.config.mode != Mode::KeyMap {
            return Err(Error::Unsupported("write_only is available only for maps"));
        }
        Ok(WriteOnlyWriter { database: self })
    }
}

/// The bytes of the keys of a list of entries.
pub open spec fn entry_keys(entries: Seq<(&[u8], &[u8])>) -> Seq<Seq<u8>> {
    Seq::new(entries.len(), |i: int| entries[i].0@)
}

/// The bytes of the values of a list of entries.
pub open spec fn entry_values(entries: Seq<(&[u8], &[u8])>) -> Seq<Seq<u8>> {
    Seq::new(entries.len(), |i: int| entries[i].1@)
}

/// Appends map entries without looking for earlier ones.
pub struct WriteOnlyWriter<'database> {
    pub database: &'database mut Database,
}

impl<'database> WriteOnlyWriter<'database> {
    /// Puts a batch of entries in front of their buckets, and returns their number.
    /// Entries for the same key stay; the last one of the input is read first.
    pub fn put_batch(&mut self, entries: &[(&[u8], &[u8])]) -> (result: Result<usize, Error>)
        requires
            old(self).database.wf(),
            old(self).database.config().mode == Mode::KeyMap,
        ensures
            final(self).database.wf(),
            final(self).database.config() == old(self).database.config(),
            final(self).database.durable() == old(self).database.durable(),
            *final(final(self).database) == *final(old(self).database),
            old(self).database.sound() ==> final(self).database.sound(),
            result matches Ok(count) ==> count == entries.len(),
            match keys_defect(entry_keys(entries@)) {
                Some(error) => {
                    &&& result == Err::<usize, Error>(error)
                    &&& final(self).database.storage() == old(self).database.storage()
                    &&& final(self).database@ == old(self).database@
                },
                None => {
                    let (after, defect) = insert_report(
                        old(self).database.storage(),
                        old(self).database@,
                        entry_keys(entries@),
                        entry_values(entries@),
                    );
                    &&& (final(self).database.storage(), result) == batch_insert_outcome(
                        old(self).database.storage(),
                        entry_keys(entries@),
                        entry_values(entries@),
                        entries.len(),
                    )
                    &&& old(self).database.sound() ==> final(self).database@ == after && result
                        == (match defect {
                        Some(error) => Err::<usize, Error>(error),
                        None => Ok(entries.len()),
                    })
                    &&& old(self).database.sound() && batch_fits(
                        old(self).database.storage(),
                        entry_values(entries@),
                        entries.len() as int,
                    ) ==> result == Ok::<usize, Error>(entries.len())
                },
            },
    {
        let mut keys: Vec<&[u8]> = Vec::new();
        let mut values: Vec<&[u8]> = Vec::new();
        let mut next: usize = 0;
        while next < entries.len()
            invariant
                next <= entries.len(),
                keys.len() == next,
                values.len() == next,
                keys@ == Seq::new(next as nat, |i: int| entries@[i].0),
                values@ == Seq::new(next as nat, |i: int| entries@[i].1),
            decreases entries.len() - next,
        {
            keys.push(entries[next].0);
            values.push(entries[next].1);
            next = next + 1;
            assert(keys@ =~= Seq::new(next as nat, |i: int| entries@[i].0));
            assert(values@ =~= Seq::new(next as nat, |i: int| entries@[i].1));
        }
        proof {
            assert(key_views(keys@) =~= entry_keys(entries@));
            assert(key_views(values@) =~= entry_values(entries@));
        }
        let ghost before = *self.database;
        let inserted = self.database.table.insert_batch(
            keys.as_slice(),
            &values,
            &mut self.database.chains,
        );
        proof {
            if before.sound() && keys_defect(entry_keys(entries@)) is None && batch_fits(
                before.storage(),
                entry_values(entries@),
                entries.len() as int,
            ) {
                law_batch_finds_room(
                    before.storage(),
                    before.chains(),
                    entry_keys(entries@),
                    entry_values(entries@),
                );
            }
        }
        inserted
    }
}

/// Adding a key of the wrong width changes nothing.
proof fn lemma_rejected_key(storage: Storage, key: Seq<u8>)
    ensures
        key.len() != KEY_SIZE ==> add_outcome(storage, key) == (
            storage,
            Err::<(), Error>(key_defect(key)->0),
        ),
{
}

/// Reading from sound files gives the value of the first entry.
pub proof fn lemma_get(storage: Storage, chains: Seq<Seq<u64>>, key: Seq<u8>)
    requires
        storage.holds(chains, Set::empty(), Map::empty()),
        storage.config.mode == Mode::KeyMap,
        key.len() == KEY_SIZE,
    ensures
        get_outcome(storage, key) == Ok::<Option<Seq<u8>>, Error>(
            value_for(storage.config, storage.entries(chains), key),
        ),
{
    let bucket = bucket_of(storage.config, key);
    lemma_lookup(storage, chains, Set::empty(), Map::empty(), key);
    if let Some(index) = first_index(storage.entries(chains)[bucket], key) {
        let offset = chains[bucket][index];
        let word = crate::node::value_at(storage.body.data, offset as int);
        assert(storage.valid_word(word));
        if word >= crate::layout::VALUE_BLOB_TAG {
            lemma_valid_blob_reads(storage.blobs->0, word - crate::layout::VALUE_BLOB_TAG);
        }
        assert(storage.entries(chains)[bucket][index] == storage.entry_at(offset));
    }
}

/// The bucket heads that a heads file has persisted.
pub open spec fn persisted_heads(heads: Seq<u8>, bucket_count: int) -> Seq<u64> {
    Seq::new(bucket_count as nat, |i: int| le64(heads, HEADS_START + 8 * i))
}

/// The storage with both open pages sealed.
pub open spec fn sealed(storage: Storage) -> Storage {
    Storage {
        body: Files { pages: storage.body.pages.sealed(), ..storage.body },
        blobs: match storage.blobs {
            Some(files) => Some(Files { pages: files.pages.sealed(), ..files }),
            None => None,
        },
        ..storage
    }
}

/// The heads file with the bucket heads persisted.
pub open spec fn with_heads(file: Seq<u8>, heads: Seq<u64>) -> Seq<u8> {
    patched(file, HEADS_START as int, word_bytes(heads))
}

/// Sealing keeps what is held.
pub proof fn lemma_sealed_storage(storage: Storage, chains: Seq<Seq<u64>>)
    requires
        storage.holds(chains, Set::empty(), Map::empty()),
    ensures
        sealed(storage).holds(chains, Set::empty(), Map::empty()),
        sealed(storage).entries(chains) == storage.entries(chains),
        forall|i: int|
            #![trigger sealed(storage).body.pages.counts[i]]
            0 <= i < storage.body.pages.high_water ==> sealed(storage).body.pages.counts[i]
                != crate::pages::CLAIMED,
        storage.blobs is Some ==> forall|i: int|
            #![trigger sealed(storage).blobs->0.pages.counts[i]]
            0 <= i < storage.blobs->0.pages.high_water
                ==> sealed(storage).blobs->0.pages.counts[i] != crate::pages::CLAIMED,
{
    let none = Map::<int, int>::empty();
    let body = Files { pages: storage.body.pages.sealed(), ..storage.body };
    let middle = Storage { body, ..storage };
    let live = storage.live_nodes(chains, Set::empty());
    crate::accounting::lemma_sealed(storage.body.pages, live);
    crate::accounting::lemma_entries(storage.body.pages.high_water);
    crate::transitions::lemma_body_changed(
        storage,
        body,
        chains,
        Set::empty(),
        Set::empty(),
        none,
    );
    assert forall|i: int|
        #![trigger body.pages.counts[i]]
        0 <= i < storage.body.pages.high_water implies body.pages.counts[i]
        != crate::pages::CLAIMED by {
        assert(crate::accounting::counted(body.pages, i) <= crate::pages::MAX_LIVE);
    }
    if storage.blobs is Some {
        let old_files = storage.blobs->0;
        let files = Files { pages: old_files.pages.sealed(), ..old_files };
        crate::accounting::lemma_sealed(old_files.pages, middle.live_blobs(chains, none));
        crate::accounting::lemma_entries(old_files.pages.high_water);
        crate::transitions::lemma_blobs_changed(
            middle,
            files,
            chains,
            Set::empty(),
            none,
            none,
        );
        assert forall|i: int|
            #![trigger files.pages.counts[i]]
            0 <= i < old_files.pages.high_water implies files.pages.counts[i]
            != crate::pages::CLAIMED by {
            assert(crate::accounting::counted(files.pages, i) <= crate::pages::MAX_LIVE);
        }
    }
}

/// Persisted heads read back, and the configuration stays as it was.
pub proof fn lemma_with_heads(file: Seq<u8>, heads: Seq<u64>)
    requires
        HEADS_START + 8 * heads.len() <= file.len(),
    ensures
        with_heads(file, heads).len() == file.len(),
        persisted_heads(with_heads(file, heads), heads.len() as int) == heads,
        config_of(with_heads(file, heads)) == config_of(file),
{
    let after = with_heads(file, heads);
    lemma_word_bytes_length(heads);
    assert forall|i: int| 0 <= i < heads.len() implies #[trigger] le64(after, HEADS_START + 8 * i)
        == heads[i] by {
        lemma_word_bytes(heads, i);
        lemma_patched_fields(
            file,
            HEADS_START as int,
            word_bytes(heads),
            HEADS_START + 8 * i,
        );
    }
    assert(persisted_heads(after, heads.len() as int) =~= heads);
    lemma_same_header(file, after);
}

/// Heads files with the same header tell the same configuration.
pub proof fn lemma_same_header(one: Seq<u8>, two: Seq<u8>)
    requires
        one.len() >= 104,
        two.len() >= 104,
        forall|k: int| 0 <= k < 104 ==> one[k] == two[k],
    ensures
        config_of(one) == config_of(two),
{
    lemma_same_fields(one, 0, two, 0, 8);
    lemma_same_fields(one, 8, two, 8, 8);
    lemma_same_fields(one, 16, two, 16, 8);
    lemma_same_fields(one, 24, two, 24, 8);
    lemma_same_fields(one, 32, two, 32, 8);
    lemma_same_fields(one, 40, two, 40, 8);
    lemma_same_fields(one, 48, two, 48, 8);
    lemma_same_fields(one, 56, two, 56, 8);
    lemma_same_fields(one, 72, two, 72, 8);
    lemma_same_fields(one, 80, two, 80, 8);
    lemma_same_fields(one, 88, two, 88, 8);
    lemma_same_fields(one, 96, two, 96, 8);
    assert(one.subrange(0, 96) =~= two.subrange(0, 96));
}

impl RuntimeFiles {
    /// What the files hold under a configuration.
    pub open spec fn storage(&self, config: Config) -> Storage {
        Storage {
            config,
            heads: persisted_heads(self.heads@, config.bucket_count as int),
            body: self.body.files(config.body_capacity as int, config.block_size as int),
            blobs: match self.blobs {
                Some(files) if config.mode == Mode::KeyMap => Some(
                    files.files(config.blob_capacity as int, config.block_size as int),
                ),
                _ => None,
            },
        }
    }

    /// What stands in the way of opening the files, if anything.
    pub open spec fn open_defect(&self) -> Option<Error> {
        let length = self.heads@.len() as int;
        if crate::mapped_file::open_defect(length, length) is Some {
            crate::mapped_file::open_defect(length, length)
        } else {
            match config_of(self.heads@) {
                Err(error) => Some(error),
                Ok(config) => if heads_defect(config.bucket_count as int) is Some {
                    heads_defect(config.bucket_count as int)
                } else if heads_bytes(config.bucket_count as int) != length {
                    Some(Error::Corrupt("heads file length does not match its configuration"))
                } else if self.body.open_defect(
                    config.body_capacity as int,
                    config.block_size as int,
                ) is Some {
                    self.body.open_defect(config.body_capacity as int, config.block_size as int)
                } else if config.mode == Mode::KeyMap {
                    match self.blobs {
                        None => Some(Error::Corrupt("map has no blob allocator")),
                        Some(files) => files.open_defect(
                            config.blob_capacity as int,
                            config.block_size as int,
                        ),
                    }
                } else {
                    None
                },
            }
        }
    }
}

impl Database {
    /// Stores the bucket heads in the heads file.
    fn persist_runtime_heads(&mut self)
        requires
            old(self).wf(),
        ensures
            final(self).wf(),
            final(self).storage() == old(self).storage(),
            final(self).chains() == old(self).chains(),
            final(self).durable() == (Durable {
                heads: with_heads(old(self).durable().heads, old(self).storage().heads),
                ..old(self).durable()
            }),
    {
        proof {
            lemma_heads_room(self.table.config.bucket_count as int);
            lemma_with_heads(self.heads@, self.table.heads@);
            law_sync_makes_no_checkpoint(self.heads@, self.table.heads@, 0);
            law_sync_makes_no_checkpoint(self.heads@, self.table.heads@, 1);
        }
        crate::manifest::store_words(&mut self.heads, HEADS_START, &self.table.heads);
    }

    /// Brings the files up to date without defining a checkpoint generation.
    pub fn sync(&mut self) -> (result: Result<(), Error>)
        requires
            old(self).wf(),
        ensures
            final(self).wf(),
            result == Ok::<(), Error>(()),
            final(self).storage() == sealed(old(self).storage()),
            final(self).chains() == old(self).chains(),
            final(self).durable() == (Durable {
                heads: with_heads(old(self).durable().heads, old(self).storage().heads),
                ..old(self).durable()
            }),
            old(self).sound() ==> final(self).sound() && final(self)@ == old(self)@,
    {
        proof {
            if self.sound() {
                lemma_sealed_storage(self.storage(), self.chains());
            }
        }
        self.table.body.seal_current();
        if let Some(blobs) = &mut self.table.blobs {
            blobs.seal_current();
        }
        self.persist_runtime_heads();
        Ok(())
    }

    /// Brings the files up to date and gives them out.
    pub fn close(self) -> (result: Result<RuntimeFiles, Error>)
        requires
            self.wf(),
        ensures
            result matches Ok(files) && {
                &&& files.storage(self.config()) == sealed(self.storage())
                &&& files.heads@ == with_heads(self.durable().heads, self.storage().heads)
                &&& config_of(files.heads@) == Ok::<Config, Error>(self.config())
                &&& self.sound() ==> files.open_defect() is None
            },
    {
        let ghost storage = self.storage();
        proof {
            if self.sound() {
                lemma_sealed_storage(self.storage(), self.chains());
            }
            lemma_heads_room(self.table.config.bucket_count as int);
            lemma_with_heads(self.heads@, self.table.heads@);
        }
        let mut database = self;
        database.sync()?;
        let Database { table, heads, generation: _, banks: _, stage: _, chains: _ } = database;
        let Table { config, heads: _, body, blobs } = table;
        let body = body.into_files();
        let blobs = match blobs {
            Some(blobs) => Some(blobs.into_files()),
            None => None,
        };
        Ok(RuntimeFiles { heads: heads.into_bytes(), body, blobs })
    }

    /// Opens runtime files written by [`Database::close`] without requiring a
    /// checkpoint generation.
    ///
    /// The generations of later checkpoints count on from the newest one that the
    /// heads file tells of. This is intentionally not crash recovery: interrupted
    /// writes may leave runtime files inconsistent.
    pub fn open_runtime(files: RuntimeFiles) -> (result: Result<Database, Error>)
        ensures
            match result {
                Ok(database) => {
                    &&& files.open_defect() is None
                    &&& database.wf()
                    &&& config_of(files.heads@) == Ok::<Config, Error>(database.config())
                    &&& database.storage() == files.storage(database.config())
                    &&& database.durable() == (Durable {
                        heads: files.heads@,
                        generation: newest_generation(files.heads@),
                        banks: Banks { zero: None, one: None },
                        stage: Stage::Idle,
                    })
                    &&& counts_on(database.durable())
                    &&& forall|chains: Seq<Seq<u64>>| #[trigger]
                        database.storage().holds(chains, Set::empty(), Map::empty()) ==> {
                            &&& database.sound()
                            &&& database.chains() == chains
                        }
                },
                Err(error) => files.open_defect() == Some(error),
            },
    {
        let length: u64 = files.heads.len() as u64;
        let heads = MappedFile::open(files.heads, length)?;
        let config = read_config(heads.as_bytes())?;
        if heads_length(config.bucket_count)? != length {
            return Err(Error::Corrupt("heads file length does not match its configuration"));
        }
        proof {
            lemma_heads_room(config.bucket_count as int);
        }
        let runtime_heads = create_runtime_heads(config.bucket_count, heads.as_bytes(), true);
        let body = BlockAllocator::open(files.body, config.body_capacity, config.block_size)?;
        let blobs = if config.mode == Mode::KeyMap {
            match files.blobs {
                None => {
                    return Err(Error::Corrupt("map has no blob allocator"));
                },
                Some(files) => Some(
                    BlockAllocator::open(files, config.blob_capacity, config.block_size)?,
                ),
            }
        } else {
            None
        };
        let generation: u64 = match read_manifests(heads.as_bytes()) {
            (Some(manifest), _) => manifest.generation,
            (None, Some(manifest)) => manifest.generation,
            (None, None) => 0,
        };
        let table = Table { config, heads: runtime_heads, body, blobs };
        let database = Database {
            table,
            heads,
            generation,
            banks: Banks { zero: None, one: None },
            stage: Stage::Idle,
            chains: Ghost(
                choose|chains: Seq<Seq<u64>>|
                    table.storage().holds(chains, Set::empty(), Map::empty()),
            ),
        };
        proof {
            lemma_capacity(config);
            law_reopened_counts_on(heads@, database.banks);
            assert forall|chains: Seq<Seq<u64>>| #[trigger]
                database.storage().holds(chains, Set::empty(), Map::empty()) implies {
                &&& database.sound()
                &&& database.chains() == chains
            } by {
                lemma_chains_unique(database.storage(), database.chains(), chains);
            }
        }
        Ok(database)
    }
}

/// A heads file has room for its bucket heads.
pub proof fn lemma_heads_room(bucket_count: int)
    requires
        0 <= bucket_count,
    ensures
        HEADS_START + 8 * bucket_count <= HEADS_START + bank_bytes(bucket_count) <= heads_bytes(
            bucket_count,
        ),
{
    crate::layout::lemma_round_up(8 * bucket_count, FORMAT_PAGE_SIZE as int);
}

/// Capacities are whole numbers of pages.
pub proof fn lemma_capacity(config: Config)
    requires
        config.valid(),
    ensures
        config.body_capacity as int / config.block_size as int * config.block_size as int
            == config.body_capacity,
        config.blob_capacity as int / config.block_size as int * config.block_size as int
            == config.blob_capacity,
{
    vstd::arithmetic::div_mod::lemma_fundamental_div_mod(
        config.body_capacity as int,
        config.block_size as int,
    );
    vstd::arithmetic::mul::lemma_mul_is_commutative(
        config.body_capacity as int / config.block_size as int,
        config.block_size as int,
    );
    vstd::arithmetic::div_mod::lemma_fundamental_div_mod(
        config.blob_capacity as int,
        config.block_size as int,
    );
    vstd::arithmetic::mul::lemma_mul_is_commutative(
        config.blob_capacity as int / config.block_size as int,
        config.block_size as int,
    );
}

/// Files hold at most one family of chains.
pub proof fn lemma_chains_unique(storage: Storage, one: Seq<Seq<u64>>, two: Seq<Seq<u64>>)
    requires
        storage.holds(one, Set::empty(), Map::empty()),
        storage.holds(two, Set::empty(), Map::empty()),
    ensures
        one == two,
{
    assert forall|bucket: int| 0 <= bucket < one.len() implies one[bucket] == two[bucket] by {
        assert(linked(storage.body, storage.heads[bucket], one[bucket]));
        assert(linked(storage.body, storage.heads[bucket], two[bucket]));
        crate::storage::lemma_linked_unique(
            storage.body,
            storage.heads[bucket],
            one[bucket],
            two[bucket],
        );
    }
    assert(one =~= two);
}

/// Closing a sound database and opening the files again gives the same entries.
pub proof fn law_reopened_runtime(closed: Database, files: RuntimeFiles, reopened: Database)
    requires
        closed.sound(),
        files.storage(closed.config()) == sealed(closed.storage()),
        reopened.storage() == files.storage(closed.config()),
        forall|chains: Seq<Seq<u64>>| #[trigger]
            reopened.storage().holds(chains, Set::empty(), Map::empty()) ==> reopened.sound()
                && reopened.chains() == chains,
    ensures
        reopened.sound(),
        reopened@ == closed@,
{
    lemma_sealed_storage(closed.storage(), closed.chains());
    assert(reopened.storage().holds(closed.chains(), Set::empty(), Map::empty()));
}

/// Bucket heads, as persisted or all zero.
pub fn create_runtime_heads(
    bucket_count: u64,
    heads: &[u8],
    load_persisted: bool,
) -> (runtime_heads: Vec<u64>)
    requires
        HEADS_START + 8 * bucket_count <= heads.len(),
    ensures
        runtime_heads@ == (if load_persisted {
            persisted_heads(heads@, bucket_count as int)
        } else {
            Seq::new(bucket_count as nat, |i: int| 0u64)
        }),
        runtime_heads.len() == bucket_count,
{
    let mut runtime_heads: Vec<u64> = Vec::new();
    let mut bucket: u64 = 0;
    let ghost all = if load_persisted {
        persisted_heads(heads@, bucket_count as int)
    } else {
        Seq::new(bucket_count as nat, |i: int| 0u64)
    };
    while bucket < bucket_count
        invariant
            HEADS_START + 8 * bucket_count <= heads.len(),
            bucket <= bucket_count,
            all == (if load_persisted {
                persisted_heads(heads@, bucket_count as int)
            } else {
                Seq::new(bucket_count as nat, |i: int| 0u64)
            }),
            runtime_heads@ == all.take(bucket as int),
        decreases bucket_count - bucket,
    {
        let value: u64 = if load_persisted {
            crate::bytes::read_le64(heads, (HEADS_START + 8 * bucket) as usize)
        } else {
            0
        };
        runtime_heads.push(value);
        bucket = bucket + 1;
        assert(runtime_heads@ =~= all.take(bucket as int));
    }
    assert(all.take(bucket as int) =~= all);
    runtime_heads
}

} // verus!
