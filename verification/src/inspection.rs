//! Inspecting a snapshot: every chain is walked, every node and blob is checked, and
//! what they hold is condensed into one checksum.

pub mod laws;

use vstd::prelude::*;

use crate::allocator::BlockAllocator;
#[allow(unused_imports)]
use crate::allocator::{extent_defect, read_defect, Files};
use crate::bytes::{encode_le64, same_bytes};
#[allow(unused_imports)]
use crate::bytes::{le32, le64_bytes, lemma_same_fields};
use crate::config::Mode;
#[allow(unused_imports)]
use crate::copying::{lists_of, Record};
use crate::error::Error;
use crate::hash::xxh64;
#[allow(unused_imports)]
use crate::hash::digest;
use crate::layout::{BLOB_HEADER_SIZE, NODE_SIZE, NODE_SIZE_U64, VALUE_BLOB_TAG};
use crate::node::{blob_checksum, decode_blob_header, read_node};
#[allow(unused_imports)]
use crate::node::{blob_checksum_of, key_at, next_at, node_defect, value_at};
#[allow(unused_imports)]
use crate::snapshot::readable;
#[allow(unused_imports)]
use crate::storage::{
    after_in, blob_extent, blob_value, bucket_of, first_of, linked, node_limit, slot, Storage,
};
use crate::table::Table;
#[allow(unused_imports)]
use crate::values::files_of;

verus! {

/// First word of a manifest, and what the checksum of a snapshot starts from.
pub const MANIFEST_MAGIC: u64 = 0x4341_5343_484b_5031;

/// A checksum with one more word mixed in.
pub open spec fn mixed(checksum: u64, word: u64) -> u64 {
    digest(le64_bytes(word), checksum)
}

/// Mixes one more word into a checksum.
pub fn mix_checksum(checksum: u64, word: u64) -> (result: u64)
    ensures
        result == mixed(checksum, word),
{
    let bytes = encode_le64(word);
    xxh64(bytes.as_slice(), checksum)
}

/// A checksum with a node mixed in.
pub open spec fn node_mixed(data: Seq<u8>, offset: u64, checksum: u64) -> u64 {
    let words = mixed(
        mixed(mixed(checksum, offset), next_at(data, offset as int)),
        value_at(data, offset as int),
    );
    digest(key_at(data, offset as int), words)
}

/// Why a value word of a snapshot stands for no value, if it does not.
pub open spec fn snapshot_blob_defect(mode: Mode, blobs: Option<Files>, word: u64) -> Option<
    Error,
> {
    let offset = word - VALUE_BLOB_TAG;
    if mode == Mode::KeySet {
        if word == 0 {
            None
        } else {
            Some(Error::Corrupt("set checkpoint node stores a value"))
        }
    } else if word < VALUE_BLOB_TAG {
        None
    } else {
        match blobs {
            None => Some(Error::Corrupt("map checkpoint blob file is missing")),
            Some(files) => {
                let (capacity, length) = (files.capacity(), files.data.len() as int);
                let total = blob_extent(files, offset);
                let start = offset + BLOB_HEADER_SIZE;
                if read_defect(capacity, length, offset, BLOB_HEADER_SIZE as int) is Some {
                    read_defect(capacity, length, offset, BLOB_HEADER_SIZE as int)
                } else if total > u32::MAX {
                    Some(Error::Corrupt("checkpoint blob length overflow"))
                } else if extent_defect(files.pages, offset, total) is Some {
                    extent_defect(files.pages, offset, total)
                } else if read_defect(capacity, length, start, total - BLOB_HEADER_SIZE) is Some {
                    read_defect(capacity, length, start, total - BLOB_HEADER_SIZE)
                } else if le32(files.data, offset + 4) != blob_checksum_of(
                    blob_value(files, offset),
                ) {
                    Some(Error::Corrupt("checkpoint blob checksum does not match"))
                } else {
                    None
                }
            },
        }
    }
}

/// Whether a node in front of the first occurrence of `target` in `path` has `key`.
pub open spec fn prefix_has(data: Seq<u8>, path: Seq<u64>, target: u64, key: Seq<u8>) -> bool
    decreases path.len(),
{
    if path.len() == 0 || path[0] == target {
        false
    } else {
        key_at(data, path[0] as int) == key || prefix_has(data, path.drop_first(), target, key)
    }
}

/// Why the node at `current`, reached over `path`, has no place in a snapshot, if it
/// has none.
pub open spec fn snapshot_node_defect(
    storage: Storage,
    bucket: int,
    path: Seq<u64>,
    current: u64,
) -> Option<Error> {
    let data = storage.body.data;
    let offset = current as int;
    let key = key_at(data, offset);
    if extent_defect(storage.body.pages, offset, NODE_SIZE as int) is Some {
        extent_defect(storage.body.pages, offset, NODE_SIZE as int)
    } else if node_defect(storage.body.capacity(), data, offset) is Some {
        node_defect(storage.body.capacity(), data, offset)
    } else if bucket_of(storage.config, key) != bucket {
        Some(Error::Corrupt("checkpoint node is in the wrong hash bucket"))
    } else if prefix_has(data, path, current, key) {
        Some(Error::Corrupt("checkpoint contains a duplicate key"))
    } else {
        snapshot_blob_defect(storage.config.mode, storage.blobs, value_at(data, offset))
    }
}

/// The walk along a chain from `current` on, over at most `steps` nodes.
pub open spec fn inspect_chain(
    storage: Storage,
    bucket: int,
    path: Seq<u64>,
    current: u64,
    steps: nat,
    checksum: u64,
) -> Result<u64, Error>
    decreases steps,
{
    if current == 0 {
        Ok(checksum)
    } else if steps == 0 {
        Err(Error::Corrupt("checkpoint body chain contains a cycle"))
    } else {
        match snapshot_node_defect(storage, bucket, path, current) {
            Some(error) => Err(error),
            None => inspect_chain(
                storage,
                bucket,
                path.push(current),
                next_at(storage.body.data, current as int),
                (steps - 1) as nat,
                node_mixed(storage.body.data, current, checksum),
            ),
        }
    }
}

/// The walk along the chains of the first `count` buckets.
pub open spec fn inspect_buckets(storage: Storage, count: int) -> Result<u64, Error>
    decreases count,
{
    if count <= 0 {
        Ok(MANIFEST_MAGIC)
    } else {
        let bucket = count - 1;
        match inspect_buckets(storage, bucket) {
            Err(error) => Err(error),
            Ok(checksum) => inspect_chain(
                storage,
                bucket,
                Seq::empty(),
                storage.heads[bucket],
                node_limit(storage.body.capacity()) as nat,
                mixed(mixed(checksum, bucket as u64), storage.heads[bucket]),
            ),
        }
    }
}

/// The checksum of a snapshot, or why it has none.
pub open spec fn inspected(storage: Storage) -> Result<u64, Error> {
    inspect_buckets(storage, storage.config.bucket_count as int)
}

/// Where the walk along some buckets fails, the walk along more of them fails in the
/// same way.
proof fn lemma_inspect_fails(storage: Storage, few: int, many: int)
    requires
        0 <= few <= many,
        inspect_buckets(storage, few) is Err,
    ensures
        inspect_buckets(storage, many) == inspect_buckets(storage, few),
    decreases many,
{
    if few < many {
        lemma_inspect_fails(storage, few, many - 1);
    }
}

/// Tests whether a node of `path` in front of `target` has a key.
fn snapshot_prefix_contains(
    body: &BlockAllocator,
    path: &Vec<u64>,
    target: u64,
    key: &[u8],
) -> (result: Result<bool, Error>)
    requires
        body.wf(),
        forall|i: int|
            0 <= i < path@.len() ==> node_defect(
                body.capacity(),
                body.data(),
                (#[trigger] path@[i]) as int,
            ) is None,
    ensures
        result == Ok::<bool, Error>(prefix_has(body.data(), path@, target, key@)),
{
    let mut next: usize = 0;
    assert(path@.skip(0) =~= path@);
    while next < path.len()
        invariant
            body.wf(),
            next <= path.len(),
            forall|i: int|
                0 <= i < path@.len() ==> node_defect(
                    body.capacity(),
                    body.data(),
                    (#[trigger] path@[i]) as int,
                ) is None,
            prefix_has(body.data(), path@, target, key@) == prefix_has(
                body.data(),
                path@.skip(next as int),
                target,
                key@,
            ),
        decreases path.len() - next,
    {
        let current: u64 = path[next];
        proof {
            assert(path@.skip(next as int)[0] == current);
            assert(path@.skip(next as int).drop_first() =~= path@.skip(next + 1));
        }
        if current == target {
            return Ok(false);
        }
        let node = read_node(body, current)?;
        if same_bytes(node.key.as_slice(), key) {
            return Ok(true);
        }
        next = next + 1;
    }
    Ok(false)
}

/// Checks that a value word of a snapshot stands for a value.
fn validate_snapshot_blob(mode: Mode, blobs: &Option<BlockAllocator>, word: u64) -> (result: Result<
    (),
    Error,
>)
    requires
        *blobs matches Some(allocator) ==> allocator.wf(),
    ensures
        result == (match snapshot_blob_defect(mode, files_of(*blobs), word) {
            Some(error) => Err::<(), Error>(error),
            None => Ok(()),
        }),
{
    if mode == Mode::KeySet {
        if word == 0 {
            return Ok(());
        }
        return Err(Error::Corrupt("set checkpoint node stores a value"));
    }
    if word < VALUE_BLOB_TAG {
        return Ok(());
    }
    let offset: u64 = word - VALUE_BLOB_TAG;
    match blobs {
        None => Err(Error::Corrupt("map checkpoint blob file is missing")),
        Some(blobs) => {
            let header = blobs.read(offset, BLOB_HEADER_SIZE)?;
            let (length, expected_checksum) = decode_blob_header(header.as_slice());
            proof {
                lemma_same_fields(header@, 0, blobs.data(), offset as int, 4);
                lemma_same_fields(header@, 4, blobs.data(), offset + 4, 4);
            }
            let total: u32 = match (BLOB_HEADER_SIZE as u32).checked_add(length) {
                None => {
                    return Err(Error::Corrupt("checkpoint blob length overflow"));
                },
                Some(total) => total,
            };
            blobs.allocation_for(offset, total)?;
            let value = blobs.read(offset + BLOB_HEADER_SIZE as u64, length as usize)?;
            if expected_checksum != blob_checksum(value.as_slice()) {
                return Err(Error::Corrupt("checkpoint blob checksum does not match"));
            }
            Ok(())
        },
    }
}

impl Table {
    /// Walks along the chain of one bucket of a snapshot and mixes its nodes into a
    /// checksum.
    fn inspect_bucket(&self, bucket: u64, checksum: u64) -> (result: Result<u64, Error>)
        requires
            self.wf(),
            bucket < self.config.bucket_count,
        ensures
            result == inspect_chain(
                self.storage(),
                bucket as int,
                Seq::empty(),
                self.heads@[bucket as int],
                node_limit(self.body.capacity()) as nat,
                mixed(mixed(checksum, bucket), self.heads@[bucket as int]),
            ),
    {
        let ghost storage = self.storage();
        let maximum_nodes: u64 = self.body.byte_capacity() / NODE_SIZE_U64 + 1;
        let mut current: u64 = self.heads[bucket as usize];
        let mut sum: u64 = mix_checksum(mix_checksum(checksum, bucket), current);
        let mut path: Vec<u64> = Vec::new();
        let mut visited: u64 = 0;
        let ghost outcome = inspect_chain(
            storage,
            bucket as int,
            Seq::empty(),
            current,
            maximum_nodes as nat,
            sum,
        );
        while current != 0
            invariant
                self.wf(),
                storage == self.storage(),
                bucket < self.config.bucket_count,
                visited <= maximum_nodes,
                forall|i: int|
                    0 <= i < path@.len() ==> node_defect(
                        self.body.capacity(),
                        self.body.data(),
                        (#[trigger] path@[i]) as int,
                    ) is None,
                outcome == inspect_chain(
                    storage,
                    bucket as int,
                    path@,
                    current,
                    (maximum_nodes - visited) as nat,
                    sum,
                ),
                outcome == inspect_chain(
                    storage,
                    bucket as int,
                    Seq::empty(),
                    self.heads@[bucket as int],
                    node_limit(self.body.capacity()) as nat,
                    mixed(mixed(checksum, bucket), self.heads@[bucket as int]),
                ),
            decreases maximum_nodes - visited,
        {
            if visited == maximum_nodes {
                return Err(Error::Corrupt("checkpoint body chain contains a cycle"));
            }
            visited = visited + 1;
            self.body.allocation_for(current, NODE_SIZE as u32)?;
            let node = read_node(&self.body, current)?;
            let hash: u64 = xxh64(node.key.as_slice(), self.config.hash_seed);
            if hash % self.config.bucket_count != bucket {
                return Err(Error::Corrupt("checkpoint node is in the wrong hash bucket"));
            }
            if snapshot_prefix_contains(&self.body, &path, current, node.key.as_slice())? {
                return Err(Error::Corrupt("checkpoint contains a duplicate key"));
            }
            validate_snapshot_blob(self.config.mode, &self.blobs, node.value)?;
            sum = mix_checksum(sum, current);
            sum = mix_checksum(sum, node.next);
            sum = mix_checksum(sum, node.value);
            sum = xxh64(node.key.as_slice(), sum);
            path.push(current);
            current = node.next;
        }
        Ok(sum)
    }

    /// Inspects a snapshot and computes its checksum.
    pub fn snapshot_checksum(&self) -> (result: Result<u64, Error>)
        requires
            self.wf(),
        ensures
            result == inspected(self.storage()),
    {
        let ghost storage = self.storage();
        let mut checksum: u64 = MANIFEST_MAGIC;
        let mut bucket: u64 = 0;
        while bucket < self.config.bucket_count
            invariant
                self.wf(),
                storage == self.storage(),
                bucket <= self.config.bucket_count,
                inspect_buckets(storage, bucket as int) == Ok::<u64, Error>(checksum),
            decreases self.config.bucket_count - bucket,
        {
            let walked = self.inspect_bucket(bucket, checksum);
            proof {
                assert(inspect_buckets(storage, bucket + 1) == walked);
                if walked is Err {
                    lemma_inspect_fails(
                        storage,
                        bucket + 1,
                        storage.config.bucket_count as int,
                    );
                }
            }
            checksum = walked?;
            bucket = bucket + 1;
        }
        Ok(checksum)
    }
}

/// The nodes from `current` on, at most `steps` of them.
pub open spec fn path_from(body: Files, current: u64, steps: nat) -> Seq<u64>
    decreases steps,
{
    if current == 0 || steps == 0 {
        Seq::empty()
    } else {
        seq![current] + path_from(body, next_at(body.data, current as int), (steps - 1) as nat)
    }
}

/// The chains of a table, each from its head on.
pub open spec fn paths(storage: Storage) -> Seq<Seq<u64>> {
    Seq::new(
        storage.heads.len(),
        |b: int|
            path_from(
                storage.body,
                storage.heads[b],
                node_limit(storage.body.capacity()) as nat,
            ),
    )
}

/// Where the walk along a chain succeeds, the chain ends, and its nodes are in the
/// bucket of their keys and have values.
proof fn lemma_walked(
    storage: Storage,
    bucket: int,
    path: Seq<u64>,
    current: u64,
    steps: nat,
    checksum: u64,
)
    requires
        inspect_chain(storage, bucket, path, current, steps, checksum) is Ok,
    ensures
        ({
            let chain = path_from(storage.body, current, steps);
            &&& linked(storage.body, current, chain)
            &&& chain.len() <= steps
            &&& forall|i: int|
                #![trigger chain[i]]
                0 <= i < chain.len() ==> {
                    &&& snapshot_blob_defect(
                        storage.config.mode,
                        storage.blobs,
                        value_at(storage.body.data, chain[i] as int),
                    ) is None
                    &&& bucket_of(
                        storage.config,
                        key_at(storage.body.data, chain[i] as int),
                    ) == bucket
                }
        }),
    decreases steps,
{
    let chain = path_from(storage.body, current, steps);
    if current != 0 {
        let next = next_at(storage.body.data, current as int);
        let rest = path_from(storage.body, next, (steps - 1) as nat);
        lemma_walked(
            storage,
            bucket,
            path.push(current),
            next,
            (steps - 1) as nat,
            node_mixed(storage.body.data, current, checksum),
        );
        assert(chain =~= seq![current] + rest);
        assert forall|i: int|
            #![trigger chain[i]]
            0 <= i < chain.len() implies {
            &&& node_defect(storage.body.capacity(), storage.body.data, chain[i] as int) is None
            &&& next_at(storage.body.data, chain[i] as int) == after_in(chain, i)
            &&& snapshot_blob_defect(
                storage.config.mode,
                storage.blobs,
                value_at(storage.body.data, chain[i] as int),
            ) is None
            &&& bucket_of(storage.config, key_at(storage.body.data, chain[i] as int)) == bucket
        } by {
            reveal(after_in);
            if i > 0 {
                assert(chain[i] == rest[i - 1]);
                assert(after_in(chain, i) == after_in(rest, i - 1));
            } else if rest.len() > 0 {
                assert(rest[0] == chain[1]);
            }
        }
    }
}

/// A snapshot that passes inspection can be read.
pub proof fn lemma_inspected(table: Table)
    requires
        table.wf(),
        inspected(table.storage()) is Ok,
    ensures
        readable(table.storage(), paths(table.storage())),
{
    let storage = table.storage();
    let chains = paths(storage);
    let limit = node_limit(storage.body.capacity()) as nat;
    assert forall|b: int|
        #![trigger chains[b]]
        0 <= b < chains.len() implies linked(storage.body, storage.heads[b], chains[b])
        && chains[b].len() <= limit && forall|i: int|
        #![trigger chains[b][i]]
        0 <= i < chains[b].len() ==> storage.valid_word(
            value_at(storage.body.data, chains[b][i] as int),
        ) && bucket_of(storage.config, key_at(storage.body.data, chains[b][i] as int)) == b by {
        if inspect_buckets(storage, b + 1) is Err {
            lemma_inspect_fails(storage, b + 1, storage.config.bucket_count as int);
        }
        let checksum = inspect_buckets(storage, b)->Ok_0;
        lemma_walked(
            storage,
            b,
            Seq::empty(),
            storage.heads[b],
            limit,
            mixed(mixed(checksum, b as u64), storage.heads[b]),
        );
        assert forall|i: int|
            #![trigger chains[b][i]]
            0 <= i < chains[b].len() implies storage.valid_word(
            value_at(storage.body.data, chains[b][i] as int),
        ) by {
            lemma_valid_word(storage, value_at(storage.body.data, chains[b][i] as int));
        }
    }
    assert forall|b: int, i: int|
        #![trigger chains[b][i]]
        slot(chains, b, i) implies storage.valid_word(
        value_at(storage.body.data, chains[b][i] as int),
    ) && bucket_of(storage.config, key_at(storage.body.data, chains[b][i] as int)) == b by {
        assert(chains[b] == chains[b]);
    }
}

/// A value word without a defect stands for a value, and the other way round.
proof fn lemma_valid_word(storage: Storage, word: u64)
    requires
        storage.blobs is Some == (storage.config.mode == Mode::KeyMap),
        storage.blobs matches Some(files) ==> files.wf(),
    ensures
        snapshot_blob_defect(storage.config.mode, storage.blobs, word) is None
            == storage.valid_word(word),
{
}

/// Whether no two nodes of one chain have the same key.
pub open spec fn distinct_keys(lists: Seq<Seq<Record>>) -> bool {
    forall|b: int, i: int, j: int|
        #![trigger lists[b][i], lists[b][j]]
        0 <= b < lists.len() && 0 <= i < j < lists[b].len() ==> lists[b][i].key != lists[b][j].key
}

/// Following the next-node offsets gives the chain.
pub proof fn lemma_path(body: Files, root: u64, chain: Seq<u64>, steps: nat)
    requires
        linked(body, root, chain),
        chain.len() <= steps,
    ensures
        path_from(body, root, steps) == chain,
    decreases chain.len(),
{
    if chain.len() == 0 {
        assert(path_from(body, root, steps) =~= chain);
    } else {
        let rest = chain.drop_first();
        let next = next_at(body.data, root as int);
        assert(chain[0] == root);
        assert(node_defect(body.capacity(), body.data, root as int) is None);
        reveal(after_in);
        assert(next == first_of(rest));
        assert forall|i: int|
            #![trigger rest[i]]
            0 <= i < rest.len() implies node_defect(body.capacity(), body.data, rest[i] as int)
            is None && next_at(body.data, rest[i] as int) == after_in(rest, i) by {
            assert(rest[i] == chain[i + 1]);
            assert(after_in(rest, i) == after_in(chain, i + 1));
        }
        lemma_path(body, next, rest, (steps - 1) as nat);
        assert(seq![root] + rest =~= chain);
    }
}

/// The paths of a table are its chains.
pub proof fn lemma_paths(storage: Storage, chains: Seq<Seq<u64>>)
    requires
        readable(storage, chains),
    ensures
        paths(storage) == chains,
{
    let limit = node_limit(storage.body.capacity()) as nat;
    assert forall|b: int| 0 <= b < chains.len() implies #[trigger] paths(storage)[b]
        == chains[b] by {
        assert(linked(storage.body, storage.heads[b], chains[b]));
        lemma_path(storage.body, storage.heads[b], chains[b], limit);
    }
    assert(paths(storage) =~= chains);
}

/// A key that no node of a path has is not in front of anything.
proof fn lemma_no_prefix(data: Seq<u8>, path: Seq<u64>, target: u64, key: Seq<u8>)
    requires
        forall|i: int| 0 <= i < path.len() ==> key_at(data, (#[trigger] path[i]) as int) != key,
    ensures
        !prefix_has(data, path, target, key),
    decreases path.len(),
{
    if path.len() > 0 {
        let rest = path.drop_first();
        assert forall|i: int| 0 <= i < rest.len() implies key_at(data, (#[trigger] rest[i]) as int)
            != key by {
            assert(rest[i] == path[i + 1]);
        }
        lemma_no_prefix(data, rest, target, key);
    }
}

/// The walk along a chain of a sound table without duplicates succeeds.
proof fn lemma_walk_succeeds(
    storage: Storage,
    chains: Seq<Seq<u64>>,
    bucket: int,
    index: int,
    steps: nat,
    checksum: u64,
)
    requires
        storage.holds(chains, Set::empty(), Map::empty()),
        distinct_keys(lists_of(storage, chains)),
        0 <= bucket < chains.len(),
        0 <= index <= chains[bucket].len(),
        chains[bucket].len() - index <= steps,
    ensures
        inspect_chain(
            storage,
            bucket,
            chains[bucket].take(index),
            if index < chains[bucket].len() {
                chains[bucket][index]
            } else {
                0
            },
            steps,
            checksum,
        ) is Ok,
    decreases chains[bucket].len() - index,
{
    let chain = chains[bucket];
    let data = storage.body.data;
    if index < chain.len() {
        let current = chain[index];
        let path = chain.take(index);
        assert(slot(chains, bucket, index));
        assert(chains[bucket][index] == current);
        assert(linked(storage.body, storage.heads[bucket], chain));
        crate::transitions::lemma_private_node(
            storage,
            chains,
            Set::empty(),
            Map::empty(),
            current as int,
        );
        assert forall|i: int| 0 <= i < path.len() implies key_at(data, (#[trigger] path[i]) as int)
            != key_at(data, current as int) by {
            let lists = lists_of(storage, chains);
            assert(lists[bucket][i].key != lists[bucket][index].key);
        }
        lemma_no_prefix(data, path, current, key_at(data, current as int));
        lemma_valid_word(storage, value_at(data, current as int));
        assert(path.push(current) =~= chain.take(index + 1));
        lemma_walk_succeeds(
            storage,
            chains,
            bucket,
            index + 1,
            (steps - 1) as nat,
            node_mixed(data, current, checksum),
        );
        assert(next_at(data, current as int) == after_in(chain, index)) by {
            assert(chain[index] == current);
        }
        reveal(after_in);
    }
}

/// A sound table without duplicates passes inspection.
pub proof fn lemma_inspection_succeeds(storage: Storage, chains: Seq<Seq<u64>>, count: int)
    requires
        storage.holds(chains, Set::empty(), Map::empty()),
        distinct_keys(lists_of(storage, chains)),
        0 <= count <= chains.len(),
    ensures
        inspect_buckets(storage, count) is Ok,
    decreases count,
{
    if count > 0 {
        let bucket = count - 1;
        lemma_inspection_succeeds(storage, chains, bucket);
        crate::storage::lemma_chain_length(storage, chains, Set::empty(), Map::empty(), bucket);
        let checksum = inspect_buckets(storage, bucket)->Ok_0;
        assert(linked(storage.body, storage.heads[bucket], chains[bucket]));
        assert(chains[bucket].take(0) =~= Seq::empty());
        lemma_walk_succeeds(
            storage,
            chains,
            bucket,
            0,
            node_limit(storage.body.capacity()) as nat,
            mixed(mixed(checksum, bucket as u64), storage.heads[bucket]),
        );
    }
}

} // verus!
