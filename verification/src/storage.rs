//! What the files of a database hold: bucket chains of nodes, and the blobs that
//! the nodes refer to.

use vstd::prelude::*;

#[allow(unused_imports)]
use crate::accounting::accounts;
#[allow(unused_imports)]
use crate::allocator::{extent_defect, Files};
#[allow(unused_imports)]
use crate::bytes::{le32, le64_bytes, lemma_le_fields, lemma_same_fields};
use crate::config::{Config, Mode};
#[allow(unused_imports)]
use crate::hash::digest;
#[allow(unused_imports)]
use crate::layout::{
    BLOB_HEADER_SIZE, DATA_START, NODE_POINTER_LIMIT, NODE_POINTER_OFFSET, NODE_SIZE,
    NODE_VALUE_OFFSET, VALUE_BLOB_TAG,
};
#[allow(unused_imports)]
use crate::node::{blob_checksum_of, key_at, next_at, node_defect, pointer_at, value_at, with_next};

verus! {

/// One key with its value. In a set every value is empty.
#[verifier::ext_equal]
pub struct Entry {
    pub key: Seq<u8>,
    pub value: Seq<u8>,
}

/// Bucket heads, body and blobs of a database.
#[verifier::ext_equal]
pub struct Storage {
    pub config: Config,
    pub heads: Seq<u64>,
    pub body: Files,
    pub blobs: Option<Files>,
}

/// The bucket that `key` belongs to.
pub open spec fn bucket_of(config: Config, key: Seq<u8>) -> int {
    digest(key, config.hash_seed) as int % config.bucket_count as int
}

/// Whether `chains[bucket][index]` is a node.
pub open spec fn slot(chains: Seq<Seq<u64>>, bucket: int, index: int) -> bool {
    0 <= bucket < chains.len() && 0 <= index < chains[bucket].len()
}

/// Whether some chain holds the node at `offset`.
pub open spec fn chained(chains: Seq<Seq<u64>>, offset: int) -> bool {
    exists|bucket: int, index: int|
        slot(chains, bucket, index) && #[trigger] chains[bucket][index] == offset
}

/// First node of a chain, or zero.
pub open spec fn first_of(chain: Seq<u64>) -> u64 {
    if chain.len() == 0 {
        0
    } else {
        chain[0]
    }
}

/// The node behind `chain[index]`, or zero.
#[verifier::opaque]
pub open spec fn after_in(chain: Seq<u64>, index: int) -> u64 {
    if index + 1 < chain.len() {
        chain[index + 1]
    } else {
        0
    }
}

/// Whether `chain` lists the nodes that one reaches from `root`.
pub open spec fn linked(body: Files, root: u64, chain: Seq<u64>) -> bool {
    &&& root == first_of(chain)
    &&& forall|index: int|
        #![trigger chain[index]]
        0 <= index < chain.len() ==> node_defect(body.capacity(), body.data, chain[index] as int)
            is None && next_at(body.data, chain[index] as int) == after_in(chain, index)
}

/// Bytes that the blob at `offset` takes up, its header counted.
pub open spec fn blob_extent(blobs: Files, offset: int) -> int {
    BLOB_HEADER_SIZE + le32(blobs.data, offset)
}

/// The value of the blob at `offset`.
pub open spec fn blob_value(blobs: Files, offset: int) -> Seq<u8> {
    blobs.data.subrange(offset + BLOB_HEADER_SIZE, offset + blob_extent(blobs, offset))
}

/// Whether a blob with a matching checksum stands at `offset`.
pub open spec fn valid_blob(blobs: Files, offset: int) -> bool {
    &&& blob_extent(blobs, offset) <= u32::MAX
    &&& extent_defect(blobs.pages, offset, blob_extent(blobs, offset)) is None
    &&& offset + blob_extent(blobs, offset) <= blobs.data.len()
    &&& le32(blobs.data, offset + 4) == blob_checksum_of(blob_value(blobs, offset))
}

/// The value that a value word of a map stands for.
pub open spec fn word_value(blobs: Option<Files>, word: u64) -> Seq<u8> {
    if word < VALUE_BLOB_TAG {
        le64_bytes(word)
    } else {
        blob_value(blobs->0, word - VALUE_BLOB_TAG)
    }
}

impl Storage {
    /// The value that a value word stands for in this mode.
    pub open spec fn value_of(self, word: u64) -> Seq<u8> {
        if self.config.mode == Mode::KeySet {
            Seq::empty()
        } else {
            word_value(self.blobs, word)
        }
    }

    /// Whether a value word stands for a value in this mode.
    pub open spec fn valid_word(self, word: u64) -> bool {
        if self.config.mode == Mode::KeySet {
            word == 0
        } else {
            word < VALUE_BLOB_TAG || valid_blob(self.blobs->0, word - VALUE_BLOB_TAG)
        }
    }

    /// The entry of the node at `offset`.
    pub open spec fn entry_at(self, offset: u64) -> Entry {
        Entry {
            key: key_at(self.body.data, offset as int),
            value: self.value_of(value_at(self.body.data, offset as int)),
        }
    }

    /// The entries of one chain, newest first.
    pub open spec fn entries_of(self, chain: Seq<u64>) -> Seq<Entry> {
        chain.map_values(|offset: u64| self.entry_at(offset))
    }

    /// The entries of all chains, by bucket.
    pub open spec fn entries(self, chains: Seq<Seq<u64>>) -> Seq<Seq<Entry>> {
        chains.map_values(|chain: Seq<u64>| self.entries_of(chain))
    }

    /// Whether some chained node refers to the blob at `offset`.
    pub open spec fn referred(self, chains: Seq<Seq<u64>>, offset: int) -> bool {
        0 <= offset && exists|bucket: int, index: int|
            slot(chains, bucket, index) && value_at(
                self.body.data,
                #[trigger] chains[bucket][index] as int,
            ) == VALUE_BLOB_TAG + offset
    }

    /// The live allocations of the body: the chained nodes, and `nodes`, which were
    /// taken from the body and are in no chain.
    pub open spec fn live_nodes(self, chains: Seq<Seq<u64>>, nodes: Set<int>) -> Map<int, int> {
        Map::new(
            |offset: int| nodes.contains(offset) || chained(chains, offset),
            |offset: int| NODE_SIZE as int,
        )
    }

    /// The live allocations of the blob file: the blobs that chained nodes refer to,
    /// and `blobs`, to which none refers.
    pub open spec fn live_blobs(self, chains: Seq<Seq<u64>>, blobs: Map<int, int>) -> Map<
        int,
        int,
    > {
        Map::new(
            |offset: int| blobs.dom().contains(offset) || self.referred(chains, offset),
            |offset: int|
                if blobs.dom().contains(offset) {
                    blobs[offset]
                } else {
                    blob_extent(self.blobs->0, offset)
                },
        )
    }

    /// Every head starts its chain, and every chained node is in the bucket of its
    /// key and has a value.
    pub open spec fn chains_hold(self, chains: Seq<Seq<u64>>) -> bool {
        &&& chains.len() == self.heads.len()
        &&& chains.len() == self.config.bucket_count
        &&& forall|bucket: int|
            #![trigger chains[bucket]]
            0 <= bucket < chains.len() ==> linked(self.body, self.heads[bucket], chains[bucket])
        &&& forall|bucket: int, index: int|
            #![trigger chains[bucket][index]]
            slot(chains, bucket, index) ==> self.valid_word(
                value_at(self.body.data, chains[bucket][index] as int),
            ) && bucket_of(self.config, key_at(self.body.data, chains[bucket][index] as int))
                == bucket
    }

    /// No node is in two places, and no blob is referred to twice; nodes and blobs
    /// that were set apart are in no chain.
    pub open spec fn apart(
        self,
        chains: Seq<Seq<u64>>,
        nodes: Set<int>,
        blobs: Map<int, int>,
    ) -> bool {
        &&& forall|b: int, i: int, c: int, j: int|
            #![trigger chains[b][i], chains[c][j]]
            slot(chains, b, i) && slot(chains, c, j) && chains[b][i] == chains[c][j] ==> b == c && i
                == j
        &&& forall|b: int, i: int|
            #![trigger chains[b][i]]
            slot(chains, b, i) ==> !nodes.contains(chains[b][i] as int)
        &&& forall|offset: int| #[trigger] nodes.contains(offset) ==> offset % 32 == 0
        &&& forall|b: int, i: int, c: int, j: int|
            #![trigger chains[b][i], chains[c][j]]
            slot(chains, b, i) && slot(chains, c, j) && value_at(
                self.body.data,
                chains[b][i] as int,
            ) >= VALUE_BLOB_TAG && value_at(self.body.data, chains[b][i] as int) == value_at(
                self.body.data,
                chains[c][j] as int,
            ) ==> b == c && i == j
        &&& forall|b: int, i: int|
            #![trigger chains[b][i]]
            slot(chains, b, i) && value_at(self.body.data, chains[b][i] as int) >= VALUE_BLOB_TAG
                ==> !blobs.dom().contains(
                value_at(self.body.data, chains[b][i] as int) - VALUE_BLOB_TAG,
            )
    }

    /// The page counts are those of the nodes and blobs.
    pub open spec fn counted(
        self,
        chains: Seq<Seq<u64>>,
        nodes: Set<int>,
        blobs: Map<int, int>,
    ) -> bool {
        &&& accounts(self.body.pages, self.live_nodes(chains, nodes))
        &&& match self.blobs {
            Some(files) => accounts(files.pages, self.live_blobs(chains, blobs)),
            None => blobs.dom() =~= Set::empty(),
        }
    }

    /// The allocators have the sizes of the configuration.
    pub open spec fn sized(self) -> bool {
        &&& self.body.pages.block_size == self.config.block_size
        &&& self.body.capacity() == self.config.body_capacity
        &&& self.blobs matches Some(files) ==> files.pages.block_size == self.config.block_size
            && files.capacity() == self.config.blob_capacity
    }

    /// The files hold what `chains` lists, and besides it `nodes` and `blobs`, which
    /// were set apart: taken and not yet chained, or unchained and not yet released.
    pub open spec fn holds(
        self,
        chains: Seq<Seq<u64>>,
        nodes: Set<int>,
        blobs: Map<int, int>,
    ) -> bool {
        &&& self.config.valid()
        &&& self.body.wf()
        &&& self.blobs matches Some(files) ==> files.wf()
        &&& self.blobs is Some == (self.config.mode == Mode::KeyMap)
        &&& self.sized()
        &&& self.chains_hold(chains)
        &&& self.apart(chains, nodes, blobs)
        &&& self.counted(chains, nodes, blobs)
    }
}

/// The chain that one reaches from a root is unique.
pub proof fn lemma_linked_unique(body: Files, root: u64, one: Seq<u64>, two: Seq<u64>)
    requires
        linked(body, root, one),
        linked(body, root, two),
    ensures
        one == two,
    decreases one.len(),
{
    if one.len() == 0 || two.len() == 0 {
        if one.len() > 0 {
            assert(one[0] == 0);
        }
        if two.len() > 0 {
            assert(two[0] == 0);
        }
        assert(one =~= two);
    } else {
        assert(one[0] == two[0]);
        let a = one.drop_first();
        let b = two.drop_first();
        let next = next_at(body.data, one[0] as int);
        assert forall|index: int|
            #![trigger a[index]]
            0 <= index < a.len() implies node_defect(body.capacity(), body.data, a[index] as int)
            is None && next_at(body.data, a[index] as int) == after_in(a, index) by {
            reveal(after_in);
            assert(a[index] == one[index + 1]);
            assert(after_in(a, index) == after_in(one, index + 1));
        }
        assert forall|index: int|
            #![trigger b[index]]
            0 <= index < b.len() implies node_defect(body.capacity(), body.data, b[index] as int)
            is None && next_at(body.data, b[index] as int) == after_in(b, index) by {
            reveal(after_in);
            assert(b[index] == two[index + 1]);
            assert(after_in(b, index) == after_in(two, index + 1));
        }
        reveal(after_in);
        assert(next == first_of(a));
        assert(next == first_of(b));
        lemma_linked_unique(body, next, a, b);
        assert(one =~= seq![one[0]] + a);
        assert(two =~= seq![two[0]] + b);
    }
}

/// Whether two data files agree on key, value and checksum of the node at `offset`.
pub open spec fn same_node(one: Seq<u8>, two: Seq<u8>, offset: int) -> bool {
    &&& key_at(one, offset) == key_at(two, offset)
    &&& value_at(one, offset) == value_at(two, offset)
    &&& pointer_at(one, offset) / NODE_POINTER_LIMIT == pointer_at(two, offset)
        / NODE_POINTER_LIMIT
}

/// A node stays a node in a data file that agrees on it.
pub proof fn lemma_same_node(capacity: int, one: Seq<u8>, two: Seq<u8>, offset: int)
    requires
        node_defect(capacity, one, offset) is None,
        same_node(one, two, offset),
        one.len() <= two.len(),
    ensures
        node_defect(capacity, two, offset) is None,
{
}

/// Data files that agree on the bytes of a node agree on the node.
pub proof fn lemma_node_bytes_kept(one: Seq<u8>, two: Seq<u8>, offset: int)
    requires
        0 <= offset,
        offset + NODE_SIZE <= one.len(),
        one.len() <= two.len(),
        forall|i: int| offset <= i < offset + NODE_SIZE ==> one[i] == two[i],
    ensures
        same_node(one, two, offset),
        next_at(one, offset) == next_at(two, offset),
{
    lemma_same_fields(
        one,
        offset + NODE_VALUE_OFFSET,
        two,
        offset + NODE_VALUE_OFFSET,
        8,
    );
    lemma_same_fields(
        one,
        offset + NODE_POINTER_OFFSET,
        two,
        offset + NODE_POINTER_OFFSET,
        8,
    );
    assert(key_at(one, offset) =~= key_at(two, offset));
}

/// Nodes are aligned, so that an access to one touches no byte of another.
pub proof fn lemma_nodes_apart(capacity: int, data: Seq<u8>, one: int, two: int)
    requires
        node_defect(capacity, data, one) is None,
        two % 32 == 0,
        one != two,
    ensures
        one + NODE_SIZE <= two || two + NODE_SIZE <= one,
        DATA_START <= one,
        one + NODE_SIZE <= data.len(),
{
}

/// Writing the pointer word of a node keeps every other node, and the node itself
/// but for its next-node offset.
pub proof fn lemma_with_next(
    capacity: int,
    data: Seq<u8>,
    node: int,
    replacement: u64,
)
    requires
        node_defect(capacity, data, node) is None,
        replacement < NODE_POINTER_LIMIT,
    ensures
        same_node(data, with_next(data, node, replacement), node),
        next_at(with_next(data, node, replacement), node) == replacement,
        with_next(data, node, replacement).len() == data.len(),
        forall|other: int|
            #![trigger node_defect(capacity, data, other)]
            other != node && node_defect(capacity, data, other) is None ==> same_node(
                data,
                with_next(data, node, replacement),
                other,
            ) && next_at(with_next(data, node, replacement), other) == next_at(data, other),
{
    let after = with_next(data, node, replacement);
    let word = (pointer_at(data, node) - next_at(data, node) + replacement) as u64;
    lemma_le_fields();
    lemma_same_fields(
        data,
        node + NODE_VALUE_OFFSET,
        after,
        node + NODE_VALUE_OFFSET,
        8,
    );
    lemma_same_fields(after, node + NODE_POINTER_OFFSET, le64_bytes(word), 0, 8);
    assert(key_at(data, node) =~= key_at(after, node));
    assert forall|other: int|
        #![trigger node_defect(capacity, data, other)]
        other != node && node_defect(capacity, data, other) is None implies same_node(
        data,
        after,
        other,
    ) && next_at(after, other) == next_at(data, other) by {
        lemma_nodes_apart(capacity, data, other, node);
        lemma_node_bytes_kept(data, after, other);
    }
}

/// Whether `entries[index]` is the first entry for `key`.
pub open spec fn is_first(entries: Seq<Entry>, key: Seq<u8>, index: int) -> bool {
    &&& 0 <= index < entries.len()
    &&& entries[index].key == key
    &&& forall|j: int| 0 <= j < index ==> (#[trigger] entries[j]).key != key
}

/// Index of the first entry for `key`, if there is one.
pub open spec fn first_index(entries: Seq<Entry>, key: Seq<u8>) -> Option<int> {
    if exists|index: int| is_first(entries, key, index) {
        Some(choose|index: int| is_first(entries, key, index))
    } else {
        None
    }
}

/// The first entry for a key is where `is_first` says.
pub proof fn lemma_first_index(entries: Seq<Entry>, key: Seq<u8>, index: int)
    requires
        is_first(entries, key, index),
    ensures
        first_index(entries, key) == Some(index),
{
    let found = choose|i: int| is_first(entries, key, i);
    assert(is_first(entries, key, found));
    if found < index {
        assert(entries[found].key != key);
    } else if index < found {
        assert(entries[index].key != key);
    }
}

/// Without an entry for a key there is no first one.
pub proof fn lemma_no_first_index(entries: Seq<Entry>, key: Seq<u8>)
    requires
        forall|j: int| 0 <= j < entries.len() ==> (#[trigger] entries[j]).key != key,
    ensures
        first_index(entries, key) is None,
{
}

/// Where there is an entry for a key, one is the first.
pub proof fn lemma_has_first_index(entries: Seq<Entry>, key: Seq<u8>, index: int)
    requires
        0 <= index < entries.len(),
        entries[index].key == key,
    ensures
        first_index(entries, key) is Some,
        0 <= first_index(entries, key)->0 <= index,
        is_first(entries, key, first_index(entries, key)->0),
    decreases index,
{
    if is_first(entries, key, index) {
        lemma_first_index(entries, key, index);
    } else {
        let earlier = choose|j: int|
            0 <= j < index && (#[trigger] entries[j]).key == key;
        lemma_has_first_index(entries, key, earlier);
    }
}

/// Most nodes that a body of `capacity` bytes can hold, and one more.
pub open spec fn node_limit(capacity: int) -> int {
    capacity / NODE_SIZE as int + 1
}

/// A chain is no longer than the body has room for.
pub proof fn lemma_chain_length(
    storage: Storage,
    chains: Seq<Seq<u64>>,
    nodes: Set<int>,
    blobs: Map<int, int>,
    bucket: int,
)
    requires
        storage.holds(chains, nodes, blobs),
        0 <= bucket < chains.len(),
    ensures
        chains[bucket].len() < node_limit(storage.body.capacity()),
{
    let chain = chains[bucket];
    let capacity = storage.body.capacity();
    let cells = chain.map_values(|offset: u64| (offset - DATA_START) / 32);
    let limit = capacity / 32;
    assert(linked(storage.body, storage.heads[bucket], chain));
    assert forall|i: int| 0 <= i < cells.len() implies 0 <= #[trigger] cells[i] < limit by {
        let offset = chain[i] as int;
        assert(node_defect(capacity, storage.body.data, offset) is None);
    }
    assert(cells.no_duplicates()) by {
        assert forall|i: int, j: int| 0 <= i < cells.len() && 0 <= j < cells.len() && i
            != j implies cells[i] != cells[j] by {
            let (one, two) = (chain[i], chain[j]);
            assert(node_defect(capacity, storage.body.data, one as int) is None);
            assert(node_defect(capacity, storage.body.data, two as int) is None);
            assert(slot(chains, bucket, i) && slot(chains, bucket, j));
            assert(chains[bucket][i] != chains[bucket][j]);
        }
    }
    cells.unique_seq_to_set();
    let room = vstd::set_lib::set_int_range(0, limit);
    vstd::set_lib::lemma_int_range(0, limit);
    assert(cells.to_set().subset_of(room)) by {
        assert forall|cell: int| cells.to_set().contains(cell) implies room.contains(cell) by {
            let i = choose|i: int| 0 <= i < cells.len() && cells[i] == cell;
            assert(cells[i] == cell);
        }
    }
    vstd::set_lib::lemma_len_subset(cells.to_set(), room);
}

} // verus!
