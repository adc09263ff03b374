//! What an inspected snapshot is known to be.

use vstd::prelude::*;

#[allow(unused_imports)]
use super::{
    inspect_buckets, inspect_chain, inspected, lemma_inspect_fails, lemma_walked, mixed, node_mixed,
    path_from, prefix_has, snapshot_node_defect,
};
#[allow(unused_imports)]
use crate::allocator::Files;
#[allow(unused_imports)]
use crate::bytes::{le64, le64_bytes};
#[allow(unused_imports)]
use crate::config::Mode;
#[allow(unused_imports)]
use crate::format::{blob_stands, law_blob_is_read, law_node_is_read, node_stands, on_one_page};
#[allow(unused_imports)]
use crate::hash::digest;
#[allow(unused_imports)]
use crate::node::{key_at, next_at, node_defect, value_at};
#[allow(unused_imports)]
use crate::storage::{after_in, linked, node_limit, Storage};

verus! {

/// Whether a value word may stand in a snapshot: none in a set; in a map an inline value
/// or the place of a whole blob.
pub open spec fn word_stands(storage: Storage, word: u64) -> bool {
    if storage.config.mode == Mode::KeySet {
        word == 0
    } else {
        word < 0x8000_0000_0000_0000 || storage.blobs is Some && blob_stands(
            storage.blobs->0,
            word - 0x8000_0000_0000_0000,
        )
    }
}

/// A snapshot passes inspection only if its chains end, every node of them is whole, on one
/// page, in the bucket of its key and with a value, and no key occurs twice in a bucket.
pub proof fn law_inspected_snapshot(storage: Storage, bucket: int) -> (chain: Seq<u64>)
    requires
        inspected(storage) is Ok,
        storage.body.capacity() < 0xffff_ffff_ffff_0000,
        storage.blobs matches Some(files) ==> files.wf(),
        0 <= bucket < storage.config.bucket_count,
    ensures
        ({
            let data = storage.body.data;
            &&& storage.heads[bucket] == (if chain.len() == 0 {
                0
            } else {
                chain[0]
            })
            &&& forall|i: int|
                0 <= i < chain.len() ==> {
                    let at = (#[trigger] chain[i]) as int;
                    &&& node_stands(storage.body.capacity(), data, at)
                    &&& on_one_page(storage.body.pages, at, 32)
                    &&& le64(data, at + 24) % 0x1_0000_0000_0000 == (if i + 1 < chain.len() {
                        chain[i + 1]
                    } else {
                        0
                    })
                    &&& digest(data.subrange(at, at + 16), storage.config.hash_seed) as int
                        % storage.config.bucket_count as int == bucket
                    &&& word_stands(storage, le64(data, at + 16))
                }
            &&& forall|i: int, j: int|
                0 <= i < j < chain.len() ==> data.subrange(
                    (#[trigger] chain[i]) as int,
                    chain[i] + 16,
                ) != data.subrange((#[trigger] chain[j]) as int, chain[j] + 16)
        }),
{
    let data = storage.body.data;
    let limit = node_limit(storage.body.capacity()) as nat;
    if inspect_buckets(storage, bucket + 1) is Err {
        lemma_inspect_fails(storage, bucket + 1, storage.config.bucket_count as int);
    }
    let checksum = inspect_buckets(storage, bucket)->Ok_0;
    let start = mixed(mixed(checksum, bucket as u64), storage.heads[bucket]);
    let root = storage.heads[bucket];
    let chain = path_from(storage.body, root, limit);
    lemma_walked(storage, bucket, Seq::empty(), root, limit, start);
    lemma_passed(storage, bucket, Seq::empty(), root, limit, start);
    reveal(after_in);
    assert forall|i: int| 0 <= i < chain.len() implies {
        let at = (#[trigger] chain[i]) as int;
        &&& node_stands(storage.body.capacity(), data, at)
        &&& on_one_page(storage.body.pages, at, 32)
        &&& word_stands(storage, le64(data, at + 16))
    } by {
        let at = chain[i] as int;
        law_node_is_read(storage.body.capacity(), data, at);
        let word = value_at(data, at);
        if word >= 0x8000_0000_0000_0000 && storage.config.mode == Mode::KeyMap {
            law_blob_is_read(storage.blobs->0, word - 0x8000_0000_0000_0000);
        }
    }
    assert forall|i: int, j: int| 0 <= i < j < chain.len() implies key_at(
        data,
        (#[trigger] chain[i]) as int,
    ) != key_at(data, (#[trigger] chain[j]) as int) by {
        let path = Seq::empty() + chain.take(j);
        assert forall|k: int| 0 <= k < path.len() implies path[k] != chain[j] by {
            lemma_no_repeat(storage.body, root, chain, k, j);
        }
        lemma_in_front(data, path, chain[j], key_at(data, chain[j] as int), i);
    }
    chain
}

/// The nodes of a chain that passed have no page boundary inside, and no node in front of
/// one has its key.
proof fn lemma_passed(
    storage: Storage,
    bucket: int,
    path: Seq<u64>,
    current: u64,
    steps: nat,
    checksum: u64,
)
    requires
        inspect_chain(storage, bucket, path, current, steps, checksum) is Ok,
    ensures
        ({
            let chain = path_from(storage.body, current, steps);
            forall|i: int|
                #![trigger chain[i]]
                0 <= i < chain.len() ==> snapshot_node_defect(
                    storage,
                    bucket,
                    path + chain.take(i),
                    chain[i],
                ) is None
        }),
    decreases steps,
{
    let chain = path_from(storage.body, current, steps);
    if current != 0 {
        let next = next_at(storage.body.data, current as int);
        let rest = path_from(storage.body, next, (steps - 1) as nat);
        lemma_passed(
            storage,
            bucket,
            path.push(current),
            next,
            (steps - 1) as nat,
            node_mixed(storage.body.data, current, checksum),
        );
        assert forall|i: int|
            #![trigger chain[i]]
            0 <= i < chain.len() implies snapshot_node_defect(
            storage,
            bucket,
            path + chain.take(i),
            chain[i],
        ) is None by {
            if i == 0 {
                assert(path + chain.take(0) =~= path);
            } else {
                assert(chain[i] == rest[i - 1]);
                assert(path + chain.take(i) =~= path.push(current) + rest.take(i - 1));
            }
        }
    }
}

/// No chain that ends comes by a node twice.
proof fn lemma_no_repeat(body: Files, root: u64, chain: Seq<u64>, i: int, j: int)
    requires
        linked(body, root, chain),
        0 <= i < j < chain.len(),
    ensures
        chain[i] != chain[j],
    decreases chain.len() - j,
{
    reveal(after_in);
    if chain[i] == chain[j] {
        assert(next_at(body.data, chain[i] as int) == after_in(chain, i));
        assert(next_at(body.data, chain[j] as int) == after_in(chain, j));
        assert(node_defect(body.capacity(), body.data, chain[i + 1] as int) is None);
        if j + 1 < chain.len() {
            lemma_no_repeat(body, root, chain, i + 1, j + 1);
        }
    }
}

/// A key that is not in front of its node is that of no node there.
proof fn lemma_in_front(data: Seq<u8>, path: Seq<u64>, target: u64, key: Seq<u8>, index: int)
    requires
        !prefix_has(data, path, target, key),
        forall|i: int| 0 <= i < path.len() ==> #[trigger] path[i] != target,
        0 <= index < path.len(),
    ensures
        key_at(data, path[index] as int) != key,
    decreases path.len(),
{
    if index > 0 {
        let rest = path.drop_first();
        assert forall|i: int| 0 <= i < rest.len() implies #[trigger] rest[i] != target by {
            assert(rest[i] == path[i + 1]);
        }
        lemma_in_front(data, rest, target, key, index - 1);
    }
}

/// The digest of several byte strings: each is digested under the digest of the one in
/// front of it.
pub open spec fn digest_of_all(parts: Seq<Seq<u8>>, seed: u64) -> u64
    decreases parts.len(),
{
    if parts.len() == 0 {
        seed
    } else {
        digest(parts.last(), digest_of_all(parts.drop_last(), seed))
    }
}

/// What a chain adds to the checksum of a snapshot: of every node the offset, the next
/// offset, the value word and the key.
pub open spec fn chain_parts(data: Seq<u8>, chain: Seq<u64>) -> Seq<Seq<u8>>
    decreases chain.len(),
{
    if chain.len() == 0 {
        Seq::empty()
    } else {
        let at = chain.last() as int;
        chain_parts(data, chain.drop_last()).push(le64_bytes(chain.last())).push(
            le64_bytes(next_at(data, at)),
        ).push(le64_bytes(le64(data, at + 16))).push(data.subrange(at, at + 16))
    }
}

/// What the first `count` buckets add to the checksum of a snapshot: of every bucket its
/// number, its head and its chain.
pub open spec fn bucket_parts(storage: Storage, chains: Seq<Seq<u64>>, count: int) -> Seq<
    Seq<u8>,
>
    decreases count,
{
    if count <= 0 {
        Seq::empty()
    } else {
        let bucket = count - 1;
        bucket_parts(storage, chains, bucket).push(le64_bytes(bucket as u64)).push(
            le64_bytes(storage.heads[bucket]),
        ) + chain_parts(storage.body.data, chains[bucket])
    }
}

/// The checksum of a snapshot is the digest of everything that its buckets and nodes hold,
/// from the first word of a manifest on.
pub proof fn law_snapshot_checksum(storage: Storage, chains: Seq<Seq<u64>>, count: int)
    requires
        0 <= count <= storage.config.bucket_count,
        chains.len() == storage.config.bucket_count,
        inspect_buckets(storage, count) is Ok,
        forall|b: int|
            0 <= b < chains.len() ==> linked(
                storage.body,
                storage.heads[b],
                #[trigger] chains[b],
            ),
    ensures
        inspect_buckets(storage, count)->Ok_0 == digest_of_all(
            bucket_parts(storage, chains, count),
            0x4341_5343_484b_5031,
        ),
    decreases count,
{
    if count > 0 {
        let bucket = count - 1;
        let seed = 0x4341_5343_484b_5031u64;
        law_snapshot_checksum(storage, chains, bucket);
        let before = bucket_parts(storage, chains, bucket);
        let checksum = inspect_buckets(storage, bucket)->Ok_0;
        let (number, head) = (le64_bytes(bucket as u64), le64_bytes(storage.heads[bucket]));
        let parts = before.push(number).push(head);
        assert(before.push(number).drop_last() =~= before);
        assert(parts.drop_last() =~= before.push(number));
        let start = mixed(mixed(checksum, bucket as u64), storage.heads[bucket]);
        assert(digest_of_all(before.push(number), seed) == mixed(checksum, bucket as u64));
        assert(digest_of_all(parts, seed) == start);
        let limit = node_limit(storage.body.capacity()) as nat;
        let chain = chains[bucket];
        lemma_walked(storage, bucket, Seq::empty(), storage.heads[bucket], limit, start);
        crate::storage::lemma_linked_unique(
            storage.body,
            storage.heads[bucket],
            chain,
            path_from(storage.body, storage.heads[bucket], limit),
        );
        assert(chain.take(0) =~= Seq::empty());
        assert(parts + chain_parts(storage.body.data, chain.take(0)) =~= parts);
        lemma_chain_checksum(storage, bucket, chain, 0, limit, parts, start);
    }
}

/// The checksum along the rest of a chain.
proof fn lemma_chain_checksum(
    storage: Storage,
    bucket: int,
    chain: Seq<u64>,
    index: int,
    steps: nat,
    parts: Seq<Seq<u8>>,
    checksum: u64,
)
    requires
        linked(storage.body, storage.heads[bucket], chain),
        0 <= index <= chain.len(),
        checksum == digest_of_all(
            parts + chain_parts(storage.body.data, chain.take(index)),
            0x4341_5343_484b_5031,
        ),
        inspect_chain(
            storage,
            bucket,
            chain.take(index),
            if index < chain.len() {
                chain[index]
            } else {
                0
            },
            steps,
            checksum,
        ) is Ok,
    ensures
        inspect_chain(
            storage,
            bucket,
            chain.take(index),
            if index < chain.len() {
                chain[index]
            } else {
                0
            },
            steps,
            checksum,
        )->Ok_0 == digest_of_all(
            parts + chain_parts(storage.body.data, chain),
            0x4341_5343_484b_5031,
        ),
    decreases chain.len() - index,
{
    let data = storage.body.data;
    let seed = 0x4341_5343_484b_5031u64;
    if index < chain.len() {
        let current = chain[index];
        let at = current as int;
        assert(node_defect(storage.body.capacity(), data, at) is None);
        let next = next_at(data, at);
        assert(next == after_in(chain, index));
        reveal(after_in);
        let longer = chain.take(index + 1);
        assert(longer.drop_last() =~= chain.take(index));
        assert(chain.take(index).push(current) =~= longer);
        let zero = parts + chain_parts(data, chain.take(index));
        let one = zero.push(le64_bytes(current));
        let two = one.push(le64_bytes(next));
        let three = two.push(le64_bytes(value_at(data, at)));
        let four = three.push(data.subrange(at, at + 16));
        assert(one.drop_last() =~= zero);
        assert(two.drop_last() =~= one);
        assert(three.drop_last() =~= two);
        assert(four.drop_last() =~= three);
        assert(parts + chain_parts(data, longer) =~= four);
        assert(digest_of_all(one, seed) == mixed(checksum, current));
        assert(digest_of_all(two, seed) == mixed(mixed(checksum, current), next));
        assert(digest_of_all(three, seed) == mixed(
            mixed(mixed(checksum, current), next),
            value_at(data, at),
        ));
        assert(digest_of_all(four, seed) == node_mixed(data, current, checksum));
        lemma_chain_checksum(
            storage,
            bucket,
            chain,
            index + 1,
            (steps - 1) as nat,
            parts,
            node_mixed(data, current, checksum),
        );
    } else {
        assert(chain.take(index) =~= chain);
    }
}

} // verus!
