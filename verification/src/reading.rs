//! What a read finds in files, whether they are sound or damaged.

use vstd::prelude::*;

#[allow(unused_imports)]
use crate::allocator::Files;
#[allow(unused_imports)]
use crate::bytes::{le32, le64, le64_bytes};
#[allow(unused_imports)]
use crate::error::Error;
#[allow(unused_imports)]
use crate::format::{law_node_is_read, node_stands};
#[allow(unused_imports)]
use crate::hash::digest;
#[allow(unused_imports)]
use crate::node::next_at;
#[allow(unused_imports)]
use crate::outcomes::{delete_outcome, lookup};
#[allow(unused_imports)]
use crate::search::{walk, Walk};
#[allow(unused_imports)]
use crate::storage::Storage;
#[allow(unused_imports)]
use crate::table::{contains_outcome, get_outcome};

verus! {

/// Whether a search comes by a whole node at `at` that has another key.
pub open spec fn passes(body: Files, at: u64, key: Seq<u8>) -> bool {
    node_stands(body.capacity(), body.data, at as int) && body.data.subrange(at as int, at + 16)
        != key
}

/// Whether a search that begins at `first` comes by the offsets of `path`: each is the next
/// offset of the one in front, and there is a whole node with another key at each but the
/// last.
pub open spec fn trodden(body: Files, first: u64, key: Seq<u8>, path: Seq<u64>) -> bool {
    &&& path.len() > 0 ==> path[0] == first
    &&& forall|i: int| 0 <= i < path.len() ==> #[trigger] path[i] != 0
    &&& forall|i: int|
        0 <= i < path.len() - 1 ==> passes(body, #[trigger] path[i], key) && le64(
            body.data,
            path[i] + 24,
        ) as int % 0x1_0000_0000_0000 == path[i + 1]
}

/// Whether the path of a search tells why the search ended: at a whole node with the key;
/// behind the last node of a chain without it; at an offset without a whole node; or where
/// the chain is longer than the body has room for.
pub open spec fn ends(
    body: Files,
    first: u64,
    key: Seq<u8>,
    path: Seq<u64>,
    before: Option<u64>,
    limit: int,
    outcome: Walk,
) -> bool {
    let last = path.last();
    let next = le64(body.data, last + 24) as int % 0x1_0000_0000_0000;
    match outcome {
        Walk::Found(front, at) => {
            &&& path.len() > 0
            &&& at == last
            &&& node_stands(body.capacity(), body.data, at as int)
            &&& body.data.subrange(at as int, at + 16) == key
            &&& front == (if path.len() == 1 {
                before
            } else {
                Some(path[path.len() - 2])
            })
        },
        Walk::Missing => {
            ||| path.len() == 0 && first == 0
            ||| path.len() > 0 && passes(body, last, key) && next == 0
        },
        Walk::Broken(_) => path.len() > 0 && !node_stands(body.capacity(), body.data, last as int),
        Walk::Endless => {
            &&& path.len() == limit
            &&& path.len() == 0 ==> first != 0
            &&& path.len() > 0 ==> passes(body, last, key) && next != 0
        },
    }
}

/// A search follows the chain of the key's bucket from node to node, checks every one, and
/// ends as it has to.
pub proof fn law_search_is_checked(storage: Storage, key: Seq<u8>) -> (path: Seq<u64>)
    requires
        storage.config.bucket_count > 0,
        0 <= storage.body.capacity() < 0xffff_ffff_ffff_0000,
    ensures
        ({
            let bucket = digest(key, storage.config.hash_seed) as int
                % storage.config.bucket_count as int;
            let first = storage.heads[bucket];
            &&& path.len() <= storage.body.capacity() / 32 + 1
            &&& trodden(storage.body, first, key, path)
            &&& ends(
                storage.body,
                first,
                key,
                path,
                None,
                storage.body.capacity() / 32 + 1,
                lookup(storage, key),
            )
        }),
{
    let bucket = digest(key, storage.config.hash_seed) as int % storage.config.bucket_count as int;
    lemma_walked(
        storage.body,
        None,
        storage.heads[bucket],
        key,
        (storage.body.capacity() / 32 + 1) as nat,
    )
}

/// The path of a search.
proof fn lemma_walked(
    body: Files,
    before: Option<u64>,
    current: u64,
    key: Seq<u8>,
    steps: nat,
) -> (path: Seq<u64>)
    requires
        body.capacity() < 0xffff_ffff_ffff_0000,
    ensures
        path.len() <= steps,
        trodden(body, current, key, path),
        ends(
            body,
            current,
            key,
            path,
            before,
            steps as int,
            walk(body, before, current, key, steps),
        ),
    decreases steps,
{
    law_node_is_read(body.capacity(), body.data, current as int);
    if current == 0 || steps == 0 {
        Seq::empty()
    } else if passes(body, current, key) {
        let next = next_at(body.data, current as int);
        let rest = lemma_walked(body, Some(current), next, key, (steps - 1) as nat);
        let path = seq![current] + rest;
        assert forall|i: int| 0 <= i < path.len() - 1 implies passes(
            body,
            #[trigger] path[i],
            key,
        ) && le64(body.data, path[i] + 24) as int % 0x1_0000_0000_0000 == path[i + 1] by {
            if i > 0 {
                assert(path[i] == rest[i - 1]);
                assert(path[i + 1] == rest[i]);
            }
        }
        assert forall|i: int| 0 <= i < path.len() implies #[trigger] path[i] != 0 by {
            if i > 0 {
                assert(path[i] == rest[i - 1]);
            }
        }
        if rest.len() > 0 {
            assert(path.last() == rest.last());
            if rest.len() > 1 {
                assert(path[path.len() - 2] == rest[rest.len() - 2]);
            }
        }
        path
    } else {
        seq![current]
    }
}

/// A key is told to be there, or not, exactly where the search found it, or came to the end
/// of its chain.
pub proof fn law_membership_is_checked(storage: Storage, key: Seq<u8>)
    ensures
        contains_outcome(storage, key) == Ok::<bool, Error>(true) <==> key.len() == 16 && lookup(
            storage,
            key,
        ) is Found,
        contains_outcome(storage, key) == Ok::<bool, Error>(false) <==> key.len() == 16 && lookup(
            storage,
            key,
        ) is Missing,
        delete_outcome(storage, key).1 == Ok::<bool, Error>(false) <==> key.len() == 16 && lookup(
            storage,
            key,
        ) is Missing,
        delete_outcome(storage, key).1 == Ok::<bool, Error>(true) ==> key.len() == 16 && lookup(
            storage,
            key,
        ) is Found,
        !(delete_outcome(storage, key).1 is Ok) || delete_outcome(storage, key).1->Ok_0 || (
        delete_outcome(storage, key).0 == storage),
{
}

/// Whether a value word of a map stands for a value: for its own bytes, or for those of a
/// blob that is inside the file and has its own checksum.
pub open spec fn word_reads(blobs: Option<Files>, word: u64, value: Seq<u8>) -> bool {
    if word < 0x8000_0000_0000_0000 {
        value == le64_bytes(word)
    } else {
        let at = word - 0x8000_0000_0000_0000;
        let files = blobs->0;
        let length = le32(files.data, at) as int;
        &&& blobs is Some
        &&& 65_536 <= at
        &&& at + 8 + length <= 65_536 + files.capacity()
        &&& at + 8 + length <= files.data.len()
        &&& value == files.data.subrange(at + 8, at + 8 + length)
        &&& le32(files.data, at + 4) == digest(value, 0x4341_5342_4c4f_4232) % 0x1_0000_0000
    }
}

/// A value is read exactly where the search found the key and the word of the node stands
/// for the value; none is, where the search came to the end of the chain.
pub proof fn law_read_is_checked(storage: Storage, key: Seq<u8>, value: Seq<u8>)
    requires
        storage.blobs matches Some(files) ==> files.wf(),
    ensures
        get_outcome(storage, key) == Ok::<Option<Seq<u8>>, Error>(Some(value)) <==> {
            &&& key.len() == 16
            &&& lookup(storage, key) matches Walk::Found(_, at) && word_reads(
                storage.blobs,
                le64(storage.body.data, at + 16),
                value,
            )
        },
        get_outcome(storage, key) == Ok::<Option<Seq<u8>>, Error>(None) <==> key.len() == 16
            && lookup(storage, key) is Missing,
{
}

} // verus!
