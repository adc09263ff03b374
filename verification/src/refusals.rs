//! Which error comes where.

use vstd::prelude::*;

#[allow(unused_imports)]
use crate::allocator::batch_outcome;
#[allow(unused_imports)]
use crate::bytes::le64;
#[allow(unused_imports)]
use crate::config::Mode;
#[allow(unused_imports)]
use crate::database::checkpoint::CheckpointFiles;
#[allow(unused_imports)]
use crate::database::room::{law_put_finds_room, stands_inline};
#[allow(unused_imports)]
use crate::error::Error;
#[allow(unused_imports)]
use crate::hash::digest;
#[allow(unused_imports)]
use crate::header::config_of;
#[allow(unused_imports)]
use crate::inspection::{
    inspect_buckets, inspect_chain, inspected, mixed, node_mixed, snapshot_node_defect,
};
#[allow(unused_imports)]
use crate::layout::power_of_two;
#[allow(unused_imports)]
use crate::manifest::manifest_at;
#[allow(unused_imports)]
use crate::node::next_at;
#[allow(unused_imports)]
use crate::outcomes::{add_outcome, delete_outcome, lookup, put_outcome, PutOutcome};
#[allow(unused_imports)]
use crate::pages::Pages;
#[allow(unused_imports)]
use crate::search::{walk, Walk};
#[allow(unused_imports)]
use crate::storage::{node_limit, Storage};
#[allow(unused_imports)]
use crate::table::{contains_outcome, get_outcome};

verus! {

/// A key of another width than sixteen bytes is refused by every operation, with both
/// widths, and nothing changes.
pub proof fn law_other_widths_are_refused(
    storage: Storage,
    key: Seq<u8>,
    value: Seq<u8>,
    replace: bool,
)
    requires
        key.len() != 16,
    ensures
        ({
            let error = Error::InvalidKeyLength { expected: 16, actual: key.len() as usize };
            &&& put_outcome(storage, key, value, replace) == (
                storage,
                Err::<PutOutcome, Error>(error),
            )
            &&& add_outcome(storage, key) == (storage, Err::<(), Error>(error))
            &&& delete_outcome(storage, key) == (storage, Err::<bool, Error>(error))
            &&& contains_outcome(storage, key) == Err::<bool, Error>(error)
            &&& get_outcome(storage, key) == Err::<Option<Seq<u8>>, Error>(error)
        }),
{
}

/// An allocation that no page can hold is refused as such, one at an alignment that is no
/// power of two or larger than a page as a wrong request, and one without room for want of
/// room. A refused request for too much changes nothing.
pub proof fn law_allocation_is_refused(
    pages: Pages,
    length: int,
    alignment: int,
    maximum: int,
)
    ensures
        ({
            let (after, result) = batch_outcome(pages, length, alignment, maximum);
            let fits = length != 0 && length <= pages.block_size && maximum != 0;
            let aligned = power_of_two(alignment) && alignment <= pages.block_size;
            &&& !fits ==> after == pages && result is Err && result->Err_0
                == Error::CapacityExhausted("single-page allocation")
            &&& fits && !aligned ==> after == pages && result is Err && result->Err_0
                == Error::InvalidConfig("allocation alignment is invalid")
            &&& fits && aligned ==> (result matches Err(error) ==> error
                == Error::CapacityExhausted("mapped file"))
        }),
{
}

/// A put into a map fails for one of two reasons: the value and its header are longer than a
/// page, or a file has no room.
pub proof fn law_put_is_refused(
    storage: Storage,
    chains: Seq<Seq<u64>>,
    key: Seq<u8>,
    value: Seq<u8>,
    replace: bool,
)
    requires
        storage.holds(chains, Set::empty(), Map::empty()),
        storage.config.mode == Mode::KeyMap,
        key.len() == 16,
        8 + value.len() <= usize::MAX,
    ensures
        put_outcome(storage, key, value, replace).1 matches Err(error) ==> error == (
        if !stands_inline(value) && value.len() + 8 > storage.config.block_size {
            Error::CapacityExhausted("single-page allocation")
        } else {
            Error::CapacityExhausted("mapped file")
        }),
{
    law_put_finds_room(storage, chains, key, value, replace);
    crate::outcomes::lemma_put(storage, chains, key, value, replace);
    crate::database::room::lemma_alignments(storage.config);
    if !stands_inline(value) {
        law_allocation_is_refused(storage.blobs->0.pages, 8 + value.len() as int, 8, 1);
    }
    law_allocation_is_refused(storage.body.pages, 32, 32, 1);
}

/// What is damaged is reported as corrupt: a node that is not whole, a chain without an end,
/// and a value that cannot be read.
pub proof fn law_damage_is_corrupt(storage: Storage, key: Seq<u8>)
    requires
        key.len() == 16,
    ensures
        contains_outcome(storage, key) matches Err(error) ==> error is Corrupt,
        get_outcome(storage, key) matches Err(error) ==> error is Corrupt,
        lookup(storage, key) is Endless ==> contains_outcome(storage, key) == Err::<bool, Error>(
            Error::Corrupt("body chain contains a cycle"),
        ),
{
    lemma_walk_corrupt(
        storage,
        None,
        storage.heads[crate::storage::bucket_of(storage.config, key)],
        key,
        node_limit(storage.body.capacity()) as nat,
    );
}

proof fn lemma_walk_corrupt(
    storage: Storage,
    before: Option<u64>,
    current: u64,
    key: Seq<u8>,
    steps: nat,
)
    ensures
        walk(storage.body, before, current, key, steps) matches Walk::Broken(error)
            ==> error is Corrupt,
    decreases steps,
{
    if current != 0 && steps > 0 {
        lemma_walk_corrupt(
            storage,
            Some(current),
            next_at(storage.body.data, current as int),
            key,
            (steps - 1) as nat,
        );
    }
}

/// A snapshot that does not pass inspection is corrupt.
pub proof fn law_failed_inspection_is_corrupt(storage: Storage)
    ensures
        inspected(storage) matches Err(error) ==> error is Corrupt,
{
    lemma_buckets_corrupt(storage, storage.config.bucket_count as int);
}

proof fn lemma_buckets_corrupt(storage: Storage, count: int)
    ensures
        inspect_buckets(storage, count) matches Err(error) ==> error is Corrupt,
    decreases count,
{
    if count > 0 {
        let bucket = count - 1;
        lemma_buckets_corrupt(storage, bucket);
        if let Ok(checksum) = inspect_buckets(storage, bucket) {
            lemma_chain_corrupt(
                storage,
                bucket,
                Seq::empty(),
                storage.heads[bucket],
                node_limit(storage.body.capacity()) as nat,
                mixed(mixed(checksum, bucket as u64), storage.heads[bucket]),
            );
        }
    }
}

proof fn lemma_chain_corrupt(
    storage: Storage,
    bucket: int,
    path: Seq<u64>,
    current: u64,
    steps: nat,
    checksum: u64,
)
    ensures
        inspect_chain(storage, bucket, path, current, steps, checksum) matches Err(error)
            ==> error is Corrupt,
    decreases steps,
{
    if current != 0 && steps > 0 && snapshot_node_defect(storage, bucket, path, current) is None {
        lemma_chain_corrupt(
            storage,
            bucket,
            path.push(current),
            next_at(storage.body.data, current as int),
            (steps - 1) as nat,
            node_mixed(storage.body.data, current, checksum),
        );
    }
}

/// A heads file that is none, or whose header has another checksum, is corrupt; one of
/// another version is not supported.
pub proof fn law_header_is_refused(heads: Seq<u8>)
    ensures
        le64(heads, 0) != 0x3130_3042_4453_4143 ==> config_of(heads) is Err && config_of(
            heads,
        )->Err_0 is Corrupt,
        le64(heads, 0) == 0x3130_3042_4453_4143 && le64(heads, 8) != 7 ==> config_of(heads) is Err
            && config_of(heads)->Err_0 is Unsupported,
        le64(heads, 0) == 0x3130_3042_4453_4143 && le64(heads, 8) == 7 && le64(heads, 96)
            != digest(heads.subrange(0, 96), 0x4341_5344_4248_4452) ==> config_of(heads) is Err
            && config_of(heads)->Err_0 is Corrupt,
{
}

/// Files without a valid manifest are told to have no checkpoint.
pub proof fn law_no_checkpoint(files: CheckpointFiles)
    requires
        files.checked_config() is Ok,
        manifest_at(files.heads@, 0) is None,
        manifest_at(files.heads@, 1) is None,
    ensures
        files.recovery() == Err::<(u64, Seq<Seq<crate::storage::Entry>>), Error>(
            Error::Corrupt("database has no valid checkpoint"),
        ),
{
}

} // verus!
