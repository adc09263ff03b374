//! What capturing a snapshot comes to, step by step, whatever the chains of its
//! source are like.

use vstd::prelude::*;

#[allow(unused_imports)]
use crate::allocator::Files;
#[allow(unused_imports)]
use crate::copying::{copied, record_at, source_defect};
#[allow(unused_imports)]
use crate::database::empty_storage;
#[allow(unused_imports)]
use crate::error::Error;
#[allow(unused_imports)]
use crate::insertion::steps::pointed;
#[allow(unused_imports)]
use crate::node::{key_at, next_at, node_defect, value_at};
#[allow(unused_imports)]
use crate::removal::LooseNode;
#[allow(unused_imports)]
use crate::snapshot::table_defect;
#[allow(unused_imports)]
use crate::storage::{node_limit, Storage};

verus! {

/// Whether one of the copies from `from` on has a key, or why that cannot be told.
pub open spec fn listed(body: Files, list: Seq<LooseNode>, key: Seq<u8>, from: int) -> Result<
    bool,
    Error,
>
    decreases list.len() - from,
{
    if from >= list.len() {
        Ok(false)
    } else {
        let offset = list[from].body.offset as int;
        match node_defect(body.capacity(), body.data, offset) {
            Some(error) => Err(error),
            None => if key_at(body.data, offset) == key {
                Ok(true)
            } else {
                listed(body, list, key, from + 1)
            },
        }
    }
}

/// Copying the node at `offset` of the source behind the copies of `list`.
#[verifier::opaque]
pub open spec fn append_outcome(
    source: Storage,
    snapshot: Storage,
    list: Seq<LooseNode>,
    offset: u64,
) -> (Storage, Seq<LooseNode>, Result<(), Error>) {
    match source_defect(
        source.blobs,
        snapshot.blobs,
        value_at(source.body.data, offset as int),
    ) {
        Some(error) => (snapshot, list, Err(error)),
        None => {
            let (after, result) = copied(snapshot, record_at(source, offset), 0);
            match result {
                Err(error) => (after, list, Err(error)),
                Ok(copy) => if list.len() == 0 {
                    (after, list.push(copy), Ok(()))
                } else {
                    let (linked, result) = pointed(
                        after,
                        list.last().body.offset,
                        copy.body.offset,
                    );
                    match result {
                        Err(error) => (linked, list, Err(error)),
                        Ok(_) => (linked, list.push(copy), Ok(())),
                    }
                },
            }
        },
    }
}

/// Copying the first node of each key of a chain from `current` on, over at most
/// `steps` nodes.
#[verifier::opaque]
pub open spec fn copy_walk(
    source: Storage,
    snapshot: Storage,
    list: Seq<LooseNode>,
    current: u64,
    steps: nat,
) -> (Storage, Seq<LooseNode>, Result<(), Error>)
    decreases steps,
{
    let body = source.body;
    let next = next_at(body.data, current as int);
    if current == 0 {
        (snapshot, list, Ok(()))
    } else if steps == 0 {
        (snapshot, list, Err(Error::Corrupt("body chain contains a cycle")))
    } else if node_defect(body.capacity(), body.data, current as int) is Some {
        (snapshot, list, Err(node_defect(body.capacity(), body.data, current as int)->0))
    } else {
        match listed(snapshot.body, list, key_at(body.data, current as int), 0) {
            Err(error) => (snapshot, list, Err(error)),
            Ok(true) => copy_walk(source, snapshot, list, next, (steps - 1) as nat),
            Ok(false) => {
                let (after, longer, result) = append_outcome(source, snapshot, list, current);
                match result {
                    Err(error) => (after, longer, Err(error)),
                    Ok(_) => copy_walk(source, after, longer, next, (steps - 1) as nat),
                }
            },
        }
    }
}

/// One step along a chain.
pub proof fn lemma_copy_step(
    source: Storage,
    snapshot: Storage,
    list: Seq<LooseNode>,
    current: u64,
    steps: nat,
)
    requires
        current != 0,
    ensures
        ({
            let body = source.body;
            let next = next_at(body.data, current as int);
            let defect = node_defect(body.capacity(), body.data, current as int);
            let (after, longer, result) = append_outcome(source, snapshot, list, current);
            let outcome = copy_walk(source, snapshot, list, current, steps);
            if steps == 0 {
                outcome.2 == Err::<(), Error>(Error::Corrupt("body chain contains a cycle"))
                    && outcome.0 == snapshot
            } else if defect is Some {
                outcome.2 == Err::<(), Error>(defect->0) && outcome.0 == snapshot
            } else {
                match listed(snapshot.body, list, key_at(body.data, current as int), 0) {
                    Err(error) => outcome.2 == Err::<(), Error>(error) && outcome.0 == snapshot,
                    Ok(found) => if found {
                        outcome == copy_walk(source, snapshot, list, next, (steps - 1) as nat)
                    } else {
                        match result {
                            Err(error) => outcome.2 == Err::<(), Error>(error) && outcome.0
                                == after,
                            Ok(_) => outcome == copy_walk(
                                source,
                                after,
                                longer,
                                next,
                                (steps - 1) as nat,
                            ),
                        }
                    },
                }
            }
        }),
{
    reveal_with_fuel(copy_walk, 2);
}

/// Copying a bucket of the source into the same bucket of a snapshot.
pub open spec fn bucket_outcome(source: Storage, snapshot: Storage, bucket: int) -> (
    Storage,
    Result<(), Error>,
) {
    let (after, list, result) = copy_walk(
        source,
        snapshot,
        Seq::empty(),
        source.heads[bucket],
        node_limit(source.body.capacity()) as nat,
    );
    let root = if list.len() == 0 {
        0
    } else {
        list[0].body.offset
    };
    match result {
        Err(error) => (after, Err(error)),
        Ok(_) => (Storage { heads: after.heads.update(bucket, root), ..after }, Ok(())),
    }
}

/// Copying the buckets of the source from `bucket` on.
#[verifier::opaque]
pub open spec fn capture_from(source: Storage, snapshot: Storage, bucket: int) -> Result<
    Storage,
    Error,
>
    decreases source.config.bucket_count - bucket,
{
    if bucket >= source.config.bucket_count {
        Ok(snapshot)
    } else {
        let (after, result) = bucket_outcome(source, snapshot, bucket);
        match result {
            Err(error) => Err(error),
            Ok(_) => capture_from(source, after, bucket + 1),
        }
    }
}

/// The snapshot of a source, or why there is none.
pub open spec fn capture_outcome(source: Storage) -> Result<Storage, Error> {
    match table_defect(source.config) {
        Some(error) => Err(error),
        None => capture_from(source, empty_storage(source.config), 0),
    }
}

/// Copying the nodes of a chain of the source from `current` on, over at most `steps`
/// nodes, each in front of the one before it; `root` is the last one so far.
#[verifier::opaque]
pub open spec fn rebuild_walk(
    source: Storage,
    table: Storage,
    root: u64,
    current: u64,
    steps: nat,
) -> (Storage, u64, Result<(), Error>)
    decreases steps,
{
    let body = source.body;
    let next = next_at(body.data, current as int);
    let unreadable = source_defect(
        source.blobs,
        table.blobs,
        value_at(body.data, current as int),
    );
    if current == 0 {
        (table, root, Ok(()))
    } else if steps == 0 {
        (table, root, Err(Error::Corrupt("body chain contains a cycle")))
    } else if node_defect(body.capacity(), body.data, current as int) is Some {
        (table, root, Err(node_defect(body.capacity(), body.data, current as int)->0))
    } else if unreadable is Some {
        (table, root, Err(unreadable->0))
    } else {
        let (after, result) = copied(table, record_at(source, current), root);
        match result {
            Err(error) => (after, root, Err(error)),
            Ok(copy) => rebuild_walk(source, after, copy.body.offset, next, (steps - 1) as nat),
        }
    }
}

/// One step along a chain.
pub proof fn lemma_rebuild_walk(
    source: Storage,
    table: Storage,
    root: u64,
    current: u64,
    steps: nat,
)
    requires
        current != 0,
    ensures
        ({
            let body = source.body;
            let next = next_at(body.data, current as int);
            let defect = node_defect(body.capacity(), body.data, current as int);
            let unreadable = source_defect(
                source.blobs,
                table.blobs,
                value_at(body.data, current as int),
            );
            let (after, result) = copied(table, record_at(source, current), root);
            let outcome = rebuild_walk(source, table, root, current, steps);
            if steps == 0 {
                outcome.2 == Err::<(), Error>(Error::Corrupt("body chain contains a cycle"))
                    && outcome.0 == table
            } else if defect is Some {
                outcome.2 == Err::<(), Error>(defect->0) && outcome.0 == table
            } else if unreadable is Some {
                outcome.2 == Err::<(), Error>(unreadable->0) && outcome.0 == table
            } else {
                match result {
                    Err(error) => outcome.2 == Err::<(), Error>(error) && outcome.0 == after,
                    Ok(copy) => outcome == rebuild_walk(
                        source,
                        after,
                        copy.body.offset,
                        next,
                        (steps - 1) as nat,
                    ),
                }
            }
        }),
{
    reveal_with_fuel(rebuild_walk, 2);
}

/// Copying a bucket of the source into the same bucket of a table.
pub open spec fn bucket_rebuilt(source: Storage, table: Storage, bucket: int) -> (
    Storage,
    Result<(), Error>,
) {
    let (after, root, result) = rebuild_walk(
        source,
        table,
        0,
        source.heads[bucket],
        node_limit(source.body.capacity()) as nat,
    );
    match result {
        Err(error) => (after, Err(error)),
        Ok(_) => (Storage { heads: after.heads.update(bucket, root), ..after }, Ok(())),
    }
}

/// Copying the buckets of the source from `bucket` on.
#[verifier::opaque]
pub open spec fn rebuild_from(source: Storage, table: Storage, bucket: int) -> Result<
    Storage,
    Error,
>
    decreases source.config.bucket_count - bucket,
{
    if bucket >= source.config.bucket_count {
        Ok(table)
    } else {
        let (after, result) = bucket_rebuilt(source, table, bucket);
        match result {
            Err(error) => Err(error),
            Ok(_) => rebuild_from(source, after, bucket + 1),
        }
    }
}

/// The table that is rebuilt from a snapshot, or why there is none.
pub open spec fn rebuild_outcome(source: Storage) -> Result<Storage, Error> {
    match table_defect(source.config) {
        Some(error) => Err(error),
        None => rebuild_from(source, empty_storage(source.config), 0),
    }
}

} // verus!
