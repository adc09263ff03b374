//! What a batch insertion makes of the files, step by step, whatever the chains are
//! like.

use vstd::prelude::*;

#[allow(unused_imports)]
use crate::allocator::{
    after_request, batch_outcome, read_defect, release_defect, Allocation, Files,
};
#[allow(unused_imports)]
use crate::deletion::release_all;
#[allow(unused_imports)]
use crate::error::Error;
#[allow(unused_imports)]
use crate::insertion::{batch_allocations, initialized};
#[allow(unused_imports)]
use crate::layout::{NODE_ALIGNMENT, NODE_POINTER_OFFSET, NODE_SIZE};
#[allow(unused_imports)]
use crate::node::{next_at, set_next_defect, with_next};
#[allow(unused_imports)]
use crate::prepared::Prepared;
#[allow(unused_imports)]
use crate::removal::LooseNode;
#[allow(unused_imports)]
use crate::storage::{Entry, Storage};

verus! {

/// How far a batch insertion has come before anything of it is published.
#[verifier::ext_equal]
pub struct Insertion {
    /// The files.
    pub storage: Storage,
    /// The nodes that hold the first entries.
    pub private: Seq<LooseNode>,
}

/// Releasing the reserved nodes from `from` on, until one cannot be released.
pub open spec fn reserved_released(storage: Storage, list: Seq<Allocation>, from: int) -> (
    Storage,
    Result<(), Error>,
)
    decreases list.len() - from,
{
    if from >= list.len() {
        (storage, Ok(()))
    } else {
        match release_defect(storage.body.pages, list[from]) {
            Some(error) => (storage, Err(error)),
            None => reserved_released(
                Storage {
                    body: Files {
                        pages: storage.body.pages.released(list[from].block as int),
                        ..storage.body
                    },
                    ..storage
                },
                list,
                from + 1,
            ),
        }
    }
}

/// An error, or the one that came up while cleaning up behind it.
pub open spec fn cleaned_up(error: Error, cleanup: Result<(), Error>) -> Error {
    match cleanup {
        Ok(_) => error,
        Err(later) => later,
    }
}

/// Writing the next entries into the reserved nodes from `from` on. Where a value
/// cannot be stored, the reserved nodes that are left are released.
pub open spec fn fill_outcome(
    now: Insertion,
    list: Seq<Allocation>,
    from: int,
    entries: Seq<Entry>,
) -> (Insertion, Result<(), Error>)
    decreases list.len() - from,
{
    if from >= list.len() {
        (now, Ok(()))
    } else {
        let (after, result) = initialized(
            now.storage,
            list[from],
            entries[now.private.len() as int],
        );
        match result {
            Ok(made) => fill_outcome(
                Insertion { storage: after, private: now.private.push(made) },
                list,
                from + 1,
                entries,
            ),
            Err(error) => {
                let (rest, cleanup) = reserved_released(after, list, from);
                (Insertion { storage: rest, ..now }, Err(cleaned_up(error, cleanup)))
            },
        }
    }
}

/// Reserving nodes for the entries that are left, and writing them.
#[verifier::opaque]
pub open spec fn reserve_outcome(now: Insertion, entries: Seq<Entry>) -> (
    Insertion,
    Result<(), Error>,
)
    decreases entries.len() - now.private.len(),
{
    let left = entries.len() - now.private.len();
    if left <= 0 {
        (now, Ok(()))
    } else {
        let taken = Insertion {
            storage: Storage {
                body: after_request(
                    now.storage.body,
                    NODE_SIZE as int,
                    NODE_ALIGNMENT as int,
                    left,
                ),
                ..now.storage
            },
            ..now
        };
        match batch_outcome(
            now.storage.body.pages,
            NODE_SIZE as int,
            NODE_ALIGNMENT as int,
            left,
        ).1 {
            Err(error) => (taken, Err(error)),
            Ok(batch) => {
                let (filled, result) = fill_outcome(taken, batch_allocations(batch), 0, entries);
                if result is Err || !(now.private.len() < filled.private.len()
                    <= entries.len()) {
                    (filled, result)
                } else {
                    reserve_outcome(filled, entries)
                }
            },
        }
    }
}

/// Pointing a node that points nowhere to another one.
pub open spec fn pointed(storage: Storage, node: u64, target: u64) -> (
    Storage,
    Result<(), Error>,
) {
    let body = storage.body;
    let defect = set_next_defect(body.capacity(), body.data, node as int, 0, target as int);
    if defect is Some {
        (storage, Err(defect->0))
    } else if next_at(body.data, node as int) != 0 {
        (storage, Err(Error::Corrupt("private body node next pointer changed")))
    } else {
        (
            Storage {
                body: Files { data: with_next(body.data, node as int, target), ..body },
                ..storage
            },
            Ok(()),
        )
    }
}

/// Pointing each private node from `next` on to the one before it, where both belong
/// to one bucket.
#[verifier::opaque]
pub open spec fn link_outcome(
    storage: Storage,
    private: Seq<LooseNode>,
    items: Seq<Prepared>,
    next: int,
) -> (Storage, Result<(), Error>)
    decreases private.len() - next,
{
    if next >= private.len() {
        (storage, Ok(()))
    } else if items[next - 1].bucket != items[next].bucket {
        link_outcome(storage, private, items, next + 1)
    } else {
        let (after, result) = pointed(
            storage,
            private[next].body.offset,
            private[next - 1].body.offset,
        );
        match result {
            Err(error) => (after, Err(error)),
            Ok(_) => link_outcome(after, private, items, next + 1),
        }
    }
}

/// End of the run of items, from `end` on, that have the bucket of the item at
/// `start`.
pub open spec fn run_end(items: Seq<Prepared>, start: int, end: int) -> int
    decreases items.len() - end,
{
    if end < items.len() && items[end].bucket == items[start].bucket {
        run_end(items, start, end + 1)
    } else {
        end
    }
}

/// Where a run ends.
pub proof fn lemma_run_end(items: Seq<Prepared>, start: int, from: int, end: int)
    requires
        0 <= start <= from <= end <= items.len(),
        forall|i: int| start <= i < end ==> (#[trigger] items[i]).bucket == items[start].bucket,
        end < items.len() ==> items[end].bucket != items[start].bucket,
    ensures
        run_end(items, start, from) == end,
    decreases end - from,
{
    if from < end {
        assert(items[from].bucket == items[start].bucket);
        lemma_run_end(items, start, from + 1, end);
    }
}

/// Putting the linked nodes of the groups from `start` on in front of their buckets.
#[verifier::opaque]
pub open spec fn commit_outcome(
    storage: Storage,
    private: Seq<LooseNode>,
    items: Seq<Prepared>,
    start: int,
) -> (Storage, Result<(), Error>)
    decreases items.len() - start,
{
    let end = run_end(items, start, start + 1);
    if !(0 <= start < end <= items.len()) {
        (storage, Ok(()))
    } else {
        let body = storage.body;
        let bucket = items[start].bucket as int;
        let tail = private[start].body.offset as int;
        let unread = read_defect(
            body.capacity(),
            body.data.len() as int,
            tail + NODE_POINTER_OFFSET,
            8,
        );
        let defect = set_next_defect(
            body.capacity(),
            body.data,
            tail,
            next_at(body.data, tail) as int,
            storage.heads[bucket] as int,
        );
        if unread is Some {
            (storage, Err(unread->0))
        } else if defect is Some {
            (storage, Err(defect->0))
        } else {
            commit_outcome(
                Storage {
                    heads: storage.heads.update(bucket, private[end - 1].body.offset),
                    body: Files {
                        data: with_next(body.data, tail, storage.heads[bucket]),
                        ..body
                    },
                    ..storage
                },
                private,
                items,
                end,
            )
        }
    }
}

/// Inserting `entries`, which are in the order of `items`: all nodes are written and
/// linked before the first one is published, and released where that fails.
pub open spec fn insert_outcome(storage: Storage, entries: Seq<Entry>, items: Seq<Prepared>) -> (
    Storage,
    Result<(), Error>,
) {
    let (filled, result) = reserve_outcome(
        Insertion { storage, private: Seq::empty() },
        entries,
    );
    match result {
        Err(error) => {
            let (rest, cleanup) = release_all(filled.storage, filled.private);
            (rest, Err(cleaned_up(error, cleanup)))
        },
        Ok(_) => {
            let (linked, result) = link_outcome(filled.storage, filled.private, items, 1);
            match result {
                Err(error) => {
                    let (rest, cleanup) = release_all(linked, filled.private);
                    (rest, Err(cleaned_up(error, cleanup)))
                },
                Ok(_) => commit_outcome(linked, filled.private, items, 0),
            }
        },
    }
}

} // verus!
