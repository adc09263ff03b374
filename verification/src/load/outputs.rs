//! What adding and spending outputs does to a sound index.

use vstd::prelude::*;

#[allow(unused_imports)]
use super::utxo::{add_step, add_steps, remove_steps, AddStep};
#[allow(unused_imports)]
use super::{index_bytes, IndexedOutputModel, LoadError, OutPoint};
#[allow(unused_imports)]
use crate::allocator::has_room;
#[allow(unused_imports)]
use crate::config::Mode;
#[allow(unused_imports)]
use crate::database::laws::{law_delete, law_read_sees_first, values_of};
#[allow(unused_imports)]
use crate::database::room::{law_put_finds_room, stands_inline};
#[allow(unused_imports)]
use crate::outcomes::{chains_deleted, delete_outcome, lemma_deleted, lemma_lookup, lemma_put};
#[allow(unused_imports)]
use crate::storage::Storage;

verus! {

/// Whether a map has room for one more node and for a value.
pub open spec fn takes(storage: Storage, value: Seq<u8>) -> bool {
    &&& has_room(storage.body.pages, 32, 32)
    &&& stands_inline(value) || (value.len() + 8 <= storage.config.block_size && has_room(
        storage.blobs->0.pages,
        8 + value.len() as int,
        8,
    ))
}

/// A new output is added and counted. A coinbase output whose key is in the index waits
/// until every block below its own is consumed, and takes the place of the older output
/// then; any other output whose key is in the index is an error.
pub proof fn law_output_is_added(
    storage: Storage,
    chains: Seq<Seq<u64>>,
    live: u64,
    output: IndexedOutputModel,
    height: u64,
    consumed: u64,
)
    requires
        storage.holds(chains, Set::empty(), Map::empty()),
        storage.config.mode == Mode::KeyMap,
        output.key.len() == 16,
    ensures
        ({
            let step = add_step(storage, live, output, height, consumed);
            let known = values_of(storage.config, storage.entries(chains), output.key).len() > 0;
            if known && output.coinbase && consumed < height {
                step is Wait
            } else if !takes(storage, output.value) {
                step matches AddStep::Failed(_, count, error) && count == live && error is Database
            } else if known && !output.coinbase {
                step matches AddStep::Failed(_, count, error) && count == live && error
                    == LoadError::Inconsistent("duplicate live outpoint encountered")
            } else if known {
                step matches AddStep::Added(_, count, new) && count == live && !new
            } else if live == u64::MAX {
                step matches AddStep::Failed(_, count, error) && count == live && error
                    == LoadError::Inconsistent("live output counter overflow")
            } else {
                step matches AddStep::Added(_, count, new) && count == live + 1 && new
            }
        }),
{
    reveal(add_step);
    lemma_lookup(storage, chains, Set::empty(), Map::empty(), output.key);
    law_read_sees_first(storage.config, storage.entries(chains), output.key);
    law_put_finds_room(storage, chains, output.key, output.value, true);
    lemma_put(storage, chains, output.key, output.value, true);
}

/// What one step does to the count, and where it waits.
proof fn lemma_step(
    storage: Storage,
    live: u64,
    output: IndexedOutputModel,
    height: u64,
    consumed: u64,
)
    ensures
        match add_step(storage, live, output, height, consumed) {
            AddStep::Wait => output.coinbase && consumed < height,
            AddStep::Added(_, count, new) => {
                &&& count == live + (if new {
                    1int
                } else {
                    0
                })
                &&& !output.coinbase ==> new
            },
            AddStep::Failed(_, count, _) => count == live,
        },
{
    reveal(add_step);
}

/// The outputs of a block are added one after the other to the last: the work stops in
/// front of one only where that is a coinbase output, and older blocks are not consumed.
pub proof fn law_outputs_stop_to_wait(
    storage: Storage,
    live: u64,
    outputs: Seq<IndexedOutputModel>,
    next: int,
    added: int,
    height: u64,
    consumed: u64,
)
    requires
        0 <= next <= outputs.len(),
        add_steps(storage, live, outputs, next, added, height, consumed).2 is Ok,
    ensures
        ({
            let (after, count, outcome) = add_steps(
                storage,
                live,
                outputs,
                next,
                added,
                height,
                consumed,
            );
            let (stopped, new) = outcome->Ok_0;
            &&& next <= stopped <= outputs.len()
            &&& added <= new <= added + (stopped - next)
            &&& count == live + (new - added)
            &&& stopped < outputs.len() ==> outputs[stopped].coinbase && consumed < height
            &&& forall|i: int|
                next <= i < stopped && !(#[trigger] outputs[i]).coinbase ==> new > added
        }),
    decreases outputs.len() - next,
{
    if next < outputs.len() {
        lemma_step(storage, live, outputs[next], height, consumed);
        match add_step(storage, live, outputs[next], height, consumed) {
            AddStep::Added(after, count, new) => {
                law_outputs_stop_to_wait(
                    after,
                    count,
                    outputs,
                    next + 1,
                    added + if new {
                        1int
                    } else {
                        0int
                    },
                    height,
                    consumed,
                );
            },
            _ => {},
        }
    }
}

/// Outputs that are all in the index are all spent and counted. The first one that is not
/// in it ends the work.
pub proof fn law_spent_outputs_leave(
    storage: Storage,
    chains: Seq<Seq<u64>>,
    live: u64,
    spent: Seq<OutPoint>,
    next: int,
    removed: int,
    missing: int,
)
    requires
        storage.holds(chains, Set::empty(), Map::empty()),
        0 <= next <= missing <= spent.len(),
        missing - next <= live,
        forall|i: int|
            next <= i < missing ==> values_of(
                storage.config,
                storage.entries(chains),
                index_bytes((#[trigger] spent[i])@),
            ).len() > 0,
        forall|i: int, j: int|
            next <= i < j < spent.len() ==> index_bytes((#[trigger] spent[i])@) != index_bytes(
                (#[trigger] spent[j])@,
            ),
        missing < spent.len() ==> values_of(
            storage.config,
            storage.entries(chains),
            index_bytes(spent[missing]@),
        ).len() == 0,
    ensures
        ({
            let (_, count, outcome) = remove_steps(storage, live, spent, next, removed);
            &&& count == live - (missing - next)
            &&& outcome == (if missing == spent.len() {
                Ok::<int, LoadError>(removed + spent.len() - next)
            } else {
                Err(LoadError::MissingOutpoint(spent[missing]))
            })
        }),
    decreases spent.len() - next,
{
    if next < spent.len() {
        let key = index_bytes(spent[next]@);
        let entries = storage.entries(chains);
        super::law_index_key_fits(spent[next]@);
        lemma_deleted(storage, chains, key);
        law_read_sees_first(storage.config, entries, key);
        let after = delete_outcome(storage, key).0;
        let shorter = chains_deleted(storage, chains, key);
        if next < missing {
            assert forall|i: int| next < i < spent.len() implies values_of(
                after.config,
                after.entries(shorter),
                index_bytes((#[trigger] spent[i])@),
            ) == values_of(storage.config, entries, index_bytes(spent[i]@)) by {
                assert(index_bytes(spent[next]@) != index_bytes(spent[i]@));
                law_delete(storage.config, entries, key, index_bytes(spent[i]@));
            }
            law_spent_outputs_leave(
                after,
                shorter,
                (live - 1) as u64,
                spent,
                next + 1,
                removed + 1,
                missing,
            );
        }
    }
}

} // verus!
