//! Applying the outputs and inputs of a block to the index.

use vstd::prelude::*;

use super::{block_inputs, index_key, IndexedOutput, LoadError, OutPoint, Transaction};
#[allow(unused_imports)]
use super::{index_bytes, inputs_of, output_models, IndexedOutputModel};
#[allow(unused_imports)]
use crate::config::{Config, Mode};
use crate::database::{Database, PutResult};
#[allow(unused_imports)]
use crate::database::{bucket_entries, put_report, value_for};
#[allow(unused_imports)]
use crate::database::laws::{all_deleted, law_put, lemma_bucket_in_range};
#[allow(unused_imports)]
use crate::error::Error;
#[allow(unused_imports)]
use crate::outcomes::{bucket_put, delete_outcome, entries_deleted, put_outcome};
#[allow(unused_imports)]
use crate::storage::{bucket_of, first_index, is_first, Entry, Storage};
#[allow(unused_imports)]
use crate::table::contains_outcome;

verus! {

/// How far the outputs of a block are in the index.
#[derive(Clone, Copy, Debug, PartialEq, Eq, Structural)]
pub struct Progress {
    /// The first output that is not.
    pub next: usize,
    /// How many outputs were new.
    pub added: u64,
}

/// What a put into a database does to its storage.
pub open spec fn put_into(storage: Storage, key: Seq<u8>, value: Seq<u8>) -> (
    Storage,
    Result<PutResult, Error>,
) {
    if storage.config.mode != Mode::KeyMap {
        (storage, Err(Error::Unsupported("put is available only for maps")))
    } else {
        let (after, outcome) = put_outcome(storage, key, value, true);
        (after, put_report(outcome))
    }
}

/// What comes of adding one output.
pub enum AddStep {
    /// An older output under the key has to be consumed first.
    Wait,
    /// The output is in the index; whether it is new.
    Added(Storage, u64, bool),
    /// The index refused the output.
    Failed(Storage, u64, LoadError),
}

/// What comes of adding one output while `live` outputs are counted.
#[verifier::opaque]
pub open spec fn add_step(
    storage: Storage,
    live: u64,
    output: IndexedOutputModel,
    height: u64,
    consumed: u64,
) -> AddStep {
    let present = contains_outcome(storage, output.key);
    let may_overwrite = output.coinbase && present == Ok::<bool, Error>(true);
    let (after, report) = put_into(storage, output.key, output.value);
    if output.coinbase && present is Err {
        AddStep::Failed(storage, live, LoadError::Database(present->Err_0))
    } else if may_overwrite && consumed < height {
        AddStep::Wait
    } else {
        match report {
            Err(error) => AddStep::Failed(after, live, LoadError::Database(error)),
            Ok(PutResult::Inserted) => if live == u64::MAX {
                AddStep::Failed(
                    after,
                    live,
                    LoadError::Inconsistent("live output counter overflow"),
                )
            } else {
                AddStep::Added(after, (live + 1) as u64, true)
            },
            Ok(PutResult::Replaced) => if may_overwrite {
                AddStep::Added(after, live, false)
            } else {
                AddStep::Failed(
                    after,
                    live,
                    LoadError::Inconsistent("duplicate live outpoint encountered"),
                )
            },
        }
    }
}

/// What comes of adding the outputs from `next` on, after `added` new ones.
pub open spec fn add_steps(
    storage: Storage,
    live: u64,
    outputs: Seq<IndexedOutputModel>,
    next: int,
    added: int,
    height: u64,
    consumed: u64,
) -> (Storage, u64, Result<(int, int), LoadError>)
    decreases outputs.len() - next,
{
    if next < 0 || next >= outputs.len() {
        (storage, live, Ok((next, added)))
    } else {
        match add_step(storage, live, outputs[next], height, consumed) {
            AddStep::Wait => (storage, live, Ok((next, added))),
            AddStep::Failed(after, count, error) => (after, count, Err(error)),
            AddStep::Added(after, count, new) => add_steps(
                after,
                count,
                outputs,
                next + 1,
                added + if new {
                    1int
                } else {
                    0int
                },
                height,
                consumed,
            ),
        }
    }
}

/// The entries of a database after an output was put.
pub open spec fn output_put(
    config: Config,
    entries: Seq<Seq<Entry>>,
    output: IndexedOutputModel,
) -> Seq<Seq<Entry>> {
    entries.update(
        bucket_of(config, output.key),
        bucket_put(
            bucket_entries(config, entries, output.key),
            Entry { key: output.key, value: output.value },
            true,
        ),
    )
}

/// The entries of a database after the outputs from `from` up to `to` were put.
pub open spec fn outputs_put(
    config: Config,
    entries: Seq<Seq<Entry>>,
    outputs: Seq<IndexedOutputModel>,
    from: int,
    to: int,
) -> Seq<Seq<Entry>>
    decreases to - from,
{
    if to <= from {
        entries
    } else {
        output_put(config, outputs_put(config, entries, outputs, from, to - 1), outputs[to - 1])
    }
}

/// Counts one more live output.
pub fn increment(counter: &mut u64) -> (result: Result<(), LoadError>)
    ensures
        if *old(counter) == u64::MAX {
            &&& result == Err::<(), LoadError>(
                LoadError::Inconsistent("live output counter overflow"),
            )
            &&& *final(counter) == *old(counter)
        } else {
            result == Ok::<(), LoadError>(()) && *final(counter) == *old(counter) + 1
        },
{
    match counter.checked_add(1) {
        Some(next) => {
            *counter = next;
            Ok(())
        },
        None => Err(LoadError::Inconsistent("live output counter overflow")),
    }
}

/// Counts one live output less.
pub fn decrement(counter: &mut u64) -> (result: Result<(), LoadError>)
    ensures
        if *old(counter) == 0 {
            &&& result == Err::<(), LoadError>(
                LoadError::Inconsistent("live output counter underflow"),
            )
            &&& *final(counter) == *old(counter)
        } else {
            result == Ok::<(), LoadError>(()) && *final(counter) == *old(counter) - 1
        },
{
    match counter.checked_sub(1) {
        Some(next) => {
            *counter = next;
            Ok(())
        },
        None => Err(LoadError::Inconsistent("live output counter underflow")),
    }
}

/// Puts one output into the index, and tells whether it is new; nothing where
/// an older output under its key has to be consumed first.
pub fn add_output(
    database: &mut Database,
    output: &IndexedOutput,
    height: u64,
    consumed: u64,
    live_outputs: &mut u64,
) -> (result: Result<Option<bool>, LoadError>)
    requires
        old(database).wf(),
    ensures
        final(database).wf(),
        final(database).config() == old(database).config(),
        final(database).durable() == old(database).durable(),
        old(database).sound() ==> final(database).sound(),
        match add_step(old(database).storage(), *old(live_outputs), output@, height, consumed) {
            AddStep::Wait => {
                &&& result == Ok::<Option<bool>, LoadError>(None)
                &&& *final(database) == *old(database)
                &&& *final(live_outputs) == *old(live_outputs)
            },
            AddStep::Added(storage, live, new) => {
                &&& result == Ok::<Option<bool>, LoadError>(Some(new))
                &&& final(database).storage() == storage
                &&& *final(live_outputs) == live
                &&& old(database).sound() ==> final(database)@ == output_put(
                    old(database).config(),
                    old(database)@,
                    output@,
                ) && live - entry_count(final(database)@, final(database)@.len()) == *old(
                    live_outputs,
                ) - entry_count(old(database)@, old(database)@.len())
            },
            AddStep::Failed(storage, live, error) => {
                &&& result == Err::<Option<bool>, LoadError>(error)
                &&& final(database).storage() == storage
                &&& *final(live_outputs) == live
            },
        },
{
    let ghost before = *database;
    proof {
        reveal(add_step);
    }
    let mut may_overwrite: bool = false;
    if output.coinbase {
        match database.contains(output.key.as_slice()) {
            Ok(present) => {
                may_overwrite = present;
            },
            Err(error) => {
                return Err(LoadError::Database(error));
            },
        }
    }
    if may_overwrite && consumed < height {
        return Ok(None);
    }
    proof {
        if before.sound() {
            law_put_counts(before.config(), before@, output.key@, output.value@);
        }
    }
    match database.put(output.key.as_slice(), output.value.as_slice()) {
        Err(error) => Err(LoadError::Database(error)),
        Ok(PutResult::Inserted) => match increment(live_outputs) {
            Ok(_) => Ok(Some(true)),
            Err(error) => Err(error),
        },
        Ok(PutResult::Replaced) => if may_overwrite {
            Ok(Some(false))
        } else {
            Err(LoadError::Inconsistent("duplicate live outpoint encountered"))
        },
    }
}

/// Puts the outputs of a block into the index, from `from` on.
///
/// A coinbase output may take the place of an older one under its key, but
/// only once every block below `height` is consumed: until then the work stops
/// in front of it, and can be taken up there.
pub fn add_block_outputs(
    database: &mut Database,
    outputs: &Vec<IndexedOutput>,
    from: usize,
    height: u64,
    consumed: u64,
    live_outputs: &mut u64,
) -> (result: Result<Progress, LoadError>)
    requires
        old(database).wf(),
        from <= outputs@.len(),
    ensures
        final(database).wf(),
        final(database).config() == old(database).config(),
        final(database).durable() == old(database).durable(),
        old(database).sound() ==> final(database).sound(),
        ({
            let (storage, live, outcome) = add_steps(
                old(database).storage(),
                *old(live_outputs),
                output_models(outputs@),
                from as int,
                0,
                height,
                consumed,
            );
            &&& final(database).storage() == storage
            &&& *final(live_outputs) == live
            &&& match outcome {
                Ok((next, added)) => result is Ok && result->Ok_0.next == next
                    && result->Ok_0.added == added,
                Err(error) => result == Err::<Progress, LoadError>(error),
            }
        }),
        old(database).sound() && result is Ok ==> final(database)@ == outputs_put(
            old(database).config(),
            old(database)@,
            output_models(outputs@),
            from as int,
            result->Ok_0.next as int,
        ),
        old(database).sound() && result is Ok ==> *final(live_outputs) - entry_count(
            final(database)@,
            final(database)@.len(),
        ) == *old(live_outputs) - entry_count(old(database)@, old(database)@.len()),
{
    let ghost models = output_models(outputs@);
    let ghost first = *database;
    let ghost counted = *live_outputs;
    let mut next: usize = from;
    let mut added: u64 = 0;
    while next < outputs.len()
        invariant
            first == *old(database),
            counted == *old(live_outputs),
            models == output_models(outputs@),
            database.wf(),
            database.config() == first.config(),
            database.durable() == first.durable(),
            first.sound() ==> database.sound(),
            from <= next <= outputs@.len(),
            added <= next - from,
            add_steps(first.storage(), counted, models, from as int, 0, height, consumed)
                == add_steps(
                database.storage(),
                *live_outputs,
                models,
                next as int,
                added as int,
                height,
                consumed,
            ),
            first.sound() ==> database@ == outputs_put(
                first.config(),
                first@,
                models,
                from as int,
                next as int,
            ),
            first.sound() ==> *live_outputs - entry_count(database@, database@.len()) == counted
                - entry_count(first@, first@.len()),
        decreases outputs@.len() - next,
    {
        let output = &outputs[next];
        assert(models[next as int] == output@);
        match add_output(database, output, height, consumed, live_outputs) {
            Err(error) => {
                return Err(error);
            },
            Ok(None) => {
                return Ok(Progress { next, added });
            },
            Ok(Some(new)) => {
                if new {
                    added = added + 1;
                }
            },
        }
        next = next + 1;
    }
    Ok(Progress { next, added })
}

/// What comes of removing spent outputs from `next` on, after `removed` ones.
pub open spec fn remove_steps(
    storage: Storage,
    live: u64,
    spent: Seq<OutPoint>,
    next: int,
    removed: int,
) -> (Storage, u64, Result<int, LoadError>)
    decreases spent.len() - next,
{
    if next < 0 || next >= spent.len() {
        (storage, live, Ok(removed))
    } else {
        let (after, outcome) = delete_outcome(storage, index_bytes(spent[next]@));
        match outcome {
            Err(error) => (after, live, Err(LoadError::Database(error))),
            Ok(found) => if !found {
                (after, live, Err(LoadError::MissingOutpoint(spent[next])))
            } else if live == 0 {
                (
                    after,
                    live,
                    Err(LoadError::Inconsistent("live output counter underflow")),
                )
            } else {
                remove_steps(after, (live - 1) as u64, spent, next + 1, removed + 1)
            },
        }
    }
}

/// The keys of the first `n` outpoints of a list.
pub open spec fn index_keys(spent: Seq<OutPoint>, n: nat) -> Seq<Seq<u8>> {
    Seq::new(n, |i: int| index_bytes(spent[i]@))
}

/// Takes the outputs that a block spends out of the index, and returns their
/// number.
pub fn remove_block_inputs(
    database: &mut Database,
    transactions: &Vec<Transaction>,
    live_outputs: &mut u64,
) -> (result: Result<u64, LoadError>)
    requires
        old(database).wf(),
    ensures
        final(database).wf(),
        final(database).config() == old(database).config(),
        final(database).durable() == old(database).durable(),
        old(database).sound() ==> final(database).sound(),
        ({
            let (storage, live, outcome) = remove_steps(
                old(database).storage(),
                *old(live_outputs),
                inputs_of(transactions@, transactions@.len()),
                0,
                0,
            );
            &&& final(database).storage() == storage
            &&& *final(live_outputs) == live
            &&& match outcome {
                Ok(removed) => result is Ok && result->Ok_0 == removed,
                Err(error) => result == Err::<u64, LoadError>(error),
            }
        }),
        old(database).sound() && result is Ok ==> final(database)@ == all_deleted(
            old(database).config(),
            old(database)@,
            index_keys(
                inputs_of(transactions@, transactions@.len()),
                inputs_of(transactions@, transactions@.len()).len(),
            ),
        ),
        old(database).sound() && result is Ok ==> *final(live_outputs) - entry_count(
            final(database)@,
            final(database)@.len(),
        ) == *old(live_outputs) - entry_count(old(database)@, old(database)@.len()),
{
    let spent = block_inputs(transactions);
    let ghost first = *database;
    let ghost counted = *live_outputs;
    let mut next: usize = 0;
    let mut removed: u64 = 0;
    proof {
        assert(index_keys(spent@, 0) =~= Seq::<Seq<u8>>::empty());
    }
    while next < spent.len()
        invariant
            first == *old(database),
            counted == *old(live_outputs),
            database.wf(),
            database.config() == first.config(),
            database.durable() == first.durable(),
            first.sound() ==> database.sound(),
            spent@ == inputs_of(transactions@, transactions@.len()),
            next <= spent@.len(),
            removed == next,
            remove_steps(first.storage(), counted, spent@, 0, 0) == remove_steps(
                database.storage(),
                *live_outputs,
                spent@,
                next as int,
                removed as int,
            ),
            first.sound() ==> database@ == all_deleted(
                first.config(),
                first@,
                index_keys(spent@, next as nat),
            ),
            first.sound() ==> *live_outputs - entry_count(database@, database@.len()) == counted
                - entry_count(first@, first@.len()),
        decreases spent@.len() - next,
    {
        let outpoint = spent[next];
        let key = index_key(outpoint);
        proof {
            if database.sound() {
                law_delete_counts(database.config(), database@, key@);
            }
        }
        match database.delete(key.as_slice()) {
            Err(error) => {
                return Err(LoadError::Database(error));
            },
            Ok(found) => {
                if !found {
                    return Err(LoadError::MissingOutpoint(outpoint));
                }
            },
        }
        match decrement(live_outputs) {
            Ok(_) => {},
            Err(error) => {
                return Err(error);
            },
        }
        next = next + 1;
        removed = removed + 1;
        proof {
            let keys = index_keys(spent@, next as nat);
            assert(keys.drop_last() =~= index_keys(spent@, (next - 1) as nat));
            assert(keys.last() == index_bytes(outpoint@));
        }
    }
    Ok(removed)
}

/// After outputs were put, each is found under its key unless a later one has
/// the same key.
pub proof fn law_outputs_found(
    config: Config,
    entries: Seq<Seq<Entry>>,
    outputs: Seq<IndexedOutputModel>,
    from: int,
    to: int,
    index: int,
)
    requires
        config.bucket_count > 0,
        entries.len() == config.bucket_count,
        0 <= from <= index < to <= outputs.len(),
        forall|i: int| index < i < to ==> (#[trigger] outputs[i]).key != outputs[index].key,
    ensures
        value_for(
            config,
            outputs_put(config, entries, outputs, from, to),
            outputs[index].key,
        ) == Some(outputs[index].value),
    decreases to - from,
{
    let before = outputs_put(config, entries, outputs, from, to - 1);
    let output = outputs[to - 1];
    lemma_outputs_length(config, entries, outputs, from, to - 1);
    law_put(config, before, output.key, output.value, outputs[index].key);
    if index < to - 1 {
        assert(outputs[to - 1].key != outputs[index].key);
        law_outputs_found(config, entries, outputs, from, to - 1, index);
    }
}

/// Putting outputs leaves every other key as it was.
pub proof fn law_outputs_leave_others(
    config: Config,
    entries: Seq<Seq<Entry>>,
    outputs: Seq<IndexedOutputModel>,
    from: int,
    to: int,
    key: Seq<u8>,
)
    requires
        config.bucket_count > 0,
        entries.len() == config.bucket_count,
        0 <= from <= to <= outputs.len(),
        forall|i: int| from <= i < to ==> (#[trigger] outputs[i]).key != key,
    ensures
        value_for(config, outputs_put(config, entries, outputs, from, to), key) == value_for(
            config,
            entries,
            key,
        ),
    decreases to - from,
{
    if from < to {
        let before = outputs_put(config, entries, outputs, from, to - 1);
        let output = outputs[to - 1];
        lemma_outputs_length(config, entries, outputs, from, to - 1);
        law_outputs_leave_others(config, entries, outputs, from, to - 1, key);
        law_put(config, before, output.key, output.value, key);
    }
}

proof fn lemma_outputs_length(
    config: Config,
    entries: Seq<Seq<Entry>>,
    outputs: Seq<IndexedOutputModel>,
    from: int,
    to: int,
)
    requires
        config.bucket_count > 0,
        entries.len() == config.bucket_count,
    ensures
        outputs_put(config, entries, outputs, from, to).len() == entries.len(),
    decreases to - from,
{
    if from < to {
        lemma_outputs_length(config, entries, outputs, from, to - 1);
        lemma_bucket_in_range(config, outputs[to - 1].key);
    }
}

/// Every new output is counted once, and an output that takes the place of an
/// older one is not.
pub proof fn law_live_outputs_counted(
    storage: Storage,
    live: u64,
    outputs: Seq<IndexedOutputModel>,
    next: int,
    added: int,
    height: u64,
    consumed: u64,
)
    requires
        0 <= next <= outputs.len(),
        add_steps(storage, live, outputs, next, added, height, consumed).2 is Ok,
    ensures
        ({
            let (after, count, outcome) = add_steps(
                storage,
                live,
                outputs,
                next,
                added,
                height,
                consumed,
            );
            count - live == outcome->Ok_0.1 - added
        }),
    decreases outputs.len() - next,
{
    reveal(add_step);
    if next < outputs.len() {
        match add_step(storage, live, outputs[next], height, consumed) {
            AddStep::Added(after, count, new) => {
                law_live_outputs_counted(
                    after,
                    count,
                    outputs,
                    next + 1,
                    added + if new {
                        1int
                    } else {
                        0int
                    },
                    height,
                    consumed,
                );
            },
            _ => {},
        }
    }
}

/// Every spent output is counted once.
pub proof fn law_spent_outputs_counted(
    storage: Storage,
    live: u64,
    spent: Seq<OutPoint>,
    next: int,
    removed: int,
)
    requires
        0 <= next <= spent.len(),
        remove_steps(storage, live, spent, next, removed).2 is Ok,
    ensures
        remove_steps(storage, live, spent, next, removed).2 == Ok::<int, LoadError>(
            removed + spent.len() - next,
        ),
        remove_steps(storage, live, spent, next, removed).1 == live - (spent.len() - next),
    decreases spent.len() - next,
{
    if next < spent.len() {
        let (after, outcome) = delete_outcome(storage, index_bytes(spent[next]@));
        law_spent_outputs_counted(after, (live - 1) as u64, spent, next + 1, removed + 1);
    }
}

/// How many entries the first `n` buckets hold.
pub open spec fn entry_count(entries: Seq<Seq<Entry>>, n: nat) -> nat
    decreases n,
{
    if n == 0 {
        0
    } else {
        entry_count(entries, (n - 1) as nat) + entries[n - 1].len()
    }
}

pub proof fn lemma_entry_count(entries: Seq<Seq<Entry>>, bucket: int, now: Seq<Entry>, n: nat)
    requires
        0 <= bucket < entries.len(),
        n <= entries.len(),
    ensures
        entry_count(entries.update(bucket, now), n) == entry_count(entries, n) + (if bucket < n {
            now.len() - entries[bucket].len()
        } else {
            0
        }),
    decreases n,
{
    if n > 0 {
        lemma_entry_count(entries, bucket, now, (n - 1) as nat);
    }
}

/// A put adds an entry exactly where the key had no value.
pub proof fn law_put_counts(
    config: Config,
    entries: Seq<Seq<Entry>>,
    key: Seq<u8>,
    value: Seq<u8>,
)
    requires
        config.bucket_count > 0,
        entries.len() == config.bucket_count,
    ensures
        entry_count(
            entries.update(
                bucket_of(config, key),
                bucket_put(bucket_entries(config, entries, key), Entry { key, value }, true),
            ),
            entries.len(),
        ) == entry_count(entries, entries.len()) + (if value_for(config, entries, key) is None {
            1int
        } else {
            0
        }),
{
    let bucket = bucket_entries(config, entries, key);
    lemma_bucket_in_range(config, key);
    lemma_entry_count(
        entries,
        bucket_of(config, key),
        bucket_put(bucket, Entry { key, value }, true),
        entries.len(),
    );
    lemma_first_in_range(bucket, key);
}

/// A delete takes an entry away exactly where the key had a value.
pub proof fn law_delete_counts(config: Config, entries: Seq<Seq<Entry>>, key: Seq<u8>)
    requires
        config.bucket_count > 0,
        entries.len() == config.bucket_count,
    ensures
        entry_count(entries_deleted(config, entries, key), entries.len()) == entry_count(
            entries,
            entries.len(),
        ) - (if value_for(config, entries, key) is None {
            0int
        } else {
            1
        }),
{
    let bucket = bucket_entries(config, entries, key);
    lemma_bucket_in_range(config, key);
    lemma_first_in_range(bucket, key);
    if let Some(index) = first_index(bucket, key) {
        lemma_entry_count(entries, bucket_of(config, key), bucket.remove(index), entries.len());
    }
}

pub proof fn lemma_first_in_range(bucket: Seq<Entry>, key: Seq<u8>)
    ensures
        first_index(bucket, key) matches Some(index) ==> 0 <= index < bucket.len(),
{
    if exists|index: int| is_first(bucket, key, index) {
        let index = choose|index: int| is_first(bucket, key, index);
        assert(is_first(bucket, key, index));
    }
}

} // verus!
