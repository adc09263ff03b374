//! Exercising a database against a model of it.
//!
//! A run applies operations to a database and to a map of plain numbers, and
//! compares what both say. The operations come from the bytes of an input, or
//! from a generator of pseudo-random numbers.

pub mod room;

use std::collections::BTreeMap;

use vstd::prelude::*;
#[allow(unused_imports)]
use vstd::std_specs::iter::IteratorSpec;
use vstd::string::StringExecFns;

#[allow(unused_imports)]
use crate::allocator::allocator_create_defect;
use crate::bytes::{encode_le64, push_le64, read_le64, same_bytes};
#[allow(unused_imports)]
use crate::bytes::{le64, le64_bytes, lemma_le_fields, lemma_same_fields};
use crate::config::{Config, Mode};
#[allow(unused_imports)]
use crate::config::KEY_SIZE;
#[allow(unused_imports)]
use crate::copying::{lists_of, Record};
#[allow(unused_imports)]
use crate::database::checkpoint::{
    checkpoint_outcome, entries_of_lists, kept_entries, law_checkpoint_drops_duplicates,
    law_checkpoint_keeps_values, law_recovers_checkpoint,
};
#[allow(unused_imports)]
use crate::database::laws::{law_delete, law_put, law_put_new, law_read_sees_first, values_of};
use crate::database::Database;
#[allow(unused_imports)]
use crate::database::{
    bucket_entries, database_create_defect, empty_storage, sealed, value_for, Stage,
};
#[allow(unused_imports)]
use crate::error::describes;
use crate::error::Error;
#[allow(unused_imports)]
use crate::exercise::room::{
    lemma_checkpoint_roomy, lemma_delete_roomy, lemma_delete_small, lemma_none_small,
    lemma_packed_roomy, lemma_put_roomy, lemma_put_small, roomy, small,
};
#[allow(unused_imports)]
use crate::header::heads_bytes;
#[allow(unused_imports)]
use crate::inspection::paths;
#[allow(unused_imports)]
use crate::layout::{power_of_two, FORMAT_PAGE_SIZE, HEADS_START};
#[allow(unused_imports)]
use crate::outcomes::{bucket_put, delete_outcome, entries_deleted, put_defect, put_outcome};
#[allow(unused_imports)]
use crate::snapshot::steps::{capture_outcome, rebuild_outcome};
#[allow(unused_imports)]
use crate::snapshot::{all_turned, capture_defect, packed};
#[allow(unused_imports)]
use crate::storage::{bucket_of, Entry, Storage};
use crate::text::append_decimal;
#[allow(unused_imports)]
use crate::text::decimal;

verus! {

/// Bytes of one operation of an input.
pub const RECORD_BYTES: usize = 17;

/// Most operations that are taken from an input.
pub const MAX_OPERATIONS: usize = 1_024;

/// What ends a run early.
#[derive(Debug)]
pub enum ExerciseError {
    /// The database refused an operation.
    Database(Error),
    /// The database and the model say different things.
    Mismatch { step: u64, operation: &'static str },
}

impl ExerciseError {
    /// Describes what ended the run.
    pub fn message(&self) -> (text: String)
        ensures
            *self matches ExerciseError::Mismatch { step, operation } ==> text@ == "operation "@
                + decimal(step as nat) + ": "@ + operation@
                + " differs from the reference model"@,
            *self matches ExerciseError::Database(error) ==> describes(text@, error),
    {
        match self {
            ExerciseError::Database(error) => error.message(),
            ExerciseError::Mismatch { step, operation } => {
                let mut text = "operation ".to_owned();
                append_decimal(&mut text, *step);
                text.append(": ");
                text.append(operation);
                text.append(" differs from the reference model");
                text
            },
        }
    }
}

/// A generator of pseudo-random numbers.
pub struct XorShift64 {
    pub state: u64,
}

/// The state of a generator after `state`.
pub open spec fn shifted(state: u64) -> u64 {
    let one = state ^ (state << 13);
    let two = one ^ (one >> 7);
    two ^ (two << 17)
}

impl XorShift64 {
    /// Starts a generator. Zero, which it would never leave, stands for
    /// another seed.
    pub fn new(seed: u64) -> (random: XorShift64)
        ensures
            random.state == (if seed == 0 {
                0x9e37_79b9_7f4a_7c15
            } else {
                seed
            }),
    {
        XorShift64 {
            state: if seed == 0 {
                0x9e37_79b9_7f4a_7c15
            } else {
                seed
            },
        }
    }

    /// Returns the next number.
    pub fn next(&mut self) -> (value: u64)
        ensures
            value == shifted(old(self).state),
            final(self).state == value,
    {
        let mut value: u64 = self.state;
        value = value ^ (value << 13);
        value = value ^ (value >> 7);
        value = value ^ (value << 17);
        self.state = value;
        value
    }
}

/// A generator that is not at zero never comes there.
pub proof fn law_generator_stays_alive(state: u64)
    requires
        state != 0,
    ensures
        shifted(state) != 0,
{
    assert(state ^ (state << 13) != 0) by (bit_vector)
        requires
            state != 0,
    ;
    let one = state ^ (state << 13);
    assert(one ^ (one >> 7) != 0) by (bit_vector)
        requires
            one != 0,
    ;
    let two = one ^ (one >> 7);
    assert(two ^ (two << 17) != 0) by (bit_vector)
        requires
            two != 0,
    ;
}

/// A map of numbers that a database is compared with.
pub struct Model {
    pub entries: BTreeMap<u64, u64>,
}

impl Model {
    /// Whether the model has this value for a key.
    pub open spec fn maps(&self, key: u64, value: u64) -> bool {
        self.entries@.contains_key(key) && self.entries@[key] == value
    }

    /// Whether the model has a value for a key.
    pub open spec fn has(&self, key: u64) -> bool {
        self.entries@.contains_key(key)
    }

    /// An empty model.
    pub fn new() -> (model: Model)
        ensures
            model.entries@ == Map::<u64, u64>::empty(),
    {
        Model { entries: BTreeMap::new() }
    }

    /// Returns the value of a key.
    pub fn get(&self, key: u64) -> (value: Option<u64>)
        ensures
            value == (if self.has(key) {
                Some(self.entries@[key])
            } else {
                None
            }),
    {
        match self.entries.get(&key) {
            Some(value) => Some(*value),
            None => None,
        }
    }

    /// Gives a key a value.
    pub fn insert(&mut self, key: u64, value: u64)
        ensures
            final(self).entries@ == old(self).entries@.insert(key, value),
    {
        let _replaced = self.entries.insert(key, value);
    }

    /// Takes a key away, and tells whether it had a value.
    pub fn remove(&mut self, key: u64) -> (removed: bool)
        ensures
            final(self).entries@ == old(self).entries@.remove(key),
            removed == old(self).has(key),
    {
        self.entries.remove(&key).is_some()
    }
}

/// The database key of a number.
pub open spec fn key_bytes(key: u64) -> Seq<u8> {
    le64_bytes(key) + Seq::new(8, |i: int| 0u8)
}

/// The key of a number: the number, and eight bytes of zero.
pub proof fn law_key_of_number(key: u64)
    ensures
        key_bytes(key).len() == 16,
        le64(key_bytes(key), 0) == key,
        le64(key_bytes(key), 8) == 0,
{
    crate::bytes::lemma_le_fields();
    crate::bytes::lemma_same_fields(key_bytes(key), 0, le64_bytes(key), 0, 8);
    crate::bytes::lemma_zero_fields(key_bytes(key), 8, 8);
}

/// The database key of a number.
pub fn fixed_key(key: u64) -> (bytes: Vec<u8>)
    ensures
        bytes@ == key_bytes(key),
        bytes@.len() == KEY_SIZE,
{
    let mut bytes: Vec<u8> = Vec::new();
    push_le64(&mut bytes, key);
    push_le64(&mut bytes, 0);
    proof {
        lemma_le_fields();
        lemma_zero_bytes();
        assert(bytes@ =~= key_bytes(key));
    }
    bytes
}

proof fn lemma_zero_bytes()
    ensures
        le64_bytes(0) == Seq::new(8, |i: int| 0u8),
{
    reveal(le64_bytes);
    reveal(crate::bytes::le32_bytes);
    reveal(crate::bytes::le16_bytes);
    assert(le64_bytes(0) =~= Seq::new(8, |i: int| 0u8));
}

/// Different numbers have different keys.
proof fn lemma_keys_differ(one: u64, two: u64)
    ensures
        one != two ==> key_bytes(one) != key_bytes(two),
{
    lemma_le_fields();
    lemma_same_fields(key_bytes(one), 0, le64_bytes(one), 0, 8);
    lemma_same_fields(key_bytes(two), 0, le64_bytes(two), 0, 8);
}

/// Whether a database and a model have the same values, and the database one
/// for each key at most.
pub open spec fn agree(database: Database, model: Model) -> bool {
    forall|k: u64|
        #![trigger key_bytes(k)]
        {
            &&& value_for(database.config(), database@, key_bytes(k)) == (if model.has(k) {
                Some(le64_bytes(model.entries@[k]))
            } else {
                None
            })
            &&& values_of(database.config(), database@, key_bytes(k)).len() <= 1
        }
}

/// What a run starts from and keeps.
pub open spec fn fit(database: Database, model: Model) -> bool {
    &&& database.wf()
    &&& database.sound()
    &&& database.config().mode == Mode::KeyMap
    &&& database.durable().stage == Stage::Idle
    &&& agree(database, model)
}

/// One operation of a run.
pub enum Operation {
    Put(u64, u64),
    PutNew(u64, u64),
    Delete(u64),
    Get(u64),
    Contains(u64),
    /// A checkpoint, and opening it.
    Reopen,
    /// Nothing: a database gives back its storage at once.
    Reclaim,
}

/// What a run has come to: the table of its database, and the generation of its
/// last checkpoint.
pub struct Reached {
    pub storage: Storage,
    pub generation: u64,
}

/// What an operation makes of what a run has come to, or why the database refuses it.
#[verifier::opaque]
pub open spec fn advanced(reached: Reached, operation: Operation) -> Result<Reached, Error> {
    let storage = reached.storage;
    match operation {
        Operation::Put(key, value) => {
            let (after, result) = put_outcome(storage, key_bytes(key), le64_bytes(value), true);
            match result {
                Ok(_) => Ok(Reached { storage: after, ..reached }),
                Err(error) => Err(error),
            }
        },
        Operation::PutNew(key, value) => {
            let (after, result) = put_outcome(storage, key_bytes(key), le64_bytes(value), false);
            match result {
                Ok(_) => Ok(Reached { storage: after, ..reached }),
                Err(error) => Err(error),
            }
        },
        Operation::Delete(key) => {
            let (after, result) = delete_outcome(storage, key_bytes(key));
            match result {
                Ok(_) => Ok(Reached { storage: after, ..reached }),
                Err(error) => Err(error),
            }
        },
        Operation::Reopen => if reached.generation == u64::MAX {
            Err(Error::CapacityExhausted("checkpoint generation"))
        } else {
            match checkpoint_outcome(storage) {
                Err(error) => Err(error),
                Ok(_) => match rebuild_outcome(sealed(capture_outcome(storage)->Ok_0)) {
                    Err(error) => Err(error),
                    Ok(rebuilt) => Ok(
                        Reached { storage: rebuilt, generation: (reached.generation + 1) as u64 },
                    ),
                },
            }
        },
        _ => Ok(reached),
    }
}

/// What a run of operations on a new database comes to, or the error of the first
/// one that the database refuses.
pub open spec fn reached(config: Config, operations: Seq<Operation>) -> Result<Reached, Error>
    decreases operations.len(),
{
    if operations.len() == 0 {
        Ok(Reached { storage: empty_storage(config), generation: 0 })
    } else {
        match reached(config, operations.drop_last()) {
            Err(error) => Err(error),
            Ok(before) => advanced(before, operations.last()),
        }
    }
}

/// A run that fails goes no further.
pub proof fn lemma_run_ends(config: Config, operations: Seq<Operation>, count: int)
    requires
        0 <= count <= operations.len(),
        reached(config, operations.take(count)) is Err,
    ensures
        reached(config, operations) == reached(config, operations.take(count)),
    decreases operations.len(),
{
    if count == operations.len() {
        assert(operations.take(count) =~= operations);
    } else {
        let front = operations.drop_last();
        assert(front.take(count) =~= operations.take(count));
        lemma_run_ends(config, front, count);
    }
}

/// One more operation.
proof fn lemma_run_goes_on(config: Config, operations: Seq<Operation>, operation: Operation)
    ensures
        reached(config, operations.push(operation)) == (match reached(config, operations) {
            Err(error) => Err(error),
            Ok(before) => advanced(before, operation),
        }),
{
    assert(operations.push(operation).drop_last() =~= operations);
}

/// A run begins with an empty database, and goes on, operation by operation, until one is
/// refused.
pub proof fn law_run_goes_on(config: Config, operations: Seq<Operation>, operation: Operation)
    ensures
        reached(config, Seq::empty()) == Ok::<Reached, Error>(
            Reached { storage: empty_storage(config), generation: 0 },
        ),
        reached(config, operations.push(operation)) == (match reached(config, operations) {
            Err(error) => Err(error),
            Ok(before) => advanced(before, operation),
        }),
{
    lemma_run_goes_on(config, operations, operation);
}

/// Why a database refuses an operation, if it does.
pub open spec fn refusal(database: Database, operation: Operation) -> Option<Error> {
    match operation {
        Operation::Put(_, value) => put_defect(database.storage(), le64_bytes(value)),
        Operation::PutNew(_, value) => put_defect(database.storage(), le64_bytes(value)),
        Operation::Reopen => if database.durable().generation == u64::MAX {
            Some(Error::CapacityExhausted("checkpoint generation"))
        } else {
            capture_defect(
                database.config(),
                lists_of(database.storage(), database.chains()),
            )
        },
        _ => None,
    }
}

/// The entries of a database after a put.
pub open spec fn entries_put(
    database: Database,
    key: u64,
    value: u64,
    replace: bool,
) -> Seq<Seq<Entry>> {
    let config = database.config();
    database@.update(
        bucket_of(config, key_bytes(key)),
        bucket_put(
            bucket_entries(config, database@, key_bytes(key)),
            Entry { key: key_bytes(key), value: le64_bytes(value) },
            replace,
        ),
    )
}

/// The entries of a database after an operation that it does not refuse.
pub open spec fn entries_after(database: Database, operation: Operation) -> Seq<Seq<Entry>> {
    match operation {
        Operation::Put(key, value) => entries_put(database, key, value, true),
        Operation::PutNew(key, value) => entries_put(database, key, value, false),
        Operation::Delete(key) => entries_deleted(database.config(), database@, key_bytes(key)),
        Operation::Reopen => kept_entries(database.storage(), database.chains()),
        _ => database@,
    }
}

/// Whether the nodes and the values of a database stand one behind another.
pub open spec fn laid_out(database: Database) -> bool {
    exists|lists: Seq<Seq<Record>>| #[trigger]
        packed(database.storage(), lists) && database@ == entries_of_lists(
            database.config().mode,
            all_turned(lists),
        )
}

/// What the database of a run has come to.
pub open spec fn state_of(database: Database) -> Reached {
    Reached { storage: database.storage(), generation: database.durable().generation }
}

/// What an operation makes of the entries of a model.
pub open spec fn modelled(before: Map<u64, u64>, operation: Operation) -> Map<u64, u64> {
    match operation {
        Operation::Put(key, value) => before.insert(key, value),
        Operation::PutNew(key, value) => if before.contains_key(key) {
            before
        } else {
            before.insert(key, value)
        },
        Operation::Delete(key) => before.remove(key),
        _ => before,
    }
}

/// Compares a value that was read with the one that the model has.
pub fn compare_value(step: u64, actual: &Option<Vec<u8>>, expected: Option<u64>) -> (result: Result<
    (),
    ExerciseError,
>)
    ensures
        ({
            let same = match (*actual, expected) {
                (None, None) => true,
                (Some(bytes), Some(value)) => bytes@ == le64_bytes(value),
                _ => false,
            };
            result == (if same {
                Ok::<(), ExerciseError>(())
            } else {
                Err(ExerciseError::Mismatch { step, operation: "lookup result" })
            })
        }),
{
    let matches: bool = match (actual, expected) {
        (None, None) => true,
        (Some(bytes), Some(value)) => {
            let mut encoded: Vec<u8> = Vec::new();
            push_le64(&mut encoded, value);
            assert(encoded@ =~= le64_bytes(value));
            same_bytes(bytes.as_slice(), encoded.as_slice())
        },
        _ => false,
    };
    if matches {
        Ok(())
    } else {
        Err(ExerciseError::Mismatch { step, operation: "lookup result" })
    }
}

/// Compares what an operation reported with what the model expects.
pub fn ensure_equal(step: u64, operation: &'static str, actual: bool, expected: bool) -> (result:
    Result<(), ExerciseError>)
    ensures
        result == (if actual == expected {
            Ok::<(), ExerciseError>(())
        } else {
            Err(ExerciseError::Mismatch { step, operation })
        }),
{
    if actual == expected {
        Ok(())
    } else {
        Err(ExerciseError::Mismatch { step, operation })
    }
}

/// Whether a database has every value that a model has.
pub open spec fn found_in(database: Database, model: Model) -> bool {
    forall|k: u64|
        #[trigger] model.has(k) ==> value_for(database.config(), database@, key_bytes(k)) == Some(
            le64_bytes(model.entries@[k]),
        )
}

/// Reads every key of the model from the database.
pub fn verify_model(step: u64, database: &Database, model: &Model) -> (result: Result<
    (),
    ExerciseError,
>)
    requires
        database.wf(),
        database.sound(),
        database.config().mode == Mode::KeyMap,
    ensures
        result == (if found_in(*database, *model) {
            Ok::<(), ExerciseError>(())
        } else {
            Err(ExerciseError::Mismatch { step, operation: "lookup result" })
        }),
{
    for entry in entries: model.entries.iter()
        invariant
            database.wf(),
            database.sound(),
            database.config().mode == Mode::KeyMap,
            entries.seq() == model.entries.iter().remaining(),
            forall|i: int|
                0 <= i < entries.index() ==> value_for(
                    database.config(),
                    database@,
                    key_bytes(*(#[trigger] entries.seq()[i]).0),
                ) == Some(le64_bytes(*entries.seq()[i].1)),
    {
        let key = fixed_key(*entry.0);
        match database.get(key.as_slice()) {
            Ok(actual) => {
                match compare_value(step, &actual, Some(*entry.1)) {
                    Ok(_) => {},
                    Err(error) => {
                        assert(model.has(*entry.0));
                        return Err(error);
                    },
                }
            },
            Err(error) => {
                return Err(ExerciseError::Database(error));
            },
        }
    }
    assert forall|k: u64| #[trigger] model.has(k) implies value_for(
        database.config(),
        database@,
        key_bytes(k),
    ) == Some(le64_bytes(model.entries@[k])) by {
        let all = model.entries.iter().remaining();
        assert(all.contains((&k, &model.entries@[k])));
    }
    Ok(())
}

/// A put in both keeps them in agreement.
proof fn lemma_put_agrees(
    before: Database,
    after: Database,
    model: Model,
    next: Model,
    key: u64,
    value: u64,
)
    requires
        before.sound(),
        after.config() == before.config(),
        agree(before, model),
        after@ == before@.update(
            bucket_of(before.config(), key_bytes(key)),
            bucket_put(
                bucket_entries(before.config(), before@, key_bytes(key)),
                Entry { key: key_bytes(key), value: le64_bytes(value) },
                true,
            ),
        ),
        next.entries@ == model.entries@.insert(key, value),
    ensures
        agree(after, next),
{
    let config = before.config();
    assert forall|k: u64|
        #![trigger key_bytes(k)]
        {
            &&& value_for(config, after@, key_bytes(k)) == (if next.has(k) {
                Some(le64_bytes(next.entries@[k]))
            } else {
                None
            })
            &&& values_of(config, after@, key_bytes(k)).len() <= 1
        } by {
        law_put(config, before@, key_bytes(key), le64_bytes(value), key_bytes(k));
        lemma_keys_differ(k, key);
    }
}

/// A delete in both keeps them in agreement.
proof fn lemma_delete_agrees(
    before: Database,
    after: Database,
    model: Model,
    next: Model,
    key: u64,
)
    requires
        before.sound(),
        after.config() == before.config(),
        agree(before, model),
        after@ == entries_deleted(before.config(), before@, key_bytes(key)),
        next.entries@ == model.entries@.remove(key),
    ensures
        agree(after, next),
{
    let config = before.config();
    assert forall|k: u64|
        #![trigger key_bytes(k)]
        {
            &&& value_for(config, after@, key_bytes(k)) == (if next.has(k) {
                Some(le64_bytes(next.entries@[k]))
            } else {
                None
            })
            &&& values_of(config, after@, key_bytes(k)).len() <= 1
        } by {
        lemma_keys_differ(k, key);
        law_delete(config, before@, key_bytes(key), key_bytes(k));
        law_read_sees_first(config, before@, key_bytes(k));
        law_read_sees_first(config, after@, key_bytes(k));
    }
}

/// A database that holds what a checkpoint of another one keeps agrees with
/// the model of that one.
proof fn lemma_reopened_agrees(before: Database, after: Database, model: Model)
    requires
        before.sound(),
        after.config() == before.config(),
        agree(before, model),
        after@ == kept_entries(before.storage(), before.chains()),
    ensures
        agree(after, model),
{
    let config = before.config();
    assert forall|k: u64|
        #![trigger key_bytes(k)]
        value_for(config, after@, key_bytes(k)) == value_for(config, before@, key_bytes(k))
            && values_of(config, after@, key_bytes(k)).len() <= 1 by {
        law_checkpoint_keeps_values(before.storage(), before.chains(), key_bytes(k));
        law_checkpoint_drops_duplicates(before.storage(), before.chains(), key_bytes(k));
    }
}

/// Makes a checkpoint of a database and opens it.
#[verifier::spinoff_prover]
#[verifier::rlimit(60)]
fn reopen(database: Database, model: &Model) -> (result: Result<Database, ExerciseError>)
    requires
        fit(database, *model),
    ensures
        match advanced(state_of(database), Operation::Reopen) {
            Err(error) => result is Err && result->Err_0 == ExerciseError::Database(error),
            Ok(after) => {
                &&& result is Ok
                &&& fit(result->Ok_0, *model)
                &&& (result->Ok_0).config() == database.config()
                &&& state_of(result->Ok_0) == after
                &&& (result->Ok_0)@ == entries_after(database, Operation::Reopen)
                &&& laid_out(result->Ok_0)
            },
        },
        result is Err <==> refusal(database, Operation::Reopen) is Some,
{
    let mut database = database;
    let ghost before = database;
    proof {
        reveal(advanced);
    }
    match database.checkpoint() {
        Ok(_) => {},
        Err(error) => {
            return Err(ExerciseError::Database(error));
        },
    }
    let ghost durable = database.durable();
    let files = database.into_checkpoint_files();
    proof {
        law_recovers_checkpoint(
            before.storage(),
            before.chains(),
            durable,
            files,
            key_bytes(0),
        );
    }
    match Database::open(files) {
        Ok(reopened) => {
            proof {
                lemma_reopened_agrees(before, reopened, *model);
                let snapshot = files.snapshot(before.config());
                assert(packed(reopened.storage(), lists_of(snapshot, paths(snapshot))));
            }
            Ok(reopened)
        },
        Err(error) => Err(ExerciseError::Database(error)),
    }
}

/// Applies one operation to a database and to its model.
///
/// They never disagree: what ends a run is a database without room.
pub fn apply(
    database: Database,
    model: &mut Model,
    operation: Operation,
    step: u64,
) -> (result: Result<Database, ExerciseError>)
    requires
        fit(database, *old(model)),
    ensures
        match advanced(state_of(database), operation) {
            Err(error) => {
                &&& result is Err
                &&& result->Err_0 == ExerciseError::Database(error)
                &&& *final(model) == *old(model)
            },
            Ok(after) => {
                &&& result is Ok
                &&& fit(result->Ok_0, *final(model))
                &&& (result->Ok_0).config() == database.config()
                &&& state_of(result->Ok_0) == after
                &&& (result->Ok_0)@ == entries_after(database, operation)
                &&& operation is Reopen ==> laid_out(result->Ok_0)
                &&& final(model).entries@ == modelled(old(model).entries@, operation)
            },
        },
        result is Err <==> refusal(database, operation) is Some,
{
    let mut database = database;
    let ghost before = database;
    proof {
        reveal(advanced);
    }
    match operation {
        Operation::Put(key, value) => {
            let bytes = fixed_key(key);
            let stored = encode_le64(value);
            match database.put(bytes.as_slice(), stored.as_slice()) {
                Ok(_) => {},
                Err(error) => {
                    return Err(ExerciseError::Database(error));
                },
            }
            model.insert(key, value);
            proof {
                lemma_put_agrees(before, database, *old(model), *model, key, value);
            }
            Ok(database)
        },
        Operation::PutNew(key, value) => {
            let bytes = fixed_key(key);
            let stored = encode_le64(value);
            let expected: bool = model.get(key).is_none();
            proof {
                assert(bytes@ == key_bytes(key));
                law_put_new(before.config(), before@, bytes@, stored@);
            }
            let inserted: bool = match database.put_new(bytes.as_slice(), stored.as_slice()) {
                Ok(inserted) => inserted,
                Err(error) => {
                    return Err(ExerciseError::Database(error));
                },
            };
            match ensure_equal(step, "put_new result", inserted, expected) {
                Ok(_) => {},
                Err(error) => {
                    return Err(error);
                },
            }
            if inserted {
                model.insert(key, value);
                proof {
                    lemma_put_agrees(before, database, *old(model), *model, key, value);
                }
            }
            Ok(database)
        },
        Operation::Delete(key) => {
            let bytes = fixed_key(key);
            assert(bytes@ == key_bytes(key));
            let expected: bool = model.remove(key);
            let deleted: bool = match database.delete(bytes.as_slice()) {
                Ok(deleted) => deleted,
                Err(error) => {
                    return Err(ExerciseError::Database(error));
                },
            };
            match ensure_equal(step, "delete result", deleted, expected) {
                Ok(_) => {},
                Err(error) => {
                    return Err(error);
                },
            }
            proof {
                lemma_delete_agrees(before, database, *old(model), *model, key);
            }
            Ok(database)
        },
        Operation::Get(key) => {
            let bytes = fixed_key(key);
            let expected: Option<u64> = model.get(key);
            match database.get(bytes.as_slice()) {
                Ok(actual) => {
                    match compare_value(step, &actual, expected) {
                        Ok(_) => {},
                        Err(error) => {
                            return Err(error);
                        },
                    }
                },
                Err(error) => {
                    return Err(ExerciseError::Database(error));
                },
            }
            Ok(database)
        },
        Operation::Contains(key) => {
            let bytes = fixed_key(key);
            assert(bytes@ == key_bytes(key));
            let expected: bool = model.get(key).is_some();
            match database.contains(bytes.as_slice()) {
                Ok(present) => {
                    match ensure_equal(step, "contains result", present, expected) {
                        Ok(_) => {},
                        Err(error) => {
                            return Err(error);
                        },
                    }
                },
                Err(error) => {
                    return Err(ExerciseError::Database(error));
                },
            }
            Ok(database)
        },
        Operation::Reopen => reopen(database, model),
        Operation::Reclaim => Ok(database),
    }
}

/// The value that a key has after a list of operations.
pub open spec fn value_after(operations: Seq<Operation>, key: u64) -> Option<u64>
    decreases operations.len(),
{
    if operations.len() == 0 {
        None
    } else {
        let before = value_after(operations.drop_last(), key);
        match operations.last() {
            Operation::Put(k, value) => if k == key {
                Some(value)
            } else {
                before
            },
            Operation::PutNew(k, value) => if k == key && before is None {
                Some(value)
            } else {
                before
            },
            Operation::Delete(k) => if k == key {
                None
            } else {
                before
            },
            _ => before,
        }
    }
}

/// Whether a model is what a list of operations leaves.
pub open spec fn left_by(operations: Seq<Operation>, model: Model) -> bool {
    forall|k: u64|
        #![trigger model.entries@.contains_key(k)]
        #![trigger value_after(operations, k)]
        value_after(operations, k) == (if model.entries@.contains_key(k) {
            Some(model.entries@[k])
        } else {
            None
        })
}

proof fn lemma_left_by(
    operations: Seq<Operation>,
    before: Model,
    operation: Operation,
    after: Model,
)
    requires
        left_by(operations, before),
        after.entries@ == modelled(before.entries@, operation),
    ensures
        left_by(operations.push(operation), after),
{
    let all = operations.push(operation);
    assert(all.drop_last() =~= operations);
    assert(all.last() == operation);
    assert forall|k: u64|
        #![trigger after.entries@.contains_key(k)]
        #![trigger value_after(all, k)]
        value_after(all, k) == (if after.entries@.contains_key(k) {
            Some(after.entries@[k])
        } else {
            None
        }) by {
        assert(value_after(operations, k) == (if before.entries@.contains_key(k) {
            Some(before.entries@[k])
        } else {
            None
        }));
    }
}

/// The layout of the database that an input is run on.
pub open spec fn input_config() -> Config {
    Config {
        mode: Mode::KeyMap,
        bucket_count: 64,
        body_capacity: 0x10_0000,
        blob_capacity: 0x10_0000,
        block_size: 0x1_0000,
        hash_seed: 0,
    }
}

/// How many operations an input has.
pub open spec fn operation_count(input: Seq<u8>) -> int {
    if input.len() / RECORD_BYTES as nat > MAX_OPERATIONS {
        MAX_OPERATIONS as int
    } else {
        (input.len() / RECORD_BYTES as nat) as int
    }
}

/// The operation at a position of an input.
pub open spec fn operation_at(input: Seq<u8>, index: int) -> Operation {
    let at = index * RECORD_BYTES;
    let key = le64(input, at + 1);
    let value = le64(input, at + 9);
    let selector = input[at] % 7;
    if selector == 0 {
        Operation::Put(key, value)
    } else if selector == 1 {
        Operation::PutNew(key, value)
    } else if selector == 2 {
        Operation::Delete(key)
    } else if selector == 3 {
        Operation::Get(key)
    } else if selector == 4 {
        Operation::Contains(key)
    } else if selector == 5 {
        Operation::Reopen
    } else {
        Operation::Reclaim
    }
}

/// The operations of an input.
pub open spec fn operations_of(input: Seq<u8>, n: int) -> Seq<Operation> {
    Seq::new(n as nat, |i: int| operation_at(input, i))
}

/// Reads the operation at a position of an input.
fn read_operation(input: &[u8], index: usize) -> (operation: Operation)
    requires
        index < operation_count(input@),
    ensures
        operation == operation_at(input@, index as int),
{
    let at: usize = index * RECORD_BYTES;
    let key: u64 = read_le64(input, at + 1);
    let value: u64 = read_le64(input, at + 9);
    let selector: u8 = input[at] % 7;
    if selector == 0 {
        Operation::Put(key, value)
    } else if selector == 1 {
        Operation::PutNew(key, value)
    } else if selector == 2 {
        Operation::Delete(key)
    } else if selector == 3 {
        Operation::Get(key)
    } else if selector == 4 {
        Operation::Contains(key)
    } else if selector == 5 {
        Operation::Reopen
    } else {
        Operation::Reclaim
    }
}

/// Runs the operations of an input on a new database and on a model, and
/// returns the model.
///
/// The two never disagree, and the database has room for every operation.
pub fn exercise(input: &[u8]) -> (result: Result<Model, ExerciseError>)
    ensures
        result is Ok,
        left_by(operations_of(input@, operation_count(input@)), result->Ok_0),
        reached(input_config(), operations_of(input@, operation_count(input@))) is Ok,
{
    let mut config = Config::new(Mode::KeyMap, 64);
    config.body_capacity = 0x10_0000;
    config.blob_capacity = 0x10_0000;
    config.block_size = 0x1_0000;
    proof {
        lemma_input_config();
    }
    let mut database = match Database::create(config) {
        Ok(database) => database,
        Err(error) => {
            return Err(ExerciseError::Database(error));
        },
    };
    let mut model = Model::new();
    let ghost operations = operations_of(input@, operation_count(input@));
    proof {
        lemma_created_fit(database, model, config);
        assert(operations.take(0) =~= Seq::<Operation>::empty());
        lemma_none_small(database@, database@.len());
    }
    let whole: usize = input.len() / RECORD_BYTES;
    let count: usize = if whole > MAX_OPERATIONS {
        MAX_OPERATIONS
    } else {
        whole
    };
    let mut step: usize = 0;
    while step < count
        invariant
            count == operation_count(input@),
            step <= count,
            operations == operations_of(input@, operation_count(input@)),
            fit(database, model),
            reached(input_config(), operations.take(step as int)) == Ok::<Reached, Error>(
                state_of(database),
            ),
            left_by(operations.take(step as int), model),
            database.config() == input_config(),
            state_of(database).generation <= step,
            roomy(database.storage(), step as int),
            small(database@, step as int),
        decreases count - step,
    {
        let operation = read_operation(input, step);
        let reopened: bool = matches!(operation, Operation::Reopen);
        let ghost earlier = model;
        proof {
            lemma_room(database, operation, step as int);
            lemma_run_goes_on(input_config(), operations.take(step as int), operation);
            assert(operations.take(step as int).push(operation) =~= operations.take(step + 1));
        }
        let ghost held = database;
        database =
        match apply(database, &mut model, operation, step as u64) {
            Ok(database) => database,
            Err(error) => {
                return Err(error);
            },
        };
        proof {
            lemma_left_by(operations.take(step as int), earlier, operation, model);
            lemma_room_taken(held, database, operation, step as int);
        }
        if reopened {
            verify_model(step as u64, &database, &model)?;
        }
        step = step + 1;
    }
    assert(operations.take(step as int) =~= operations);
    verify_model(MAX_OPERATIONS as u64, &database, &model)?;
    Ok(model)
}

pub proof fn lemma_input_config()
    ensures
        database_create_defect(input_config()) is None,
{
    reveal_with_fuel(power_of_two, 17);
    assert(power_of_two(0x1_0000));
    reveal(Config::layout_defect);
    assert(heads_bytes(64) == HEADS_START + 3 * FORMAT_PAGE_SIZE);
    assert(allocator_create_defect(0x10_0000, 0x1_0000) is None);
    assert(input_config().defect() is None);
}

/// A new database and an empty model agree.
proof fn lemma_created_fit(database: Database, model: Model, config: Config)
    requires
        database_create_defect(config) is None,
        config.mode == Mode::KeyMap,
        database.wf(),
        database.sound(),
        database.config() == config,
        database@ == Seq::new(config.bucket_count as nat, |i: int| Seq::<Entry>::empty()),
        database.durable().stage == Stage::Idle,
        model.entries@ == Map::<u64, u64>::empty(),
    ensures
        fit(database, model),
{
    assert forall|k: u64|
        #![trigger key_bytes(k)]
        values_of(config, database@, key_bytes(k)).len() == 0 && value_for(
            config,
            database@,
            key_bytes(k),
        ) is None by {
        crate::outcomes::lemma_bucket(config, key_bytes(k));
        law_read_sees_first(config, database@, key_bytes(k));
    }
}

/// An operation of the run of an input finds room.
proof fn lemma_room(database: Database, operation: Operation, n: int)
    requires
        database.sound(),
        database.config() == input_config(),
        state_of(database).generation <= n,
        roomy(database.storage(), n),
        small(database@, n),
        0 <= n < MAX_OPERATIONS,
    ensures
        refusal(database, operation) is None,
{
    lemma_le_fields();
    match operation {
        Operation::Put(key, value) => {
            lemma_put_roomy(database.storage(), key_bytes(key), le64_bytes(value), true, n);
        },
        Operation::PutNew(key, value) => {
            lemma_put_roomy(database.storage(), key_bytes(key), le64_bytes(value), false, n);
        },
        Operation::Reopen => {
            lemma_checkpoint_roomy(database.storage(), database.chains(), n);
        },
        _ => {},
    }
}

/// An operation of the run of an input takes little room.
proof fn lemma_room_taken(before: Database, after: Database, operation: Operation, n: int)
    requires
        before.sound(),
        before.config() == input_config(),
        after.config() == input_config(),
        state_of(before).generation <= n,
        roomy(before.storage(), n),
        small(before@, n),
        0 <= n < MAX_OPERATIONS,
        advanced(state_of(before), operation) == Ok::<Reached, Error>(state_of(after)),
        after@ == entries_after(before, operation),
        operation is Reopen ==> laid_out(after),
    ensures
        state_of(after).generation <= n + 1,
        roomy(after.storage(), n + 1),
        small(after@, n + 1),
{
    reveal(advanced);
    lemma_le_fields();
    let config = before.config();
    match operation {
        Operation::Put(key, value) => {
            let entry = Entry { key: key_bytes(key), value: le64_bytes(value) };
            lemma_put_roomy(before.storage(), entry.key, entry.value, true, n);
            lemma_put_small(config, before@, entry, true, n);
        },
        Operation::PutNew(key, value) => {
            let entry = Entry { key: key_bytes(key), value: le64_bytes(value) };
            lemma_put_roomy(before.storage(), entry.key, entry.value, false, n);
            lemma_put_small(config, before@, entry, false, n);
        },
        Operation::Delete(key) => {
            lemma_delete_roomy(before.storage(), key_bytes(key), n);
            lemma_delete_small(config, before@, key_bytes(key), n);
        },
        Operation::Reopen => {
            lemma_checkpoint_roomy(before.storage(), before.chains(), n);
            let lists = choose|lists: Seq<Seq<Record>>| #[trigger]
                packed(after.storage(), lists) && after@ == entries_of_lists(
                    config.mode,
                    all_turned(lists),
                );
            lemma_packed_roomy(after.storage(), lists, after@, n);
        },
        _ => {},
    }
}

/// The layout of the database that a random run is made on.
pub open spec fn random_config() -> Config {
    Config {
        mode: Mode::KeyMap,
        bucket_count: 1_024,
        body_capacity: 0x400_0000,
        blob_capacity: 0x400_0000,
        block_size: 0x10_0000,
        hash_seed: 0,
    }
}

/// The operation that a generator in this state gives, and its next state.
pub open spec fn drawn(state: u64) -> (Operation, u64) {
    let first = shifted(state);
    let second = shifted(first);
    let third = shifted(second);
    let key = (first % 4_096) as u64;
    let selector = second % 10_000;
    if selector < 4_500 {
        (Operation::Put(key, third), third)
    } else if selector < 6_500 {
        (Operation::Delete(key), second)
    } else if selector < 9_990 {
        (Operation::Get(key), second)
    } else {
        (Operation::Reopen, second)
    }
}

/// A step of the generator: the state is folded into itself thirteen bits up, seven bits
/// down and seventeen bits up.
pub proof fn law_generator_step(state: u64)
    ensures
        ({
            let one = state ^ ((state % 0x8_0000_0000_0000) * 8_192) as u64;
            let two = one ^ (one / 128);
            shifted(state) == two ^ ((two % 0x8000_0000_0000) * 131_072) as u64
        }),
{
    let one = state ^ (state << 13);
    let two = one ^ (one >> 7);
    assert(state << 13 == (state % 0x8_0000_0000_0000u64) * 8_192u64) by (bit_vector);
    assert(one >> 7 == one / 128) by (bit_vector);
    assert(two << 17 == (two % 0x8000_0000_0000u64) * 131_072u64) by (bit_vector);
}

/// What is drawn: a key below 4,096, and of ten thousand selectors 4,500 for a put of the
/// next number, 2,000 for a delete, 3,490 for a read and ten for a checkpoint.
pub proof fn law_operation_is_drawn(state: u64)
    ensures
        ({
            let (operation, after) = drawn(state);
            let (first, second) = (shifted(state), shifted(shifted(state)));
            let key = first as int % 4_096;
            let selector = second as int % 10_000;
            &&& operation is Put <==> selector <= 4_499
            &&& operation is Delete <==> 4_500 <= selector <= 6_499
            &&& operation is Get <==> 6_500 <= selector <= 9_989
            &&& operation is Reopen <==> 9_990 <= selector
            &&& operation matches Operation::Put(k, value) ==> k == key && value == shifted(second)
                && after == value
            &&& operation matches Operation::Delete(k) ==> k == key
            &&& operation matches Operation::Get(k) ==> k == key
            &&& !(operation is Put) ==> after == second
        }),
{
}

/// What an input asks for: one operation for each seventeen bytes, but no more than 1,024,
/// with the kind in the first byte, the key in the next eight and the value in the last.
pub proof fn law_input_is_read(input: Seq<u8>, index: int)
    requires
        0 <= index < operation_count(input),
    ensures
        17 * index + 17 <= input.len(),
        index < 1_024,
        operation_count(input) < 1_024 ==> input.len() < 17 * operation_count(input) + 17,
        ({
            let record = input.subrange(17 * index, 17 * index + 17);
            let (kind, key, value) = (record[0] as int % 7, le64(record, 1), le64(record, 9));
            match operation_at(input, index) {
                Operation::Put(k, v) => kind == 0 && k == key && v == value,
                Operation::PutNew(k, v) => kind == 1 && k == key && v == value,
                Operation::Delete(k) => kind == 2 && k == key,
                Operation::Get(k) => kind == 3 && k == key,
                Operation::Contains(k) => kind == 4 && k == key,
                Operation::Reopen => kind == 5,
                Operation::Reclaim => kind == 6,
            }
        }),
{
    let record = input.subrange(17 * index, 17 * index + 17);
    crate::bytes::lemma_same_fields(record, 1, input, 17 * index + 1, 8);
    crate::bytes::lemma_same_fields(record, 9, input, 17 * index + 9, 8);
}

/// The state of a generator after `n` operations.
pub open spec fn state_after(state: u64, n: nat) -> u64
    decreases n,
{
    if n == 0 {
        state
    } else {
        drawn(state_after(state, (n - 1) as nat)).1
    }
}

/// The first `n` operations of a generator.
pub open spec fn operations_drawn(state: u64, n: nat) -> Seq<Operation> {
    Seq::new(n, |i: int| drawn(state_after(state, i as nat)).0)
}

/// The state that a seed stands for.
pub open spec fn seeded(seed: u64) -> u64 {
    if seed == 0 {
        0x9e37_79b9_7f4a_7c15
    } else {
        seed
    }
}

/// Draws the next operation.
fn draw(random: &mut XorShift64) -> (operation: Operation)
    ensures
        (operation, final(random).state) == drawn(old(random).state),
{
    let key: u64 = random.next() % 4_096;
    let selector: u64 = random.next() % 10_000;
    if selector < 4_500 {
        Operation::Put(key, random.next())
    } else if selector < 6_500 {
        Operation::Delete(key)
    } else if selector < 9_990 {
        Operation::Get(key)
    } else {
        Operation::Reopen
    }
}

/// Runs operations that a generator draws on a new database and on a model,
/// and returns the model.
///
/// The two never disagree: the first operation that the database refuses, if there is
/// one, ends the run with its error.
pub fn exercise_random(seed: u64, steps: u64) -> (result: Result<Model, ExerciseError>)
    ensures
        ({
            let operations = operations_drawn(seeded(seed), steps as nat);
            match reached(random_config(), operations) {
                Ok(_) => result is Ok && left_by(operations, result->Ok_0),
                Err(error) => result is Err && result->Err_0 == ExerciseError::Database(error),
            }
        }),
{
    let mut config = Config::new(Mode::KeyMap, 1_024);
    config.block_size = 0x10_0000;
    config.body_capacity = 0x400_0000;
    config.blob_capacity = 0x400_0000;
    proof {
        lemma_random_config();
    }
    let mut database = match Database::create(config) {
        Ok(database) => database,
        Err(error) => {
            return Err(ExerciseError::Database(error));
        },
    };
    let mut model = Model::new();
    let mut random = XorShift64::new(seed);
    let ghost start = seeded(seed);
    let ghost operations = operations_drawn(start, steps as nat);
    proof {
        lemma_created_fit(database, model, config);
        assert(operations.take(0) =~= Seq::<Operation>::empty());
    }
    let mut step: u64 = 0;
    while step < steps
        invariant
            start == seeded(seed),
            step <= steps,
            random.state == state_after(start, step as nat),
            operations == operations_drawn(start, steps as nat),
            fit(database, model),
            reached(random_config(), operations.take(step as int)) == Ok::<Reached, Error>(
                state_of(database),
            ),
            left_by(operations.take(step as int), model),
        decreases steps - step,
    {
        let operation = draw(&mut random);
        let ghost earlier = model;
        proof {
            lemma_run_goes_on(random_config(), operations.take(step as int), operation);
            assert(operations.take(step as int).push(operation) =~= operations.take(step + 1));
        }
        database =
        match apply(database, &mut model, operation, step) {
            Ok(database) => database,
            Err(error) => {
                proof {
                    lemma_run_ends(random_config(), operations, step + 1);
                }
                return Err(error);
            },
        };
        proof {
            lemma_left_by(operations.take(step as int), earlier, operation, model);
        }
        step = step + 1;
    }
    assert(operations.take(step as int) =~= operations);
    verify_model(steps, &database, &model)?;
    Ok(model)
}

proof fn lemma_random_config()
    ensures
        database_create_defect(random_config()) is None,
{
    reveal_with_fuel(power_of_two, 21);
    assert(power_of_two(0x10_0000));
    reveal(Config::layout_defect);
    assert(heads_bytes(1_024) == HEADS_START + 3 * FORMAT_PAGE_SIZE);
    assert(allocator_create_defect(0x400_0000, 0x10_0000) is None);
    assert(random_config().defect() is None);
}

/// What operations leave for a key: a put its value; a put of new keys alone its value where
/// there was none; a delete nothing; everything else, and what is done to other keys, what
/// there was.
pub proof fn law_value_left(operations: Seq<Operation>, operation: Operation, key: u64)
    ensures
        value_after(Seq::empty(), key) is None,
        ({
            let before = value_after(operations, key);
            let after = value_after(operations.push(operation), key);
            match operation {
                Operation::Put(k, value) => after == (if k == key {
                    Some(value)
                } else {
                    before
                }),
                Operation::PutNew(k, value) => {
                    &&& k == key && before is None ==> after == Some(value)
                    &&& k != key || before is Some ==> after == before
                },
                Operation::Delete(k) => after == (if k == key {
                    None
                } else {
                    before
                }),
                _ => after == before,
            }
        }),
{
    assert(operations.push(operation).drop_last() =~= operations);
}

/// A model is what operations leave exactly where it has, for each key, the value that they
/// leave, and no other key.
pub proof fn law_model_left(operations: Seq<Operation>, model: Model)
    ensures
        left_by(operations, model) <==> forall|key: u64, value: u64|
            value_after(operations, key) == Some(value) <==> #[trigger] model.maps(key, value),
{
    if forall|key: u64, value: u64|
        value_after(operations, key) == Some(value) <==> #[trigger] model.maps(key, value) {
        assert forall|k: u64|
            #![trigger model.entries@.contains_key(k)]
            #![trigger value_after(operations, k)]
            value_after(operations, k) == (if model.entries@.contains_key(k) {
                Some(model.entries@[k])
            } else {
                None
            }) by {
            if model.entries@.contains_key(k) {
                assert(model.maps(k, model.entries@[k]));
            } else if value_after(operations, k) is Some {
                assert(model.maps(k, value_after(operations, k)->0));
            }
        }
    }
}

/// Operations are drawn one after the other, each from the state that the one in front of
/// it left, from the seed on.
pub proof fn law_operations_in_turn(seed: u64, n: nat, index: int)
    requires
        0 <= index < n,
    ensures
        operations_drawn(seeded(seed), n).len() == n,
        operations_drawn(seeded(seed), n)[index] == drawn(
            state_after(seeded(seed), index as nat),
        ).0,
        state_after(seeded(seed), 0) == (if seed == 0 {
            0x9e37_79b9_7f4a_7c15
        } else {
            seed
        }),
        state_after(seeded(seed), (index + 1) as nat) == drawn(
            state_after(seeded(seed), index as nat),
        ).1,
{
}

} // verus!
