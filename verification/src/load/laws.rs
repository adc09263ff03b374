//! What the index takes of a block, and what a block takes out of it again.

use vstd::prelude::*;

#[allow(unused_imports)]
use super::{
    coinbase, indexable, indexed_output, inputs_of, outputs_of, transaction_inputs,
    transaction_outputs, IndexedOutputModel, OutPoint, Transaction, TransactionModel,
};
#[allow(unused_imports)]
use super::{outputs_defect, too_many_outputs, transaction_id};
#[allow(unused_imports)]
use crate::bytes::{le32, le32_bytes, le64, le64_bytes, lemma_le_fields, lemma_same_fields};

verus! {

/// Whether the place `one` comes before the place `two` in a block: a place is a
/// transaction, and an input or output of it.
pub open spec fn earlier(one: (int, int), two: (int, int)) -> bool {
    one.0 < two.0 || (one.0 == two.0 && one.1 < two.1)
}

/// Whether an input of a transaction spends an output: a coinbase input refers to
/// the output with the largest number of a transaction whose hash is all zero.
pub open spec fn spends(transactions: Seq<Transaction>, place: (int, int)) -> bool {
    let input = transactions[place.0].input@[place.1].previous_output;
    &&& 0 <= place.0 < transactions.len()
    &&& 0 <= place.1 < transactions[place.0].input@.len()
    &&& input.vout != 0xffff_ffff || exists|i: int| 0 <= i < 32 && #[trigger] input.txid@[i] != 0
}

/// Whether `spent` has one outpoint for each of `places`, and `places` are the
/// inputs of a block that spend an output, each of them once and in order.
pub open spec fn lists_inputs(
    transactions: Seq<Transaction>,
    places: Seq<(int, int)>,
    spent: Seq<OutPoint>,
) -> bool {
    &&& places.len() == spent.len()
    &&& forall|k: int|
        #![trigger places[k]]
        #![trigger spent[k]]
        0 <= k < places.len() ==> spends(transactions, places[k]) && spent[k]
            == transactions[places[k].0].input@[places[k].1].previous_output
    &&& forall|k: int, l: int|
        #![trigger places[k], places[l]]
        0 <= k < l < places.len() ==> earlier(places[k], places[l])
    &&& forall|place: (int, int)| #[trigger]
        spends(transactions, place) ==> places.contains(place)
}

/// A block spends what each of its inputs refers to, but for the inputs that create
/// an amount: as many outpoints as there are such inputs, in the order of the block.
pub proof fn law_block_spends_every_input(transactions: Seq<Transaction>) -> (places: Seq<
    (int, int),
>)
    ensures
        lists_inputs(transactions, places, inputs_of(transactions, transactions.len())),
{
    let places = lemma_inputs_listed(transactions, transactions.len());
    assert forall|place: (int, int)| #[trigger] spends(transactions, place) implies places.contains(
        place,
    ) by {}
    places
}

proof fn lemma_inputs_listed(transactions: Seq<Transaction>, n: nat) -> (places: Seq<(int, int)>)
    requires
        n <= transactions.len(),
    ensures
        places.len() == inputs_of(transactions, n).len(),
        forall|k: int|
            #![trigger places[k]]
            0 <= k < places.len() ==> spends(transactions, places[k]) && places[k].0 < n
                && inputs_of(transactions, n)[k]
                == transactions[places[k].0].input@[places[k].1].previous_output,
        forall|k: int, l: int|
            #![trigger places[k], places[l]]
            0 <= k < l < places.len() ==> earlier(places[k], places[l]),
        forall|place: (int, int)| #[trigger]
            spends(transactions, place) && place.0 < n ==> places.contains(place),
    decreases n,
{
    if n == 0 {
        Seq::empty()
    } else {
        let front = lemma_inputs_listed(transactions, (n - 1) as nat);
        let length = transactions[n - 1].input@.len();
        let back = lemma_transaction_inputs_listed(transactions, n - 1, length);
        let places = front + back;
        assert forall|place: (int, int)| #[trigger]
            spends(transactions, place) && place.0 < n implies places.contains(place) by {
            if place.0 < n - 1 {
                let k = choose|k: int| 0 <= k < front.len() && front[k] == place;
                assert(places[k] == place);
            } else {
                assert(back.contains(place));
                let k = choose|k: int| 0 <= k < back.len() && back[k] == place;
                assert(places[front.len() + k] == place);
            }
        }
        places
    }
}

proof fn lemma_transaction_inputs_listed(transactions: Seq<Transaction>, t: int, n: nat) -> (places:
    Seq<(int, int)>)
    requires
        0 <= t < transactions.len(),
        n <= transactions[t].input@.len(),
    ensures
        places.len() == transaction_inputs(transactions[t], n).len(),
        forall|k: int|
            #![trigger places[k]]
            0 <= k < places.len() ==> spends(transactions, places[k]) && places[k].0 == t
                && places[k].1 < n && transaction_inputs(transactions[t], n)[k]
                == transactions[t].input@[places[k].1].previous_output,
        forall|k: int, l: int|
            #![trigger places[k], places[l]]
            0 <= k < l < places.len() ==> earlier(places[k], places[l]),
        forall|place: (int, int)| #[trigger]
            spends(transactions, place) && place.0 == t && place.1 < n ==> places.contains(place),
    decreases n,
{
    if n == 0 {
        Seq::empty()
    } else {
        let front = lemma_transaction_inputs_listed(transactions, t, (n - 1) as nat);
        let last = (t, n - 1);
        let input = transactions[t].input@[n - 1].previous_output;
        assert(input.txid@.len() == 32);
        let places = if spends(transactions, last) {
            front.push(last)
        } else {
            front
        };
        assert forall|place: (int, int)| #[trigger]
            spends(transactions, place) && place.0 == t && place.1 < n implies places.contains(
            place,
        ) by {
            if place.1 < n - 1 {
                let k = choose|k: int| 0 <= k < front.len() && front[k] == place;
                assert(places[k] == place);
            } else {
                assert(place == last);
                assert(places[front.len() as int] == place);
            }
        }
        places
    }
}

/// Whether an output of a block at `height` can be spent later: the first block has
/// none, and a script of more than ten thousand bytes or one that begins with the
/// opcode that returns makes an output unspendable.
pub open spec fn spendable(
    transactions: Seq<TransactionModel>,
    height: u64,
    place: (int, int),
) -> bool {
    let script = transactions[place.0].output[place.1].script_pubkey;
    &&& 0 <= place.0 < transactions.len()
    &&& 0 <= place.1 < transactions[place.0].output.len()
    &&& height > 0
    &&& script.len() <= 10_000
    &&& script.len() == 0 || script[0] != 0x6a
}

/// Whether a transaction has one input alone, and that one refers to the output with
/// the largest number of a transaction whose hash is all zero.
pub open spec fn creates(transaction: TransactionModel) -> bool {
    &&& transaction.input.len() == 1
    &&& transaction.input[0].previous_output.vout == 0xffff_ffff
    &&& forall|i: int|
        0 <= i < transaction.input[0].previous_output.txid.len()
            ==> #[trigger] transaction.input[0].previous_output.txid[i] == 0
}

/// Whether `taken` is what the index takes of an output: under the first twelve bytes
/// of the transaction's hash and the number of the output, the amount, the height, the
/// length of the script and the script.
pub open spec fn taken_from(
    transactions: Seq<TransactionModel>,
    height: u64,
    place: (int, int),
    taken: IndexedOutputModel,
) -> bool {
    let transaction = transactions[place.0];
    let output = transaction.output[place.1];
    &&& taken.key.len() == 16
    &&& taken.key.take(12) == transaction_id(transaction).take(12)
    &&& le32(taken.key, 12) == place.1
    &&& taken.value.len() == 16 + output.script_pubkey.len()
    &&& le64(taken.value, 0) == output.value
    &&& le32(taken.value, 8) == height
    &&& le32(taken.value, 12) == output.script_pubkey.len()
    &&& taken.value.skip(16) == output.script_pubkey
    &&& taken.coinbase == creates(transaction)
}

/// Whether `taken` has one entry for each of `places`, and `places` are the outputs of
/// a block that can be spent later, each of them once and in order.
pub open spec fn lists_outputs(
    transactions: Seq<TransactionModel>,
    height: u64,
    places: Seq<(int, int)>,
    taken: Seq<IndexedOutputModel>,
) -> bool {
    &&& places.len() == taken.len()
    &&& forall|k: int|
        #![trigger places[k]]
        #![trigger taken[k]]
        0 <= k < places.len() ==> spendable(transactions, height, places[k]) && taken_from(
            transactions,
            height,
            places[k],
            taken[k],
        )
    &&& forall|k: int, l: int|
        #![trigger places[k], places[l]]
        0 <= k < l < places.len() ==> earlier(places[k], places[l])
    &&& forall|place: (int, int)| #[trigger]
        spendable(transactions, height, place) ==> places.contains(place)
}

/// The index takes every output of a block that can be spent later, and no other, in
/// the order of the block.
pub proof fn law_block_adds_every_output(transactions: Seq<TransactionModel>, height: u64) -> (
    places: Seq<(int, int)>)
    requires
        height <= u32::MAX,
        forall|t: int|
            0 <= t < transactions.len() ==> transaction_id(#[trigger] transactions[t]).len() == 32
                && forall|v: int|
                u32::MAX < v < transactions[t].output.len() ==> !spendable(
                    transactions,
                    height,
                    (t, v),
                ),
    ensures
        lists_outputs(
            transactions,
            height,
            places,
            outputs_of(transactions, height, transactions.len()),
        ),
{
    let places = lemma_outputs_listed(transactions, height, transactions.len());
    assert forall|place: (int, int)| #[trigger]
        spendable(transactions, height, place) implies places.contains(place) by {}
    places
}

proof fn lemma_outputs_listed(transactions: Seq<TransactionModel>, height: u64, n: nat) -> (places:
    Seq<(int, int)>)
    requires
        height <= u32::MAX,
        n <= transactions.len(),
        forall|t: int|
            0 <= t < transactions.len() ==> transaction_id(#[trigger] transactions[t]).len() == 32
                && forall|v: int|
                u32::MAX < v < transactions[t].output.len() ==> !spendable(
                    transactions,
                    height,
                    (t, v),
                ),
    ensures
        places.len() == outputs_of(transactions, height, n).len(),
        forall|k: int|
            #![trigger places[k]]
            0 <= k < places.len() ==> spendable(transactions, height, places[k]) && places[k].0 < n
                && taken_from(
                transactions,
                height,
                places[k],
                outputs_of(transactions, height, n)[k],
            ),
        forall|k: int, l: int|
            #![trigger places[k], places[l]]
            0 <= k < l < places.len() ==> earlier(places[k], places[l]),
        forall|place: (int, int)| #[trigger]
            spendable(transactions, height, place) && place.0 < n ==> places.contains(place),
    decreases n,
{
    if n == 0 {
        Seq::empty()
    } else {
        let front = lemma_outputs_listed(transactions, height, (n - 1) as nat);
        let length = transactions[n - 1].output.len();
        let back = lemma_transaction_outputs_listed(transactions, height, n - 1, length);
        let places = front + back;
        assert forall|place: (int, int)| #[trigger]
            spendable(transactions, height, place) && place.0 < n implies places.contains(
            place,
        ) by {
            if place.0 < n - 1 {
                let k = choose|k: int| 0 <= k < front.len() && front[k] == place;
                assert(places[k] == place);
            } else {
                assert(back.contains(place));
                let k = choose|k: int| 0 <= k < back.len() && back[k] == place;
                assert(places[front.len() + k] == place);
            }
        }
        places
    }
}

proof fn lemma_transaction_outputs_listed(
    transactions: Seq<TransactionModel>,
    height: u64,
    t: int,
    n: nat,
) -> (places: Seq<(int, int)>)
    requires
        height <= u32::MAX,
        0 <= t < transactions.len(),
        n <= transactions[t].output.len(),
        transaction_id(transactions[t]).len() == 32,
        forall|v: int|
            u32::MAX < v < transactions[t].output.len() ==> !spendable(
                transactions,
                height,
                (t, v),
            ),
    ensures
        ({
            let taken = transaction_outputs(
                transactions[t],
                transaction_id(transactions[t]),
                height,
                n,
            );
            &&& places.len() == taken.len()
            &&& forall|k: int|
                #![trigger places[k]]
                0 <= k < places.len() ==> spendable(transactions, height, places[k]) && places[k].0
                    == t && places[k].1 < n && taken_from(
                    transactions,
                    height,
                    places[k],
                    taken[k],
                )
        }),
        forall|k: int, l: int|
            #![trigger places[k], places[l]]
            0 <= k < l < places.len() ==> earlier(places[k], places[l]),
        forall|place: (int, int)| #[trigger]
            spendable(transactions, height, place) && place.0 == t && place.1 < n
                ==> places.contains(place),
    decreases n,
{
    if n == 0 {
        Seq::empty()
    } else {
        let front = lemma_transaction_outputs_listed(transactions, height, t, (n - 1) as nat);
        let last = (t, n - 1);
        let transaction = transactions[t];
        let places = if spendable(transactions, height, last) {
            lemma_output_taken(transactions, height, last);
            front.push(last)
        } else {
            front
        };
        assert forall|place: (int, int)| #[trigger]
            spendable(transactions, height, place) && place.0 == t && place.1
            < n implies places.contains(place) by {
            if place.1 < n - 1 {
                let k = choose|k: int| 0 <= k < front.len() && front[k] == place;
                assert(places[k] == place);
            } else {
                assert(place == last);
                assert(places[front.len() as int] == place);
            }
        }
        places
    }
}

proof fn lemma_output_taken(transactions: Seq<TransactionModel>, height: u64, place: (int, int))
    requires
        height <= u32::MAX,
        spendable(transactions, height, place),
        place.1 <= u32::MAX,
        transaction_id(transactions[place.0]).len() == 32,
    ensures
        taken_from(
            transactions,
            height,
            place,
            indexed_output(
                transactions[place.0],
                transaction_id(transactions[place.0]),
                place.1,
                height,
            ),
        ),
{
    lemma_le_fields();
    let transaction = transactions[place.0];
    let output = transaction.output[place.1];
    let taken = indexed_output(transaction, transaction_id(transaction), place.1, height);
    let number = le32_bytes(place.1 as u32);
    let script = output.script_pubkey;
    assert(taken.key.take(12) =~= transaction_id(transaction).take(12));
    lemma_same_fields(taken.key, 12, number, 0, 4);
    lemma_same_fields(taken.value, 0, le64_bytes(output.value), 0, 8);
    lemma_same_fields(taken.value, 8, le32_bytes(height as u32), 0, 4);
    lemma_same_fields(taken.value, 12, le32_bytes(script.len() as u32), 0, 4);
    assert(taken.value.skip(16) =~= script);
}

/// The outputs of a block are taken exactly where its height fits 32 bits, and so do the
/// numbers of all the outputs that can be spent.
pub proof fn law_block_outputs_fit(transactions: Seq<TransactionModel>, height: u64)
    ensures
        outputs_defect(transactions, height) is None <==> {
            &&& height <= 0xffff_ffff
            &&& forall|place: (int, int)| #[trigger]
                spendable(transactions, height, place) ==> place.1 <= 0xffff_ffff
        },
{
    if exists|i: int|
        0 <= i < transactions.len() && #[trigger] too_many_outputs(transactions[i], height) {
        let t = choose|i: int|
            0 <= i < transactions.len() && #[trigger] too_many_outputs(transactions[i], height);
        let i = choose|i: int|
            u32::MAX < i < transactions[t].output.len() && #[trigger] indexable(
                height,
                transactions[t].output[i],
            );
        assert(spendable(transactions, height, (t, i)));
    } else {
        assert forall|place: (int, int)| #[trigger] spendable(
            transactions,
            height,
            place,
        ) implies place.1 <= 0xffff_ffff by {
            assert(!too_many_outputs(transactions[place.0], height));
            assert(indexable(height, transactions[place.0].output[place.1]));
        }
    }
}

} // verus!
