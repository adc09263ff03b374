//! Loading blocks into the index.

use bitcoin::consensus::encode::serialize;
use floresta_db::load::arguments::{
    database_config, environment_u64, gibibytes, may_retry, mebibytes, optional_u64,
    optional_usize, parse_rpc_auth, parse_u64, select_tip, Arguments, Command, Environment,
    RpcAuth,
};
use floresta_db::load::stats::{
    advance_frontier, check_balance, check_core_utxo_set, consumed_below, may_index, ConsumerStats,
    CoreSummary, ProducerStats,
};
use floresta_db::load::utxo::{
    add_block_outputs, decrement, increment, remove_block_inputs, Progress,
};
use floresta_db::load::{
    append_outputs, block_inputs, block_outputs, check_block_hash, decode_block, index_key,
    outpoint_key, output_value, receive_block, should_index_output, LoadError, OutPoint,
    Transaction, TxIn, TxOut, MAX_SCRIPT_SIZE,
};
use floresta_db::{Config, Database, Error, Mode};

#[test]
fn serializes_outpoint_as_txid_and_little_endian_vout() {
    let outpoint = OutPoint {
        txid: [7; 32],
        vout: 0x0102_0304,
    };
    let key = outpoint_key(outpoint);
    assert_eq!(&key[..32], &[7; 32]);
    assert_eq!(&key[32..], &[4, 3, 2, 1]);
}

#[test]
fn serializes_amount_height_and_script() -> Result<(), LoadError> {
    let output = TxOut {
        value: 42,
        script_pubkey: vec![0x51, 0x21],
    };
    let value = output_value(&output, 9)?;
    assert_eq!(&value[0..8], &42_u64.to_le_bytes());
    assert_eq!(&value[8..12], &9_u32.to_le_bytes());
    assert_eq!(&value[12..16], &2_u32.to_le_bytes());
    assert_eq!(&value[16..], &[0x51, 0x21]);
    Ok(())
}

#[test]
fn parses_rpc_authentication_methods() -> Result<(), LoadError> {
    assert_eq!(parse_rpc_auth("none".to_owned())?, RpcAuth::Anonymous);
    assert_eq!(
        parse_rpc_auth("bitcoin:secret".to_owned())?,
        RpcAuth::UserPass("bitcoin".to_owned(), "secret".to_owned())
    );
    assert_eq!(
        parse_rpc_auth("/tmp/.cookie".to_owned())?,
        RpcAuth::Cookie("/tmp/.cookie".to_owned())
    );
    assert!(parse_rpc_auth(":secret".to_owned()).is_err());
    assert!(parse_rpc_auth("bitcoin:".to_owned()).is_err());
    Ok(())
}

#[test]
fn a_password_may_hold_colons() -> Result<(), LoadError> {
    assert_eq!(
        parse_rpc_auth("user:a:b".to_owned())?,
        RpcAuth::UserPass("user".to_owned(), "a:b".to_owned())
    );
    Ok(())
}

#[test]
fn skips_outputs_bitcoin_core_excludes_from_the_utxo_set() {
    let spendable = TxOut {
        value: 1,
        script_pubkey: vec![0x51],
    };
    let op_return = TxOut {
        value: 1,
        script_pubkey: vec![0x6a],
    };
    let oversized = TxOut {
        value: 1,
        script_pubkey: vec![0x51; MAX_SCRIPT_SIZE + 1],
    };

    assert!(!should_index_output(0, &spendable));
    assert!(should_index_output(1, &spendable));
    assert!(!should_index_output(1, &op_return));
    assert!(!should_index_output(1, &oversized));
}

#[test]
fn truncates_txid_and_keeps_little_endian_vout() -> Result<(), Error> {
    let mut txid = [0_u8; 32];
    for (index, byte) in txid.iter_mut().enumerate() {
        *byte = u8::try_from(index).unwrap_or(u8::MAX);
    }
    let outpoint = OutPoint {
        txid,
        vout: 0x0102_0304,
    };
    let key = index_key(outpoint);
    assert_eq!(&key[..12], &[0, 1, 2, 3, 4, 5, 6, 7, 8, 9, 10, 11]);
    assert_eq!(&key[12..], &[4, 3, 2, 1]);
    let mut database = Database::create(Config::new(Mode::KeyMap, 8))?;
    assert!(matches!(
        database.put(&outpoint_key(outpoint), b"output"),
        Err(Error::InvalidKeyLength {
            expected: 16,
            actual: 36
        })
    ));
    database.put(&key, b"output")?;
    assert_eq!(database.get(&key)?, Some(b"output".to_vec()));
    Ok(())
}

fn script(bytes: &[u8]) -> bitcoin::ScriptBuf {
    bitcoin::ScriptBuf::from_bytes(bytes.to_vec())
}

fn outside_transaction(
    inputs: Vec<bitcoin::OutPoint>,
    outputs: Vec<(u64, &[u8])>,
) -> bitcoin::Transaction {
    bitcoin::Transaction {
        version: bitcoin::transaction::Version(2),
        lock_time: bitcoin::absolute::LockTime::from_consensus(77),
        input: inputs
            .into_iter()
            .map(|previous_output| bitcoin::TxIn {
                previous_output,
                script_sig: script(&[0x01, 0x02]),
                sequence: bitcoin::Sequence(5),
                witness: bitcoin::Witness::new(),
            })
            .collect(),
        output: outputs
            .into_iter()
            .map(|(sats, bytes)| bitcoin::TxOut {
                value: bitcoin::Amount::from_sat(sats),
                script_pubkey: script(bytes),
            })
            .collect(),
    }
}

fn outside_block(txdata: Vec<bitcoin::Transaction>) -> bitcoin::Block {
    let genesis = bitcoin::constants::genesis_block(bitcoin::Network::Regtest);
    bitcoin::Block {
        header: genesis.header,
        txdata,
    }
}

fn txid(transaction: &bitcoin::Transaction) -> [u8; 32] {
    bitcoin::hashes::Hash::to_byte_array(transaction.compute_txid())
}

#[test]
fn decodes_the_genesis_block() -> Result<(), LoadError> {
    let genesis = bitcoin::constants::genesis_block(bitcoin::Network::Bitcoin);
    let transactions = decode_block(&serialize(&genesis))?;
    assert_eq!(transactions.len(), 1);
    assert!(transactions[0].is_coinbase());
    assert_eq!(transactions[0].output[0].value, 5_000_000_000);
    assert_eq!(transactions[0].version, 1);
    assert!(transactions[0].input[0].previous_output.is_null());
    assert_eq!(transactions[0].input[0].sequence, u32::MAX);
    assert!(block_inputs(&transactions).is_empty());
    assert!(block_outputs(&transactions, 0)?.is_empty());
    let outputs = block_outputs(&transactions, 1)?;
    let mut expected = txid(&genesis.txdata[0])[..12].to_vec();
    expected.extend_from_slice(&[0; 4]);
    assert_eq!(outputs[0].key, expected);
    assert!(outputs[0].coinbase);
    Ok(())
}

#[test]
fn rejects_bytes_that_are_no_block() {
    let genesis = bitcoin::constants::genesis_block(bitcoin::Network::Bitcoin);
    let mut encoded = serialize(&genesis);
    assert!(matches!(
        decode_block(&encoded[..80]),
        Err(LoadError::Block(_))
    ));
    encoded.push(0);
    match decode_block(&encoded) {
        Err(error @ LoadError::Block(_)) => assert!(error.message().contains("not consumed")),
        _ => panic!("trailing byte accepted"),
    }
}

#[test]
fn a_block_has_the_hash_it_was_asked_for() -> Result<(), LoadError> {
    let genesis = bitcoin::constants::genesis_block(bitcoin::Network::Bitcoin);
    let encoded = serialize(&genesis);
    let hash: [u8; 32] = bitcoin::hashes::Hash::to_byte_array(genesis.block_hash());
    assert_eq!(receive_block(&encoded, &hash)?.len(), 1);
    let mut other = encoded.clone();
    other[76] ^= 1;
    for (bytes, expected) in [(&encoded, [0; 32]), (&other, hash)] {
        assert!(matches!(
            receive_block(bytes, &expected),
            Err(LoadError::Inconsistent("RPC returned a block with the wrong hash"))
        ));
    }
    for bytes in [&encoded[..79], &encoded[1..], &encoded[..81], b""] {
        for expected in [hash, [0; 32]] {
            assert!(matches!(
                receive_block(bytes, &expected),
                Err(LoadError::Block(_))
            ));
        }
    }
    assert!(check_block_hash(Some(hash), &hash).is_ok());
    assert!(check_block_hash(Some(hash), &hash[..31]).is_err());
    assert!(check_block_hash(None, &hash).is_err());
    Ok(())
}

#[test]
fn a_transaction_gives_its_outputs_under_its_identifier() -> Result<(), LoadError> {
    let plain = Transaction {
        version: 1,
        lock_time: 0,
        input: vec![],
        output: vec![
            TxOut {
                value: 1,
                script_pubkey: vec![0x6a],
            },
            TxOut {
                value: 2,
                script_pubkey: vec![],
            },
        ],
    };
    let mut outputs = Vec::new();
    append_outputs(&plain, [5; 32], 6, &mut outputs)?;
    assert_eq!(outputs.len(), 1);
    assert_eq!(outputs[0].key, [5, 5, 5, 5, 5, 5, 5, 5, 5, 5, 5, 5, 1, 0, 0, 0]);
    assert_eq!(
        outputs[0].value,
        [2, 0, 0, 0, 0, 0, 0, 0, 6, 0, 0, 0, 0, 0, 0, 0]
    );
    assert!(!outputs[0].coinbase);
    Ok(())
}

fn index() -> Database {
    let mut config = Config::new(Mode::KeyMap, 64);
    config.block_size = 1 << 16;
    config.body_capacity = 1 << 20;
    config.blob_capacity = 1 << 20;
    Database::create(config).unwrap()
}

#[test]
fn outputs_go_in_and_inputs_take_them_out() -> Result<(), LoadError> {
    let mut database = index();
    let mut live = 0;
    let coinbase = outside_transaction(
        vec![bitcoin::OutPoint::null()],
        vec![(50, &[0x51]), (0, &[0x6a, 0x01])],
    );
    let first = decode_block(&serialize(&outside_block(vec![coinbase.clone()])))?;
    let outputs = block_outputs(&first, 1)?;
    assert_eq!(outputs.len(), 1);
    let progress = add_block_outputs(&mut database, &outputs, 0, 1, 0, &mut live)?;
    assert_eq!(progress, Progress { next: 1, added: 1 });
    assert_eq!(live, 1);

    let paid = OutPoint {
        txid: txid(&coinbase),
        vout: 0,
    };
    let stored = database.get(&index_key(paid)).unwrap().unwrap();
    assert_eq!(stored[..8], 50_u64.to_le_bytes());
    assert_eq!(stored[16..], [0x51]);

    let spend = outside_transaction(
        vec![bitcoin::OutPoint::new(coinbase.compute_txid(), 0)],
        vec![(20, &[0x52]), (30, &[0x53])],
    );
    let second = decode_block(&serialize(&outside_block(vec![spend])))?;
    let outputs = block_outputs(&second, 2)?;
    let progress = add_block_outputs(&mut database, &outputs, 0, 2, 1, &mut live)?;
    assert_eq!(progress.added, 2);
    assert_eq!(remove_block_inputs(&mut database, &second, &mut live)?, 1);
    assert_eq!(live, 2);
    assert_eq!(database.get(&index_key(paid)).unwrap(), None);

    match remove_block_inputs(&mut database, &second, &mut live) {
        Err(LoadError::MissingOutpoint(outpoint)) => assert_eq!(outpoint, paid),
        _ => panic!("spent twice"),
    }
    Ok(())
}

#[test]
fn a_coinbase_replaces_an_older_one_once_it_is_consumed() -> Result<(), LoadError> {
    let mut database = index();
    let mut live = 0;
    let coinbase = outside_transaction(vec![bitcoin::OutPoint::null()], vec![(50, &[0x51])]);
    let block = decode_block(&serialize(&outside_block(vec![coinbase])))?;
    let outputs = block_outputs(&block, 3)?;
    add_block_outputs(&mut database, &outputs, 0, 3, 0, &mut live)?;

    let again = block_outputs(&block, 9)?;
    let waiting = add_block_outputs(&mut database, &again, 0, 9, 8, &mut live)?;
    assert_eq!(waiting, Progress { next: 0, added: 0 });
    let done = add_block_outputs(&mut database, &again, waiting.next, 9, 9, &mut live)?;
    assert_eq!(done, Progress { next: 1, added: 0 });
    assert_eq!(live, 1);
    let stored = database.get(&again[0].key).unwrap().unwrap();
    assert_eq!(stored[8..12], 9_u32.to_le_bytes());
    Ok(())
}

#[test]
fn duplicates_and_counter_limits_are_errors() -> Result<(), LoadError> {
    let mut database = index();
    let mut live = 0;
    let ordinary = outside_transaction(
        vec![bitcoin::OutPoint::new(
            bitcoin::hashes::Hash::from_byte_array([9; 32]),
            0,
        )],
        vec![(50, &[0x51])],
    );
    let block = decode_block(&serialize(&outside_block(vec![ordinary])))?;
    let outputs = block_outputs(&block, 3)?;
    add_block_outputs(&mut database, &outputs, 0, 3, 3, &mut live)?;
    assert!(matches!(
        add_block_outputs(&mut database, &outputs, 0, 3, 3, &mut live),
        Err(LoadError::Inconsistent("duplicate live outpoint encountered"))
    ));
    assert!(matches!(
        block_outputs(&block, 1 << 32),
        Err(LoadError::InvalidInput("block height does not fit output value"))
    ));

    let mut full = u64::MAX;
    assert!(increment(&mut full).is_err());
    let mut none = 0;
    assert!(decrement(&mut none).is_err());
    increment(&mut none)?;
    assert_eq!(none, 1);
    decrement(&mut none)?;
    assert_eq!(none, 0);
    Ok(())
}

#[test]
fn hashes_transactions_like_the_outside_crate() -> Result<(), LoadError> {
    let outside = outside_transaction(
        vec![bitcoin::OutPoint::new(
            bitcoin::hashes::Hash::from_byte_array([3; 32]),
            4,
        )],
        vec![(1_000, &[0x51, 0x52]), (2_000, &[])],
    );
    let plain = Transaction {
        version: 2,
        lock_time: 77,
        input: vec![TxIn {
            previous_output: OutPoint {
                txid: [3; 32],
                vout: 4,
            },
            script_sig: vec![0x01, 0x02],
            sequence: 5,
        }],
        output: vec![
            TxOut {
                value: 1_000,
                script_pubkey: vec![0x51, 0x52],
            },
            TxOut {
                value: 2_000,
                script_pubkey: vec![],
            },
        ],
    };
    assert!(!plain.is_coinbase());
    let outputs = block_outputs(&vec![plain], 1)?;
    assert_eq!(outputs.len(), 2);
    assert_eq!(outputs[1].key[..12], txid(&outside)[..12]);
    assert_eq!(outputs[1].key[12..], [1, 0, 0, 0]);
    Ok(())
}

#[test]
fn reads_numbers_like_the_standard_library() {
    for text in [
        "", "0", "7", "+7", "+", "-", "-1", "007", "18446744073709551615",
        "18446744073709551616", "99999999999999999999x", "1x", " 1", "12a", "+0",
    ] {
        let expected = text
            .parse::<u64>()
            .map_err(|error| format!("invalid limit '{text}': {error}"));
        let actual = parse_u64(text, "limit").map_err(|error| error.message());
        assert_eq!(actual, expected);
    }
}

fn environment() -> Environment {
    Environment {
        slot_mib: None,
        block_mib: None,
        body_gib: None,
        blob_gib: None,
        buckets: None,
        rpc_delay_ms: None,
        checkpoint: false,
    }
}

fn arguments(words: &[&str]) -> Vec<String> {
    words.iter().map(|word| (*word).to_owned()).collect()
}

fn parse(words: &[&str], environment: &Environment) -> Result<Arguments, LoadError> {
    match Arguments::parse(&arguments(words), environment, 8)? {
        Command::Load(parsed) => Ok(parsed),
        Command::Help => panic!("help"),
    }
}

#[test]
fn arguments_have_defaults() -> Result<(), LoadError> {
    let parsed = parse(&["load", "none"], &environment())?;
    assert_eq!(parsed.auth, RpcAuth::Anonymous);
    assert_eq!(parsed.rpc_url, "http://127.0.0.1:8332");
    assert_eq!(parsed.tip_height, None);
    assert_eq!(parsed.fetch_threads, 4);
    assert_eq!(parsed.spend_threads, 7);
    assert_eq!(parsed.ring_slots, 64);
    assert_eq!(parsed.slot_bytes, 5 << 20);
    assert_eq!(parsed.work_dir, "bitcoin-load-run");
    assert_eq!(parsed.buckets, 1 << 20);
    assert_eq!(parsed.body_capacity, 64 << 30);
    assert_eq!(parsed.blob_capacity, 64 << 30);
    assert_eq!(parsed.database_block_bytes, 1 << 20);
    assert!(!parsed.checkpoint);
    assert_eq!(parsed.rpc_delay_ms, 15);
    Ok(())
}

#[test]
fn arguments_and_environment_are_read() -> Result<(), LoadError> {
    let mut environment = environment();
    environment.slot_mib = Some("6".to_owned());
    environment.buckets = Some("99".to_owned());
    environment.checkpoint = true;
    let parsed = parse(
        &["load", "u:p", "http://node", "700", "2", "3", "16", "out"],
        &environment,
    )?;
    assert_eq!(parsed.tip_height, Some(700));
    assert_eq!(parsed.fetch_threads, 2);
    assert_eq!(parsed.spend_threads, 3);
    assert_eq!(parsed.ring_slots, 16);
    assert_eq!(parsed.work_dir, "out");
    assert_eq!(parsed.slot_bytes, 6 << 20);
    assert_eq!(parsed.buckets, 99);
    assert!(parsed.checkpoint);
    let tip = parse(&["load", "none", "url", "tip"], &environment)?;
    assert_eq!(tip.tip_height, None);
    Ok(())
}

#[test]
fn flawed_arguments_are_described() {
    let text = |words: &[&str]| match parse(words, &environment()) {
        Err(error) => error.message(),
        Ok(_) => String::new(),
    };
    assert_eq!(
        text(&["load"]),
        "missing Bitcoin Core authentication argument"
    );
    assert_eq!(
        text(&["load", ":x"]),
        "RPC user and password must be nonempty"
    );
    assert_eq!(
        text(&["load", "none", "url", "many"]),
        "invalid tip height 'many': invalid digit found in string"
    );
    assert_eq!(
        text(&["load", "none", "url", "tip", "0"]),
        "thread pool sizes must be nonzero"
    );
    let mut large = environment();
    large.body_gib = Some("18446744073709551615".to_owned());
    assert_eq!(
        parse(&["load", "none"], &large).err().unwrap().message(),
        "GiB value overflow"
    );
    let mut wrong = environment();
    wrong.rpc_delay_ms = Some("soon".to_owned());
    assert_eq!(
        parse(&["load", "none"], &wrong).err().unwrap().message(),
        "invalid DB_LOAD_RPC_DELAY_MS 'soon': invalid digit found in string"
    );
    assert!(matches!(
        Arguments::parse(&arguments(&["load", "--help"]), &environment(), 1),
        Ok(Command::Help)
    ));
}

#[test]
fn small_parsers_are_exact() -> Result<(), LoadError> {
    assert_eq!(mebibytes(3)?, 3 << 20);
    assert!(mebibytes(1 << 44).is_err());
    assert_eq!(gibibytes(3)?, 3 << 30);
    assert!(gibibytes(1 << 34).is_err());
    let words = arguments(&["load", "12"]);
    assert_eq!(optional_u64(&words, 1, 5, "n")?, 12);
    assert_eq!(optional_u64(&words, 2, 5, "n")?, 5);
    assert_eq!(optional_usize(&words, 1, 5, "n")?, 12);
    assert_eq!(environment_u64("N", &None, 9)?, 9);
    assert_eq!(environment_u64("N", &Some("8".to_owned()), 9)?, 8);
    assert!(may_retry(59));
    assert!(!may_retry(60));
    Ok(())
}

#[test]
fn the_index_is_laid_out_for_the_chain() -> Result<(), LoadError> {
    let parsed = parse(&["load", "none"], &environment())?;
    let config = database_config(&parsed, 800_000)?;
    assert_eq!(config.mode, Mode::KeyMap);
    assert_eq!(config.bucket_count, 1 << 20);
    assert_eq!(config.body_capacity, 64 << 30);
    assert_eq!(config.block_size, 1 << 20);
    assert!(matches!(
        database_config(&parsed, 1 << 40),
        Err(LoadError::InvalidInput(
            "body capacity is too small for one output per block"
        ))
    ));
    assert!(matches!(
        database_config(&parsed, u64::MAX),
        Err(LoadError::InvalidInput("minimum body capacity overflow"))
    ));
    let crowded = parse(&["load", "none", "url", "tip", "60000", "6000"], &environment())?;
    assert!(matches!(
        database_config(&crowded, 1),
        Err(LoadError::InvalidInput("worker count exceeds database limit"))
    ));
    Ok(())
}

#[test]
fn the_tip_is_selected() {
    assert_eq!(select_tip(None, 100).unwrap(), 100);
    assert_eq!(select_tip(Some(7), 100).unwrap(), 7);
    for (requested, node, message) in [
        (Some(101), 100, "requested tip is above the Bitcoin Core tip"),
        (None, u64::MAX, "tip height overflow"),
        (
            None,
            1 << 32,
            "tip height does not fit the index value format",
        ),
    ] {
        assert_eq!(select_tip(requested, node).unwrap_err().message(), message);
    }
}

#[test]
fn statistics_add_up() {
    let mut producers = ProducerStats::new();
    producers.record(3, 100);
    producers.record(4, 200);
    assert_eq!(
        producers,
        ProducerStats {
            blocks: 2,
            outputs: 7,
            bytes: 300
        }
    );
    producers.merge(ProducerStats {
        blocks: u64::MAX,
        outputs: 1,
        bytes: 0,
    });
    assert_eq!(producers.blocks, u64::MAX);
    assert_eq!(producers.outputs, 8);
    let mut consumers = ConsumerStats::new();
    consumers.record(5);
    consumers.merge(ConsumerStats {
        blocks: 2,
        inputs: 1,
    });
    assert_eq!(
        consumers,
        ConsumerStats {
            blocks: 3,
            inputs: 6
        }
    );
}

#[test]
fn counts_are_compared() {
    assert!(check_balance(10, 10, 5, 2, 3).is_ok());
    for (consumed, outputs, inputs, live, message) in [
        (9, 5, 2, 3, "consumer frontier did not reach the selected tip"),
        (10, 1, 2, 3, "spent input count exceeds indexed output count"),
        (10, 5, 2, 4, "tracked live output count is inconsistent"),
    ] {
        assert_eq!(
            check_balance(consumed, 10, outputs, inputs, live)
                .unwrap_err()
                .message(),
            message
        );
    }
    let tip = "00ff".to_owned();
    let summary = |height: i64, best: &str, tx_outs: i64| CoreSummary {
        height,
        best_block: best.to_owned(),
        tx_outs,
    };
    assert!(check_core_utxo_set(&summary(9, "00ff", 4), &tip, 9, 4).is_ok());
    for (summary, message) in [
        (
            summary(8, "00ff", 4),
            "gettxoutsetinfo returned a different height",
        ),
        (
            summary(9, "ff00", 4),
            "gettxoutsetinfo returned a different tip",
        ),
        (
            summary(9, "00ff", 5),
            "UTXO count mismatch: index=4 core=5",
        ),
        (
            summary(9, "00ff", -1),
            "out of range integral type conversion attempted",
        ),
    ] {
        assert_eq!(
            check_core_utxo_set(&summary, &tip, 9, 4)
                .unwrap_err()
                .message(),
            message
        );
    }
}

#[test]
fn workers_wait_in_the_right_order() {
    assert!(matches!(may_index(4, 4, true), Ok(true)));
    assert!(matches!(may_index(3, 4, false), Ok(false)));
    assert!(matches!(
        may_index(3, 4, true),
        Err(LoadError::Interrupted("output indexing aborted"))
    ));
    assert!(matches!(consumed_below(5, 4, true), Ok(true)));
    assert!(matches!(consumed_below(3, 4, false), Ok(false)));
    assert!(matches!(
        consumed_below(3, 4, true),
        Err(LoadError::Interrupted("BIP30 wait aborted"))
    ));
}

#[test]
fn a_missing_outpoint_is_shown_like_the_outside_crate_does() {
    let mut bytes = [0_u8; 32];
    bytes[0] = 0xab;
    bytes[31] = 0x01;
    let outside = bitcoin::OutPoint::new(bitcoin::hashes::Hash::from_byte_array(bytes), 305);
    let error = LoadError::MissingOutpoint(OutPoint {
        txid: bytes,
        vout: 305,
    });
    assert_eq!(
        error.message(),
        format!("input references missing outpoint {outside}")
    );
}

#[test]
fn the_frontier_moves_past_the_block_it_stands_at() {
    assert!(matches!(advance_frontier(7, 7), Ok(8)));
    assert!(matches!(
        advance_frontier(8, 7),
        Err(LoadError::Inconsistent(
            "output indexing frontier changed unexpectedly"
        ))
    ));
    assert!(advance_frontier(6, 7).is_err());
}
