//! The block ring.

use floresta_db::load::LoadError;
use floresta_db::ring::{BlockRing, Claim, ConsumeLease, FetchLease, RingWrite};

fn fetch(ring: &mut BlockRing) -> FetchLease {
    match ring.claim_fetch() {
        Ok(Claim::Leased(lease)) => lease,
        other => panic!("no fetch lease: {other:?}"),
    }
}

fn consume(ring: &mut BlockRing) -> ConsumeLease {
    match ring.claim_consume() {
        Ok(Claim::Leased(lease)) => lease,
        other => panic!("no consume lease: {other:?}"),
    }
}

fn store(file: &mut [u8], write: RingWrite) {
    let at = write.offset as usize;
    file[at..at + write.record.len()].copy_from_slice(&write.record);
}

fn record<'f>(ring: &BlockRing, file: &'f [u8], lease: ConsumeLease) -> &'f [u8] {
    let at = ring.slot_offset(lease.index).unwrap() as usize;
    &file[at..at + ring.slot_bytes as usize]
}

#[test]
fn advances_only_contiguous_frontiers_and_reuses_slots() -> Result<(), LoadError> {
    let mut ring = BlockRing::create(0, 4, 2, 128)?;
    let mut file = vec![0_u8; ring.file_length() as usize];
    assert_eq!(file.len(), 256);

    let fetch_zero = fetch(&mut ring);
    let fetch_one = fetch(&mut ring);
    store(&mut file, ring.write_fetch(fetch_one, b"one")?);
    ring.publish_fetch(fetch_one, 3)?;
    assert_eq!(ring.produced_next, 0);
    store(&mut file, ring.write_fetch(fetch_zero, b"zero")?);
    ring.publish_fetch(fetch_zero, 4)?;
    assert_eq!(ring.produced_next, 2);

    let consume_zero = consume(&mut ring);
    let consume_one = consume(&mut ring);
    assert_eq!(
        ring.read_consume(consume_zero, record(&ring, &file, consume_zero))?,
        b"zero"
    );
    assert_eq!(
        ring.read_consume(consume_one, record(&ring, &file, consume_one))?,
        b"one"
    );
    ring.finish_consume(consume_one)?;
    assert_eq!(ring.consumed_height(), 0);
    ring.finish_consume(consume_zero)?;
    assert_eq!(ring.consumed_height(), 2);

    let fetch_two = fetch(&mut ring);
    assert_eq!(fetch_two.height, 2);
    Ok(())
}

#[test]
fn rejects_impossible_layouts() {
    for (start, end, capacity, slot, message) in [
        (4, 4, 2, 128, "ring height range must be nonempty"),
        (0, 4, 0, 128, "ring capacity must be nonzero"),
        (0, 4, 2, 32, "ring slot cannot hold its record header"),
        (0, 4, u64::MAX, 128, "ring file length overflow"),
    ] {
        match BlockRing::create(start, end, capacity, slot) {
            Err(LoadError::InvalidInput(text)) => assert_eq!(text, message),
            _ => panic!("accepted {message}"),
        }
    }
}

#[test]
fn workers_wait_for_each_other_and_stop_at_the_end() -> Result<(), LoadError> {
    let mut ring = BlockRing::create(7, 9, 1, 64)?;
    assert!(matches!(ring.claim_consume(), Ok(Claim::Pending)));
    let lease = fetch(&mut ring);
    assert_eq!(lease.height, 7);
    assert!(matches!(ring.claim_fetch(), Ok(Claim::Pending)));
    ring.publish_fetch(lease, 0)?;
    let reading = consume(&mut ring);
    assert!(matches!(ring.claim_consume(), Ok(Claim::Pending)));
    ring.finish_consume(reading)?;
    let lease = fetch(&mut ring);
    assert_eq!(lease.height, 8);
    assert!(matches!(ring.claim_fetch(), Ok(Claim::Finished)));
    ring.publish_fetch(lease, 0)?;
    let reading = consume(&mut ring);
    ring.finish_consume(reading)?;
    assert!(matches!(ring.claim_consume(), Ok(Claim::Finished)));
    assert_eq!(ring.consumed_height(), 9);
    Ok(())
}

#[test]
fn an_aborted_ring_hands_nothing_out() -> Result<(), LoadError> {
    let mut ring = BlockRing::create(0, 4, 2, 128)?;
    assert!(!ring.is_aborted());
    ring.abort();
    assert!(ring.is_aborted());
    assert!(matches!(ring.claim_fetch(), Err(LoadError::Interrupted(_))));
    assert!(matches!(
        ring.claim_consume(),
        Err(LoadError::Interrupted(_))
    ));
    Ok(())
}

#[test]
fn stale_leases_and_large_blocks_are_rejected() -> Result<(), LoadError> {
    let mut ring = BlockRing::create(0, 8, 2, 64)?;
    let lease = fetch(&mut ring);
    assert!(matches!(
        ring.write_fetch(lease, &[0; 33]),
        Err(LoadError::InvalidInput("serialized block exceeds ring slot size"))
    ));
    assert!(ring.write_fetch(lease, &[0; 32]).is_ok());
    ring.publish_fetch(lease, 32)?;
    assert!(matches!(
        ring.write_fetch(lease, b"again"),
        Err(LoadError::InvalidData("fetch lease does not own its ring slot"))
    ));
    assert!(matches!(
        ring.publish_fetch(lease, 5),
        Err(LoadError::InvalidData("ring slot length was already published"))
    ));
    let reading = consume(&mut ring);
    ring.finish_consume(reading)?;
    assert!(matches!(
        ring.finish_consume(reading),
        Err(LoadError::InvalidData("ring slot left the reading state"))
    ));
    assert!(matches!(
        ring.publish_fetch(lease, 5),
        Err(LoadError::InvalidData("ring slot left the writing state"))
    ));
    let foreign = FetchLease {
        height: 0,
        index: 2,
    };
    assert!(matches!(
        ring.write_fetch(foreign, b""),
        Err(LoadError::InvalidData("ring slot index is out of range"))
    ));
    Ok(())
}

#[test]
fn damaged_records_are_found() -> Result<(), LoadError> {
    let mut ring = BlockRing::create(3, 8, 2, 128)?;
    let lease = fetch(&mut ring);
    let write = ring.write_fetch(lease, b"block bytes")?;
    assert_eq!(write.offset, 128);
    ring.publish_fetch(lease, 11)?;
    let reading = consume(&mut ring);
    let good = write.record;
    assert_eq!(ring.read_consume(reading, &good)?, b"block bytes");

    let damaged = |at: usize| {
        let mut record = good.clone();
        record[at] ^= 1;
        ring.read_consume(reading, &record)
    };
    for at in [0, 8] {
        assert!(matches!(
            damaged(at),
            Err(LoadError::InvalidData("ring record header is invalid"))
        ));
    }
    assert!(matches!(
        damaged(16),
        Err(LoadError::InvalidData("ring record length is invalid"))
    ));
    for at in [24, 32, 42] {
        assert!(matches!(
            damaged(at),
            Err(LoadError::InvalidData("ring record checksum does not match"))
        ));
    }
    for length in [0, 31, 42] {
        assert!(matches!(
            ring.read_consume(reading, &good[..length]),
            Err(LoadError::Truncated(_))
        ));
    }
    Ok(())
}
