//! Hazard slots and the retirement queue.

use floresta_db::hazard::{HazardRegistry, RetireQueue};
use floresta_db::Error;

#[test]
fn protects_offsets_until_a_guard_clears() -> Result<(), Error> {
    let mut registry = HazardRegistry::new(1);
    let guard = registry.acquire()?;
    guard.protect(&mut registry, 0, 42)?;
    assert!(registry.contains(42));
    guard.clear(&mut registry)?;
    assert!(!registry.contains(42));
    Ok(())
}

#[test]
fn delays_and_then_reclaims_published_offsets() -> Result<(), Error> {
    let mut registry = HazardRegistry::new(1);
    let mut retired = RetireQueue::new(1);
    let guard = registry.acquire()?;
    guard.protect(&mut registry, 1, 9)?;
    retired.reserve(9)?.commit(&mut retired)?;
    assert_eq!(retired.reclaim(&registry, |_offset| Ok(()))?, 0);
    guard.clear(&mut registry)?;
    let mut released = 0;
    assert_eq!(
        retired.reclaim(&registry, |offset| {
            released = offset;
            Ok(())
        })?,
        1
    );
    assert_eq!(released, 9);
    Ok(())
}

#[test]
fn failed_release_remains_queued_for_retry() -> Result<(), Error> {
    let registry = HazardRegistry::new(1);
    let mut retired = RetireQueue::new(1);
    retired.reserve(11)?.commit(&mut retired)?;
    assert!(matches!(
        retired.reclaim(&registry, |_offset| Err(Error::Corrupt(
            "injected release failure"
        ))),
        Err(Error::Corrupt(_))
    ));
    let mut released = 0;
    assert_eq!(
        retired.reclaim(&registry, |offset| {
            released = offset;
            Ok(())
        })?,
        1
    );
    assert_eq!(released, 11);
    Ok(())
}

#[test]
fn dropped_reservation_returns_its_slot_without_publication() -> Result<(), Error> {
    let registry = HazardRegistry::new(1);
    let mut retired = RetireQueue::new(1);
    retired.reserve(13)?.cancel(&mut retired);
    assert_eq!(retired.reclaim(&registry, |_offset| Ok(()))?, 0);
    retired.reserve(14)?.commit(&mut retired)?;
    assert_eq!(retired.reclaim(&registry, |_offset| Ok(()))?, 1);
    Ok(())
}

#[test]
fn occupied_slots_and_full_queues_are_busy() -> Result<(), Error> {
    let mut registry = HazardRegistry::new(1);
    let guard = registry.acquire()?;
    assert!(matches!(registry.acquire(), Err(Error::Busy(_))));
    guard.protect(&mut registry, 0, 5)?;
    guard.release(&mut registry);
    assert!(!registry.contains(5));
    assert!(registry.acquire().is_ok());

    let mut retired = RetireQueue::new(1);
    assert!(matches!(retired.reserve(0), Err(Error::Corrupt(_))));
    for offset in 1..=12 {
        retired.reserve(offset)?.commit(&mut retired)?;
    }
    assert!(matches!(retired.reserve(13), Err(Error::Busy(_))));
    Ok(())
}

#[test]
fn foreign_guards_are_rejected() -> Result<(), Error> {
    let mut large = HazardRegistry::new(2);
    let mut small = HazardRegistry::new(1);
    let _first = large.acquire()?;
    let second = large.acquire()?;
    assert!(matches!(
        second.protect(&mut small, 0, 1),
        Err(Error::Corrupt("hazard owner index is out of range"))
    ));
    assert!(matches!(
        second.clear(&mut small),
        Err(Error::Corrupt("hazard owner index is out of range"))
    ));
    assert!(matches!(
        second.protect(&mut large, 2, 1),
        Err(Error::Corrupt("hazard index is out of range"))
    ));
    Ok(())
}

#[test]
fn reclaims_what_it_can_and_reports_the_first_refusal() -> Result<(), Error> {
    let mut registry = HazardRegistry::new(1);
    let guard = registry.acquire()?;
    let mut retired = RetireQueue::new(1);
    for offset in [21, 22, 23, 24] {
        retired.reserve(offset)?.commit(&mut retired)?;
    }
    guard.protect(&mut registry, 0, 24)?;
    let refused = retired.reclaim(&registry, |offset| match offset {
        22 => Err(Error::Corrupt("second")),
        23 => Err(Error::Corrupt("third")),
        _ => Ok(()),
    });
    assert!(matches!(refused, Err(Error::Corrupt("second"))));
    guard.release(&mut registry);
    let mut seen = 0;
    let count = retired.reclaim(&registry, |offset| {
        seen += offset;
        Ok(())
    })?;
    assert_eq!(count, 3);
    assert_eq!(seen, 22 + 23 + 24);
    Ok(())
}

#[test]
fn protection_lasts_through_any_history_of_calls() -> Result<(), Error> {
    let mut registry = HazardRegistry::new(2);
    let first = registry.acquire()?;
    let second = registry.acquire()?;
    first.protect(&mut registry, 0, 5)?;
    second.protect(&mut registry, 1, 5)?;
    first.protect(&mut registry, 0, 6)?;
    assert!(registry.contains(5));
    assert!(registry.contains(6));
    second.clear(&mut registry)?;
    assert!(!registry.contains(5));
    assert!(registry.contains(6));
    first.protect(&mut registry, 1, 7)?;
    first.clear(&mut registry)?;
    assert!(!registry.contains(6));
    assert!(!registry.contains(7));
    Ok(())
}

#[test]
fn published_offsets_are_released_once_each_in_slot_order() -> Result<(), Error> {
    let mut registry = HazardRegistry::new(1);
    let mut retired = RetireQueue::new(4);
    for offset in [30, 10, 40, 20] {
        retired.reserve(offset)?.commit(&mut retired)?;
    }
    let guard = registry.acquire()?;
    guard.protect(&mut registry, 0, 40)?;
    let mut released = Vec::new();
    let count = retired.reclaim(&registry, |offset| {
        released.push(offset);
        Ok(())
    })?;
    assert_eq!(count, 3);
    assert_eq!(released, vec![30, 10, 20]);
    Ok(())
}
