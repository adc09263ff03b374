//! Counting what was loaded, and comparing the counts.

use vstd::prelude::*;

use super::LoadError;

verus! {

/// The sum of two counts, or the largest count.
pub open spec fn saturated(one: u64, two: u64) -> u64 {
    if one + two > u64::MAX {
        u64::MAX
    } else {
        (one + two) as u64
    }
}

/// What the fetching workers did.
#[derive(Clone, Copy, Debug, PartialEq, Eq, Structural)]
pub struct ProducerStats {
    pub blocks: u64,
    pub outputs: u64,
    pub bytes: u64,
}

/// What the spending workers did.
#[derive(Clone, Copy, Debug, PartialEq, Eq, Structural)]
pub struct ConsumerStats {
    pub blocks: u64,
    pub inputs: u64,
}

impl ProducerStats {
    /// Counts nothing.
    pub fn new() -> (stats: ProducerStats)
        ensures
            stats == (ProducerStats { blocks: 0, outputs: 0, bytes: 0 }),
    {
        ProducerStats { blocks: 0, outputs: 0, bytes: 0 }
    }

    /// Adds the counts of another worker.
    pub fn merge(&mut self, other: ProducerStats)
        ensures
            *final(self) == (ProducerStats {
                blocks: saturated(old(self).blocks, other.blocks),
                outputs: saturated(old(self).outputs, other.outputs),
                bytes: saturated(old(self).bytes, other.bytes),
            }),
    {
        self.blocks = self.blocks.saturating_add(other.blocks);
        self.outputs = self.outputs.saturating_add(other.outputs);
        self.bytes = self.bytes.saturating_add(other.bytes);
    }

    /// Counts one more block.
    pub fn record(&mut self, outputs: u64, bytes: usize)
        ensures
            *final(self) == (ProducerStats {
                blocks: saturated(old(self).blocks, 1),
                outputs: saturated(old(self).outputs, outputs),
                bytes: saturated(old(self).bytes, bytes as u64),
            }),
    {
        self.merge(ProducerStats { blocks: 1, outputs, bytes: bytes as u64 });
    }
}

impl ConsumerStats {
    /// Counts nothing.
    pub fn new() -> (stats: ConsumerStats)
        ensures
            stats == (ConsumerStats { blocks: 0, inputs: 0 }),
    {
        ConsumerStats { blocks: 0, inputs: 0 }
    }

    /// Adds the counts of another worker.
    pub fn merge(&mut self, other: ConsumerStats)
        ensures
            *final(self) == (ConsumerStats {
                blocks: saturated(old(self).blocks, other.blocks),
                inputs: saturated(old(self).inputs, other.inputs),
            }),
    {
        self.blocks = self.blocks.saturating_add(other.blocks);
        self.inputs = self.inputs.saturating_add(other.inputs);
    }

    /// Counts one more block.
    pub fn record(&mut self, inputs: u64)
        ensures
            *final(self) == (ConsumerStats {
                blocks: saturated(old(self).blocks, 1),
                inputs: saturated(old(self).inputs, inputs),
            }),
    {
        self.merge(ConsumerStats { blocks: 1, inputs });
    }
}

/// Whether the outputs of a block may be indexed now: those of every lower
/// block have to be.
pub fn may_index(frontier: u64, height: u64, aborted: bool) -> (result: Result<bool, LoadError>)
    ensures
        result == (if frontier == height {
            Ok::<bool, LoadError>(true)
        } else if aborted {
            Err(LoadError::Interrupted("output indexing aborted"))
        } else {
            Ok(false)
        }),
{
    if frontier == height {
        Ok(true)
    } else if aborted {
        Err(LoadError::Interrupted("output indexing aborted"))
    } else {
        Ok(false)
    }
}

/// Moves the frontier of indexed blocks past `height`, where it still stands there.
pub fn advance_frontier(frontier: u64, height: u64) -> (result: Result<u64, LoadError>)
    requires
        height < u64::MAX,
    ensures
        result == (if frontier != height {
            Err::<u64, LoadError>(
                LoadError::Inconsistent("output indexing frontier changed unexpectedly"),
            )
        } else {
            Ok((height + 1) as u64)
        }),
{
    if frontier != height {
        return Err(LoadError::Inconsistent("output indexing frontier changed unexpectedly"));
    }
    Ok(height + 1)
}

/// Whether every block below `height` is consumed.
pub fn consumed_below(consumed: u64, height: u64, aborted: bool) -> (result: Result<
    bool,
    LoadError,
>)
    ensures
        result == (if consumed >= height {
            Ok::<bool, LoadError>(true)
        } else if aborted {
            Err(LoadError::Interrupted("BIP30 wait aborted"))
        } else {
            Ok(false)
        }),
{
    if consumed >= height {
        Ok(true)
    } else if aborted {
        Err(LoadError::Interrupted("BIP30 wait aborted"))
    } else {
        Ok(false)
    }
}

/// Checks that every block was consumed, and that the live outputs are those
/// that were added and not spent.
pub fn check_balance(
    consumed: u64,
    end_height: u64,
    outputs: u64,
    inputs: u64,
    live_outputs: u64,
) -> (result: Result<(), LoadError>)
    ensures
        result == (if consumed != end_height {
            Err::<(), LoadError>(
                LoadError::Inconsistent("consumer frontier did not reach the selected tip"),
            )
        } else if inputs > outputs {
            Err(LoadError::Inconsistent("spent input count exceeds indexed output count"))
        } else if outputs - inputs != live_outputs {
            Err(LoadError::Inconsistent("tracked live output count is inconsistent"))
        } else {
            Ok(())
        }),
{
    if consumed != end_height {
        return Err(LoadError::Inconsistent("consumer frontier did not reach the selected tip"));
    }
    if inputs > outputs {
        return Err(LoadError::Inconsistent("spent input count exceeds indexed output count"));
    }
    if outputs - inputs != live_outputs {
        return Err(LoadError::Inconsistent("tracked live output count is inconsistent"));
    }
    Ok(())
}

/// What Bitcoin Core reports of its unspent outputs.
pub struct CoreSummary {
    pub height: i64,
    pub best_block: String,
    pub tx_outs: i64,
}

/// Checks the index against what Bitcoin Core reports.
pub fn check_core_utxo_set(
    summary: &CoreSummary,
    expected_tip: &String,
    expected_height: u64,
    indexed_outputs: u64,
) -> (result: Result<(), LoadError>)
    ensures
        result == (if expected_height > i64::MAX {
            Err::<(), LoadError>(
                LoadError::InvalidInput("out of range integral type conversion attempted"),
            )
        } else if summary.height != expected_height {
            Err(LoadError::Inconsistent("gettxoutsetinfo returned a different height"))
        } else if summary.best_block@ != expected_tip@ {
            Err(LoadError::Inconsistent("gettxoutsetinfo returned a different tip"))
        } else if summary.tx_outs < 0 {
            Err(LoadError::InvalidInput("out of range integral type conversion attempted"))
        } else if summary.tx_outs != indexed_outputs {
            Err(
                LoadError::CountMismatch {
                    index: indexed_outputs,
                    core: summary.tx_outs as u64,
                },
            )
        } else {
            Ok(())
        }),
{
    if expected_height > i64::MAX as u64 {
        return Err(LoadError::InvalidInput("out of range integral type conversion attempted"));
    }
    if summary.height != expected_height as i64 {
        return Err(LoadError::Inconsistent("gettxoutsetinfo returned a different height"));
    }
    if summary.best_block != *expected_tip {
        return Err(LoadError::Inconsistent("gettxoutsetinfo returned a different tip"));
    }
    if summary.tx_outs < 0 {
        return Err(LoadError::InvalidInput("out of range integral type conversion attempted"));
    }
    let core: u64 = summary.tx_outs as u64;
    if core != indexed_outputs {
        return Err(LoadError::CountMismatch { index: indexed_outputs, core });
    }
    Ok(())
}

/// Counts add up as far as 64 bits go, and stay there.
pub proof fn law_counts_saturate(one: u64, two: u64)
    ensures
        one + two <= 0xffff_ffff_ffff_ffff ==> saturated(one, two) == one + two,
        one + two > 0xffff_ffff_ffff_ffff ==> saturated(one, two) == 0xffff_ffff_ffff_ffff,
{
}

} // verus!
