//! Which page an allocation is taken from.

use vstd::prelude::*;

#[allow(unused_imports)]
use super::{batch_outcome, release_defect, Allocation, AllocationBatch};
#[allow(unused_imports)]
use crate::accounting::{
    accounts, counted, lemma_claimed, lemma_continued, lemma_entries, lemma_free_page_found,
    lemma_grown, on_page,
};
#[allow(unused_imports)]
use crate::layout::{lemma_round_up, round_up};
#[allow(unused_imports)]
use crate::pages::{
    free_page, lemma_claimed_step, lemma_free_page, lemma_free_page_is_free, longest_within,
    zero_run, Pages, CLAIMED, MAX_LIVE,
};

verus! {

/// Whether `length` pages from `start` on are without live allocations.
pub open spec fn empty_run(pages: Pages, start: int, length: int) -> bool {
    &&& 0 <= start
    &&& start + length <= pages.high_water
    &&& forall|i: int| start <= i < start + length ==> #[trigger] counted(pages, i) == 0
}

/// Bytes that a request for up to `maximum` allocations asks for.
pub open spec fn requested_bytes(length: int, alignment: int, maximum: int) -> int {
    round_up(length, alignment) * (if maximum < 65_534 {
        maximum
    } else {
        65_534
    })
}

/// Allocations come from the open page as long as it has room. Then comes the page behind
/// it, if that is empty; then the first page of the longest run of empty pages, the first
/// of several; then the first page that was never used, when the files have grown by as
/// many pages as the request needs and the capacity allows.
pub proof fn law_page_is_chosen(
    pages: Pages,
    live: Map<int, int>,
    length: int,
    alignment: int,
    maximum: int,
)
    requires
        accounts(pages, live),
        0 < length,
        0 < maximum,
        batch_outcome(pages, length, alignment, maximum).1 is Ok,
    ensures
        ({
            let (after, result) = batch_outcome(pages, length, alignment, maximum);
            let block = after.open->0.block as int;
            let opened = pages.open->0;
            let bytes = requested_bytes(length, alignment, maximum);
            let grown = after.high_water - pages.high_water;
            &&& after.open is Some
            &&& result->Ok_0.block == block
            &&& if pages.open is Some && opened.live < 65_534 && round_up(
                opened.used as int,
                alignment,
            ) + length <= pages.block_size {
                block == opened.block && grown == 0
            } else if pages.open is Some && empty_run(pages, opened.block + 1, 1) {
                block == opened.block + 1 && grown == 0
            } else if exists|page: int| #[trigger] empty_run(pages, page, 1) {
                &&& grown == 0
                &&& empty_run(pages, block, 1)
                &&& forall|start: int, n: int| #[trigger]
                    empty_run(pages, start, n) ==> empty_run(pages, block, n)
                &&& forall|start: int, n: int| #[trigger]
                    empty_run(pages, start, n) && n > 0 && !empty_run(pages, block, n + 1) ==> block
                        <= start
            } else {
                &&& block == pages.high_water
                &&& grown > 0
                &&& grown == 1 || (grown - 1) * pages.block_size < bytes
                &&& after.high_water < pages.block_count ==> grown * pages.block_size >= bytes
            }
        }),
{
    let stride = round_up(length, alignment);
    let requested = if maximum < MAX_LIVE {
        maximum
    } else {
        MAX_LIVE as int
    };
    let bytes = stride * requested;
    let next = pages.continued();
    if !pages.fits(length, alignment) {
        lemma_continued(pages, live);
        lemma_entries(pages.high_water);
        if pages.open is Some {
            let behind = pages.open->0.block + 1;
            assert(empty_run(pages, behind, 1) <==> behind < pages.high_water
                && pages.counts[behind] == 0) by {
                if behind < pages.high_water && pages.counts[behind] == 0 {
                    assert(counted(pages, behind) == 0);
                }
                if empty_run(pages, behind, 1) {
                    assert(counted(pages, behind) == 0);
                }
            }
        }
        if next.open is None {
            let used = next.counts.take(next.high_water);
            assert forall|i: int| 0 <= i < pages.high_water implies #[trigger] used[i] == counted(
                pages,
                i,
            ) by {}
            assert forall|i: int| 0 <= i < used.len() implies used[i] != CLAIMED by {
                assert(on_page(pages, live, i).len() == counted(pages, i));
            }
            lemma_claimed_step(next, bytes);
            lemma_claimed(next, live, bytes);
            if exists|page: int| #[trigger] empty_run(pages, page, 1) {
                let page = choose|page: int| #[trigger] empty_run(pages, page, 1);
                assert(counted(pages, page) == 0);
                assert(used[page] == 0);
                lemma_free_page_found(used, page);
                lemma_longest(pages, used);
            } else {
                if free_page(used) is Some {
                    lemma_free_page_is_free(used);
                    let block = free_page(used)->0;
                    assert(counted(pages, block) == 0);
                    assert(empty_run(pages, block, 1));
                }
                lemma_grown(next, live, bytes);
                assert forall|i: int| 0 <= i < next.high_water implies #[trigger] next.counts[i]
                    != 0 && next.counts[i] != CLAIMED by {
                    assert(used[i] == counted(pages, i));
                    if used[i] == 0 {
                        assert(empty_run(pages, i, 1));
                    }
                }
                lemma_first_new(next, bytes);
                lemma_grown_by(next, bytes);
            }
        }
    }
}

/// The free page starts the longest run.
proof fn lemma_longest(pages: Pages, used: Seq<u16>)
    requires
        used.len() == pages.high_water,
        forall|i: int| 0 <= i < used.len() ==> #[trigger] used[i] == counted(pages, i),
        forall|i: int| 0 <= i < used.len() ==> #[trigger] used[i] != CLAIMED,
        free_page(used) is Some,
    ensures
        ({
            let block = free_page(used)->0;
            &&& empty_run(pages, block, 1)
            &&& forall|start: int, n: int| #[trigger]
                empty_run(pages, start, n) ==> empty_run(pages, block, n)
            &&& forall|start: int, n: int| #[trigger]
                empty_run(pages, start, n) && n > 0 && !empty_run(pages, block, n + 1) ==> block
                    <= start
        }),
{
    let (block, length) = choose|start: int, length: int|
        longest_within(used, used.len() as int, start, length);
    assert(longest_within(used, used.len() as int, block, length));
    assert forall|i: int| block <= i < block + length implies #[trigger] counted(pages, i) == 0 by {
        assert(used[i] == 0);
    }
    assert(empty_run(pages, block, length));
    assert forall|start: int, n: int| #[trigger] empty_run(pages, start, n) implies empty_run(
        pages,
        block,
        n,
    ) && (n > 0 && !empty_run(pages, block, n + 1) ==> block <= start) by {
        if n > 0 {
            let first = lemma_run_start(pages, used, start, n);
            assert(zero_run(used, first, n + (start - first)));
        }
    }
}

/// Where the run of empty pages around some of them starts.
proof fn lemma_run_start(pages: Pages, used: Seq<u16>, start: int, n: int) -> (first: int)
    requires
        used.len() == pages.high_water,
        forall|i: int| 0 <= i < used.len() ==> #[trigger] used[i] == counted(pages, i),
        forall|i: int| 0 <= i < used.len() ==> #[trigger] used[i] != CLAIMED,
        empty_run(pages, start, n),
        n > 0,
    ensures
        0 <= first <= start,
        zero_run(used, first, n + (start - first)),
    decreases start,
{
    if start == 0 || used[start - 1] != 0 {
        assert forall|i: int| start <= i < start + n implies #[trigger] used[i] == 0 by {
            assert(counted(pages, i) == 0);
        }
        start
    } else {
        assert forall|i: int| start - 1 <= i < start + n implies #[trigger] counted(pages, i)
            == 0 by {
            assert(used[i] == counted(pages, i));
        }
        lemma_run_start(pages, used, start - 1, n + 1)
    }
}

/// Where no page is empty, the first new page is claimed after growth.
proof fn lemma_first_new(next: Pages, bytes: int)
    requires
        next.wf(),
        next.open is None,
        next.high_water < next.block_count,
        next.growth(bytes) > 0,
        forall|i: int|
            0 <= i < next.high_water ==> #[trigger] next.counts[i] != 0 && next.counts[i]
                != CLAIMED,
        forall|i: int|
            next.high_water <= i < next.counts.len() ==> #[trigger] next.counts[i] == 0,
    ensures
        next.grown(bytes).claimed(bytes) == next.grown(bytes).opened(next.high_water),
{
    let grown = next.grown(bytes);
    let used = grown.counts.take(grown.high_water);
    let more = next.growth(bytes);
    lemma_entries(next.high_water);
    lemma_entries(grown.high_water);
    lemma_claimed_step(grown, bytes);
    assert forall|i: int| 0 <= i < used.len() implies #[trigger] used[i] == (if i
        < next.high_water {
        next.counts[i]
    } else {
        0
    }) by {}
    assert(zero_run(used, next.high_water, more));
    assert forall|s: int, n: int| #[trigger] zero_run(used, s, n) && s + n <= used.len() implies n
        < more || (n == more && next.high_water <= s) by {
        assert(used[s] == 0);
        if s > next.high_water {
            assert(used[s - 1] == 0);
        }
    }
    assert(longest_within(used, used.len() as int, next.high_water, more));
    lemma_free_page(used, next.high_water, more);
}

/// The files grow by as many pages as a request needs.
proof fn lemma_grown_by(pages: Pages, bytes: int)
    requires
        pages.wf(),
        pages.high_water < pages.block_count,
    ensures
        ({
            let grown = pages.growth(bytes);
            &&& 0 < grown <= pages.block_count - pages.high_water
            &&& grown == 1 || (grown - 1) * pages.block_size < bytes
            &&& grown < pages.block_count - pages.high_water ==> grown * pages.block_size >= bytes
        }),
{
    let size = pages.block_size;
    let wanted = (bytes + size - 1) / size;
    let grown = pages.growth(bytes);
    lemma_round_up(bytes, size);
    assert((wanted - 1) * size == wanted * size - size) by (nonlinear_arith);
    if wanted < 1 {
        assert(wanted * size <= 0) by (nonlinear_arith)
            requires
                wanted < 1,
                size > 0,
        ;
    } else if grown < wanted {
        assert((grown - 1) * size <= (wanted - 1) * size) by (nonlinear_arith)
            requires
                grown <= wanted,
                size > 0,
        ;
    }
}

/// An allocation is released exactly where it lies in the pages, on the page that it names
/// and on no other, and the page has allocations to release.
pub proof fn law_release_is_checked(pages: Pages, allocation: Allocation)
    requires
        pages.wf(),
        allocation.length > 0,
    ensures
        release_defect(pages, allocation) is None <==> {
            let (at, length) = (allocation.offset as int, allocation.length as int);
            let block = allocation.block as int;
            &&& 65_536 <= at
            &&& at + length <= 65_536 + pages.block_count * pages.block_size
            &&& (at - 65_536) / pages.block_size == block
            &&& (at + length - 1 - 65_536) / pages.block_size == block
            &&& if pages.open is Some && pages.open->0.block == block {
                pages.open->0.live > 0
            } else {
                block < pages.counts.len() && 0 < pages.counts[block] < 0xffff
            }
        },
{
    vstd::arithmetic::mul::lemma_mul_upper_bound(
        pages.block_count,
        u32::MAX as int,
        pages.block_size,
        u32::MAX as int,
    );
}

/// A release counts one allocation less on its page, and leaves every other page.
pub proof fn law_release_counts_down(pages: Pages, block: int, other: int)
    requires
        pages.wf(),
        0 <= block < pages.counts.len(),
        0 <= other < pages.counts.len(),
        counted(pages, block) > 0,
    ensures
        counted(pages.released(block), other) == (if other == block {
            counted(pages, block) - 1
        } else {
            counted(pages, other)
        }),
        pages.released(block).high_water == pages.high_water,
{
}

/// The allocations of a batch stand one stride apart, each of the length of the batch and
/// on its page.
pub proof fn law_batch_in_order(batch: AllocationBatch, index: int)
    requires
        batch.wf(),
        0 <= index < batch.count,
    ensures
        batch.spec_nth(index).offset == batch.offset + index * batch.stride,
        batch.spec_nth(index).length == batch.length,
        batch.spec_nth(index).block == batch.block,
{
    vstd::arithmetic::mul::lemma_mul_inequality(index, batch.count as int, batch.stride as int);
    vstd::arithmetic::mul::lemma_mul_nonnegative(index, batch.stride as int);
}

} // verus!
