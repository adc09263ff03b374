//! How many allocations there is room for.

use vstd::prelude::*;

#[allow(unused_imports)]
use super::{batch_outcome, law_allocations_apart, lemma_readied_fits, lemma_reserved};
#[allow(unused_imports)]
use crate::accounting::{
    accounts, lemma_claimed, lemma_continued, lemma_entries, lemma_grown, with_batch,
};
#[allow(unused_imports)]
use crate::layout::{lemma_round_up, power_of_two, round_up};
#[allow(unused_imports)]
use crate::pages::{free_page, lemma_claimed_step, lemma_free_page_is_free, Pages, MAX_LIVE};

verus! {

/// The pages that nothing is allocated on and that are not open.
pub open spec fn vacant(pages: Pages) -> Set<int> {
    Set::new(
        |block: int|
            {
                &&& 0 <= block < pages.block_count
                &&& !(pages.open matches Some(page) && page.block == block)
                &&& block >= pages.high_water || pages.counts[block] == 0
            },
    )
}

/// How many nodes of 32 bytes one page holds.
pub open spec fn nodes_per_page(block_size: int) -> int {
    if block_size / 32 < 65_534 {
        block_size / 32
    } else {
        65_534
    }
}

/// How many more nodes the open page holds.
pub open spec fn nodes_left(pages: Pages) -> int {
    match pages.open {
        None => 0,
        Some(page) => {
            let room = (pages.block_size - round_up(page.used as int, 32)) / 32;
            if room < 65_534 - page.live {
                room
            } else {
                65_534 - page.live
            }
        },
    }
}

/// How many more nodes of 32 bytes there is room for: on the open page, and on every
/// page that nothing is allocated on.
pub open spec fn node_places(pages: Pages) -> int {
    nodes_left(pages) + vacant(pages).len() * nodes_per_page(pages.block_size)
}

/// There are no more vacant pages than pages.
pub proof fn lemma_vacant(pages: Pages)
    requires
        0 <= pages.block_count,
    ensures
        vacant(pages).finite(),
        vacant(pages).len() <= pages.block_count,
{
    vstd::set_lib::lemma_int_range(0, pages.block_count);
    vstd::set_lib::lemma_len_subset(
        vacant(pages),
        vstd::set_lib::set_int_range(0, pages.block_count),
    );
}

/// Before anything is allocated every page is vacant.
pub proof fn lemma_all_vacant(pages: Pages)
    requires
        0 <= pages.block_count,
        pages.high_water == 0,
        pages.open is None,
    ensures
        vacant(pages).len() == pages.block_count,
{
    vstd::set_lib::lemma_int_range(0, pages.block_count);
    assert(vacant(pages) =~= vstd::set_lib::set_int_range(0, pages.block_count));
}

/// Claiming a page takes one vacant page.
proof fn lemma_claimed_vacant(pages: Pages, live: Map<int, int>, bytes: int)
    requires
        accounts(pages, live),
        pages.open is None,
    ensures
        pages.claimed(bytes).open matches Some(page) ==> vacant(pages.claimed(bytes)) == vacant(
            pages,
        ).remove(page.block as int),
    decreases pages.block_count - pages.high_water,
{
    lemma_claimed_step(pages, bytes);
    let counts = pages.counts.take(pages.high_water);
    lemma_free_page_is_free(counts);
    lemma_entries(pages.high_water);
    match free_page(counts) {
        Some(block) => {
            assert(vacant(pages.opened(block)) =~= vacant(pages).remove(block));
        },
        None => if pages.high_water < pages.block_count {
            let after = pages.grown(bytes);
            lemma_grown(pages, live, bytes);
            lemma_entries(after.high_water);
            lemma_claimed_vacant(after, live, bytes);
            assert(vacant(after) =~= vacant(pages));
        },
    }
}

/// Where the open page has no room, an unused page is opened as long as one is vacant.
proof fn lemma_readied_vacant(
    pages: Pages,
    live: Map<int, int>,
    length: int,
    alignment: int,
    bytes: int,
)
    requires
        accounts(pages, live),
        !pages.fits(length, alignment),
        vacant(pages).len() > 0,
    ensures
        ({
            let ready = pages.readied(length, alignment, bytes);
            &&& ready.open matches Some(page) && page.used == 0 && page.live == 0
            &&& vacant(ready).len() >= vacant(pages).len() - 1
            &&& ready.block_count == pages.block_count
            &&& ready.block_size == pages.block_size
        }),
{
    let next = pages.continued();
    let ready = pages.readied(length, alignment, bytes);
    lemma_continued(pages, live);
    lemma_entries(pages.high_water);
    lemma_vacant(pages);
    if next.open is Some {
        assert(vacant(pages).remove(ready.open->0.block as int).subset_of(vacant(ready)));
    } else {
        assert(vacant(pages).subset_of(vacant(next)));
        lemma_vacant(next);
        vstd::set_lib::lemma_len_subset(vacant(pages), vacant(next));
        lemma_claimed(next, live, bytes);
        if next.claimed(bytes).open is None {
            assert(vacant(next) =~= Set::empty());
        }
        lemma_claimed_vacant(next, live, bytes);
        lemma_claimed_sizes(next, live, bytes);
    }
    lemma_vacant(ready);
    vstd::set_lib::lemma_len_subset(
        vacant(pages).remove(ready.open->0.block as int),
        vacant(ready),
    );
}

proof fn lemma_claimed_sizes(pages: Pages, live: Map<int, int>, bytes: int)
    requires
        accounts(pages, live),
        pages.open is None,
    ensures
        pages.claimed(bytes).block_count == pages.block_count,
        pages.claimed(bytes).block_size == pages.block_size,
    decreases pages.block_count - pages.high_water,
{
    lemma_claimed_step(pages, bytes);
    if pages.high_water < pages.block_count {
        lemma_grown(pages, live, bytes);
        lemma_claimed_sizes(pages.grown(bytes), live, bytes);
    }
}

/// The pages after an allocation are accounted for.
pub proof fn lemma_accounted(
    pages: Pages,
    live: Map<int, int>,
    length: int,
    alignment: int,
    maximum: int,
) -> (now: Map<int, int>)
    requires
        accounts(pages, live),
        0 <= length,
        0 <= maximum,
    ensures
        accounts(batch_outcome(pages, length, alignment, maximum).0, now),
{
    law_allocations_apart(pages, live, length, alignment, maximum);
    match batch_outcome(pages, length, alignment, maximum).1 {
        Ok(batch) => with_batch(
            live,
            batch.offset as int,
            batch.stride as int,
            length,
            batch.count as int,
        ),
        Err(_) => live,
    }
}

/// An allocation that fits a page succeeds where a page is vacant, and takes one vacant
/// page at most.
pub proof fn law_vacant_page_is_enough(
    pages: Pages,
    live: Map<int, int>,
    length: int,
    alignment: int,
)
    requires
        accounts(pages, live),
        0 < length <= pages.block_size,
        power_of_two(alignment),
        alignment <= pages.block_size,
        vacant(pages).len() > 0,
    ensures
        batch_outcome(pages, length, alignment, 1).1 is Ok,
        vacant(batch_outcome(pages, length, alignment, 1).0).len() >= vacant(pages).len() - 1,
        batch_outcome(pages, length, alignment, 1).0.block_size == pages.block_size,
{
    let stride = round_up(length, alignment);
    let ready = pages.readied(length, alignment, stride);
    let after = batch_outcome(pages, length, alignment, 1).0;
    if !pages.fits(length, alignment) {
        lemma_readied_vacant(pages, live, length, alignment, stride);
    }
    assert(vacant(after) =~= vacant(ready));
}

/// Nodes are reserved as long as there are places for them, and each takes one place.
pub proof fn law_nodes_take_places(pages: Pages, live: Map<int, int>, maximum: int)
    requires
        accounts(pages, live),
        0 < maximum,
        node_places(pages) > 0,
    ensures
        ({
            let (after, result) = batch_outcome(pages, 32, 32, maximum);
            &&& result is Ok
            &&& 0 < (result->Ok_0).count <= maximum
            &&& node_places(after) >= node_places(pages) - (result->Ok_0).count
            &&& after.block_size == pages.block_size
        }),
{
    reveal_with_fuel(power_of_two, 7);
    let requested = if maximum < MAX_LIVE {
        maximum
    } else {
        MAX_LIVE as int
    };
    let bytes = 32 * requested;
    assert(round_up(32, 32) == 32);
    let ready = pages.readied(32, 32, bytes);
    let after = batch_outcome(pages, 32, 32, maximum).0;
    let per = nodes_per_page(pages.block_size);
    super::lemma_pages_aligned(pages.block_size, 32);
    lemma_readied_fits(pages, 32, 32, bytes);
    if !pages.fits(32, 32) {
        assert(nodes_left(pages) <= 0);
        assert(vacant(pages).len() > 0) by (nonlinear_arith)
            requires
                vacant(pages).len() * per > 0,
                per >= 0,
        ;
        lemma_readied_vacant(pages, live, 32, 32, bytes);
    }
    let page = ready.open->0;
    lemma_reserved(ready, 32, 32, requested);
    lemma_round_up(page.used as int, 32);
    let start = round_up(page.used as int, 32);
    let count = ready.reserved(32, 32, requested);
    assert((count - 1) * round_up(32, 32) == 32 * count - 32);
    assert((after.open->0).used == start + 32 * count);
    assert(vacant(after) =~= vacant(ready));
    assert(nodes_left(after) == nodes_left(ready) - count);
    if !pages.fits(32, 32) {
        assert(nodes_left(ready) == per);
        assert(vacant(ready).len() * per >= vacant(pages).len() * per - per) by (nonlinear_arith)
            requires
                vacant(ready).len() >= vacant(pages).len() - 1,
                per >= 0,
        ;
    }
}

} // verus!
