//! What the page counts say of the live allocations, and that no operation on
//! the pages breaks it.

use vstd::prelude::*;

#[allow(unused_imports)]
use crate::layout::{lemma_round_up, round_up, DATA_START, FORMAT_PAGE_SIZE};
#[allow(unused_imports)]
use crate::pages::{
    entries_for, free_page, lemma_claimed_step, lemma_free_page_is_free, longest_within, zero_run,
    OpenPage, Pages, CLAIMED, MAX_LIVE,
};

verus! {

/// The live allocations, by offset, that lie on page `block`.
pub open spec fn on_page(pages: Pages, live: Map<int, int>, block: int) -> Set<int> {
    live.dom().filter(|offset: int| pages.page_of(offset) == block)
}

/// Whether the live allocation at `offset` lies inside one page that the files
/// hold, and below the used bytes of that page if it is open.
pub open spec fn placed(pages: Pages, offset: int, length: int) -> bool {
    let block = pages.page_of(offset);
    let end = offset - pages.page_start(block) + length;
    &&& DATA_START <= offset
    &&& 0 < length
    &&& block < pages.high_water
    &&& end <= pages.block_size
    &&& pages.open matches Some(page) ==> (page.block == block ==> end <= page.used)
}

/// Number of live allocations that the counts give for page `block`.
pub open spec fn counted(pages: Pages, block: int) -> int {
    match pages.open {
        Some(page) if page.block == block => page.live as int,
        _ => pages.counts[block] as int,
    }
}

/// The counts are those of `live`, which maps the offset of each live allocation
/// to its length: every allocation lies inside a page, no two overlap, and every
/// page has the number of its allocations. Pages that were never used are zero.
pub open spec fn accounts(pages: Pages, live: Map<int, int>) -> bool {
    &&& pages.wf()
    &&& live.dom().finite()
    &&& forall|offset: int| #[trigger]
        live.dom().contains(offset) ==> placed(pages, offset, live[offset])
    &&& forall|one: int, two: int|
        #![trigger live.dom().contains(one), live.dom().contains(two)]
        live.dom().contains(one) && live.dom().contains(two) && one < two ==> one + live[one]
            <= two
    &&& forall|block: int|
        #![trigger on_page(pages, live, block)]
        #![trigger pages.counts[block]]
        0 <= block < pages.high_water ==> on_page(pages, live, block).len() == counted(pages, block)
            && counted(pages, block) <= MAX_LIVE
    &&& forall|block: int|
        pages.high_water <= block < pages.counts.len() ==> #[trigger] pages.counts[block] == 0
}

/// Count entries cover every page.
pub proof fn lemma_entries(blocks: int)
    requires
        0 <= blocks,
    ensures
        blocks <= entries_for(blocks),
{
    lemma_round_up(2 * blocks, FORMAT_PAGE_SIZE as int);
}

/// Sealing the open page keeps the accounting.
pub proof fn lemma_sealed(pages: Pages, live: Map<int, int>)
    requires
        accounts(pages, live),
    ensures
        accounts(pages.sealed(), live),
        pages.sealed().open is None,
{
    let after = pages.sealed();
    lemma_entries(pages.high_water);
    assert forall|block: int| 0 <= block < pages.high_water implies on_page(
        after,
        live,
        block,
    ).len() == counted(after, block) && counted(after, block) <= MAX_LIVE by {
        assert(on_page(after, live, block) =~= on_page(pages, live, block));
        assert(counted(after, block) == counted(pages, block));
    }
}

/// Opening a free page keeps the accounting.
pub proof fn lemma_opened(pages: Pages, live: Map<int, int>, block: int)
    requires
        accounts(pages, live),
        pages.open is None,
        0 <= block < pages.high_water,
        pages.counts[block] == 0,
    ensures
        accounts(pages.opened(block), live),
{
    let after = pages.opened(block);
    lemma_entries(pages.high_water);
    assert(on_page(pages, live, block).len() == 0);
    assert forall|offset: int| #[trigger] live.dom().contains(offset) implies placed(
        after,
        offset,
        live[offset],
    ) by {
        assert(placed(pages, offset, live[offset]));
        if pages.page_of(offset) == block {
            assert(on_page(pages, live, block).contains(offset));
            assert(on_page(pages, live, block).finite());
            assert(on_page(pages, live, block) =~= Set::empty());
        }
    }
    assert forall|b: int| 0 <= b < pages.high_water implies on_page(after, live, b).len()
        == counted(after, b) && counted(after, b) <= MAX_LIVE by {
        assert(on_page(after, live, b) =~= on_page(pages, live, b));
        assert(b != block ==> counted(after, b) == counted(pages, b));
    }
}

/// Sealing the open page and going on with the next one keeps the accounting.
pub proof fn lemma_continued(pages: Pages, live: Map<int, int>)
    requires
        accounts(pages, live),
    ensures
        accounts(pages.continued(), live),
{
    lemma_sealed(pages, live);
    lemma_entries(pages.high_water);
    if pages.open is Some {
        let next = pages.open->0.block + 1;
        if next < pages.high_water && pages.counts[next] == 0 {
            lemma_opened(pages.sealed(), live, next);
        }
    }
}

/// Growth keeps the accounting.
pub proof fn lemma_grown(pages: Pages, live: Map<int, int>, bytes: int)
    requires
        accounts(pages, live),
        pages.high_water < pages.block_count,
    ensures
        accounts(pages.grown(bytes), live),
        pages.high_water < pages.grown(bytes).high_water,
{
    let after = pages.grown(bytes);
    lemma_entries(pages.high_water);
    lemma_entries(after.high_water);
    assert forall|block: int| 0 <= block < after.high_water implies on_page(
        after,
        live,
        block,
    ).len() == counted(after, block) && counted(after, block) <= MAX_LIVE by {
        assert(on_page(after, live, block) =~= on_page(pages, live, block));
        if block < pages.high_water {
            assert(counted(after, block) == counted(pages, block));
        } else {
            assert forall|offset: int| !on_page(pages, live, block).contains(offset) by {
                if live.dom().contains(offset) {
                    assert(placed(pages, offset, live[offset]));
                }
            }
            assert(on_page(pages, live, block) =~= Set::empty());
            assert(after.counts[block] == 0);
        }
    }
}

/// Without an open page every free page is in a zero run.
pub proof fn lemma_free_page_found(counts: Seq<u16>, block: int)
    requires
        0 <= block < counts.len(),
        counts[block] == 0,
        forall|i: int| 0 <= i < counts.len() ==> counts[i] != CLAIMED,
    ensures
        free_page(counts) is Some,
{
    let start = lemma_run_start(counts, block);
    assert(zero_run(counts, start, block + 1 - start));
    lemma_longest_exists(counts, counts.len() as int, start, block + 1 - start);
}

/// First page of the zero run that `block` is in.
proof fn lemma_run_start(counts: Seq<u16>, block: int) -> (start: int)
    requires
        0 <= block < counts.len(),
        counts[block] == 0,
    ensures
        0 <= start <= block,
        start == 0 || counts[start - 1] != 0,
        forall|i: int| start <= i <= block ==> counts[i] == 0,
    decreases block,
{
    if block == 0 || counts[block - 1] != 0 {
        block
    } else {
        lemma_run_start(counts, block - 1)
    }
}

/// Where there is a zero run, one is the first longest.
proof fn lemma_longest_exists(counts: Seq<u16>, end: int, start: int, length: int)
    requires
        zero_run(counts, start, length),
        start + length <= end <= counts.len(),
    ensures
        exists|s: int, n: int| longest_within(counts, end, s, n),
    decreases end - length, start,
{
    if !longest_within(counts, end, start, length) {
        let (s, n) = choose|s: int, n: int|
            #[trigger] zero_run(counts, s, n) && s + n <= end && !(n < length || (n == length
                && start <= s));
        lemma_longest_exists(counts, end, s, n);
    }
}

/// Claiming a page keeps the accounting. It opens an unused page, or leaves no
/// page open where neither a free page nor room for growth is left.
pub proof fn lemma_claimed(pages: Pages, live: Map<int, int>, bytes: int)
    requires
        accounts(pages, live),
        pages.open is None,
    ensures
        accounts(pages.claimed(bytes), live),
        match pages.claimed(bytes).open {
            Some(page) => page.used == 0 && page.live == 0,
            None => pages.claimed(bytes) == pages && pages.high_water == pages.block_count
                && forall|block: int|
                0 <= block < pages.high_water ==> #[trigger] pages.counts[block] != 0,
        },
    decreases pages.block_count - pages.high_water,
{
    let counts = pages.counts.take(pages.high_water);
    lemma_claimed_step(pages, bytes);
    lemma_entries(pages.high_water);
    lemma_free_page_is_free(counts);
    match free_page(counts) {
        Some(block) => {
            assert(counts[block] == pages.counts[block]);
            lemma_opened(pages, live, block);
        },
        None => {
            assert forall|block: int| 0 <= block < pages.high_water implies #[trigger]
                pages.counts[block] != 0 by {
                if pages.counts[block] == 0 {
                    assert(counts[block] == 0);
                    assert forall|i: int| 0 <= i < counts.len() implies counts[i] != CLAIMED by {
                        assert(counts[i] == pages.counts[i]);
                    }
                    lemma_free_page_found(counts, block);
                }
            }
            if pages.high_water < pages.block_count {
                lemma_grown(pages, live, bytes);
                let after = pages.grown(bytes);
                lemma_claimed(after, live, bytes);
                lemma_entries(after.high_water);
                assert(after.counts[pages.high_water] == 0);
            }
        },
    }
}

/// Opening a page with room keeps the accounting.
pub proof fn lemma_readied(
    pages: Pages,
    live: Map<int, int>,
    length: int,
    alignment: int,
    bytes: int,
)
    requires
        accounts(pages, live),
    ensures
        accounts(pages.readied(length, alignment, bytes), live),
{
    if !pages.fits(length, alignment) {
        lemma_continued(pages, live);
        if pages.continued().open is None {
            lemma_claimed(pages.continued(), live, bytes);
        }
    }
}

/// The page of a position inside a page.
pub proof fn lemma_page_of(pages: Pages, block: int, within: int)
    requires
        0 <= block,
        0 <= within < pages.block_size,
    ensures
        pages.page_of(pages.page_start(block) + within) == block,
        DATA_START <= pages.page_start(block),
{
    vstd::arithmetic::div_mod::lemma_fundamental_div_mod_converse(
        block * pages.block_size + within,
        pages.block_size,
        block,
        within,
    );
    vstd::arithmetic::mul::lemma_mul_nonnegative(block, pages.block_size);
}

/// A placed allocation starts inside its page.
pub proof fn lemma_placed_within(pages: Pages, offset: int)
    requires
        DATA_START <= offset,
        0 < pages.block_size,
    ensures
        0 <= pages.page_of(offset),
        pages.page_start(pages.page_of(offset)) <= offset < pages.page_start(pages.page_of(offset))
            + pages.block_size,
{
    let relative = offset - DATA_START;
    vstd::arithmetic::div_mod::lemma_fundamental_div_mod(relative, pages.block_size);
    vstd::arithmetic::div_mod::lemma_mod_bound(relative, pages.block_size);
    vstd::arithmetic::div_mod::lemma_div_pos_is_pos(relative, pages.block_size);
    vstd::arithmetic::mul::lemma_mul_is_commutative(
        relative / pages.block_size,
        pages.block_size,
    );
}

/// Pages do not overlap.
pub proof fn lemma_page_order(pages: Pages, low: int, high: int)
    requires
        low < high,
        0 < pages.block_size,
    ensures
        pages.page_start(low) + pages.block_size <= pages.page_start(high),
{
    vstd::arithmetic::mul::lemma_mul_inequality(low + 1, high, pages.block_size);
    vstd::arithmetic::mul::lemma_mul_is_distributive_add_other_way(pages.block_size, low, 1);
}

/// One allocation behind the used bytes of the open page: it meets no live
/// allocation, and counting it keeps the accounting.
pub proof fn lemma_one_taken(pages: Pages, live: Map<int, int>, within: int, length: int)
    requires
        accounts(pages, live),
        pages.open is Some,
        pages.open->0.used <= within,
        0 < length,
        within + length <= pages.block_size,
        pages.open->0.live < MAX_LIVE,
    ensures
        ({
            let page = pages.open->0;
            let offset = pages.page_start(page.block as int) + within;
            let after = Pages {
                open: Some(
                    OpenPage {
                        block: page.block,
                        used: (within + length) as u64,
                        live: (page.live + 1) as u16,
                    },
                ),
                ..pages
            };
            &&& !live.dom().contains(offset)
            &&& accounts(after, live.insert(offset, length))
        }),
{
    let page = pages.open->0;
    let block = page.block as int;
    let offset = pages.page_start(block) + within;
    let after = Pages {
        open: Some(
            OpenPage {
                block: page.block,
                used: (within + length) as u64,
                live: (page.live + 1) as u16,
            },
        ),
        ..pages
    };
    let more = live.insert(offset, length);
    lemma_page_of(pages, block, within);
    lemma_entries(pages.high_water);
    assert forall|other: int| #[trigger] live.dom().contains(other) implies other + live[other]
        <= offset || offset + length <= other by {
        assert(placed(pages, other, live[other]));
        lemma_placed_within(pages, other);
        let host = pages.page_of(other);
        if host < block {
            lemma_page_order(pages, host, block);
        } else if host > block {
            lemma_page_order(pages, block, host);
        }
    }
    if live.dom().contains(offset) {
        assert(placed(pages, offset, live[offset]));
    }
    assert forall|other: int| #[trigger] more.dom().contains(other) implies placed(
        after,
        other,
        more[other],
    ) by {
        if other != offset {
            assert(live.dom().contains(other));
            assert(placed(pages, other, live[other]));
        }
    }
    assert forall|one: int, two: int|
        #![trigger more.dom().contains(one), more.dom().contains(two)]
        more.dom().contains(one) && more.dom().contains(two) && one < two implies one + more[one]
        <= two by {
        assert(one != offset ==> live.dom().contains(one));
        assert(two != offset ==> live.dom().contains(two));
        if one != offset && two == offset {
            assert(placed(pages, one, live[one]));
        }
        if one == offset && two != offset {
            assert(placed(pages, two, live[two]));
        }
    }
    assert forall|b: int| 0 <= b < pages.high_water implies on_page(after, more, b).len()
        == counted(after, b) && counted(after, b) <= MAX_LIVE by {
        assert(on_page(pages, live, b).finite());
        if b == block {
            assert(on_page(after, more, b) =~= on_page(pages, live, b).insert(offset));
        } else {
            assert(on_page(after, more, b) =~= on_page(pages, live, b));
            assert(counted(after, b) == counted(pages, b));
        }
    }
}

/// The live allocations after `count` more of `length` bytes, `stride` bytes
/// apart, the first at `first`.
pub open spec fn with_batch(
    live: Map<int, int>,
    first: int,
    stride: int,
    length: int,
    count: int,
) -> Map<int, int>
    decreases count,
{
    if count <= 0 {
        live
    } else {
        with_batch(live, first, stride, length, count - 1).insert(
            first + (count - 1) * stride,
            length,
        )
    }
}

/// Taking a batch from the open page keeps the accounting: the batch meets no
/// live allocation and is counted.
pub proof fn lemma_taken(
    pages: Pages,
    live: Map<int, int>,
    length: int,
    alignment: int,
    count: int,
)
    requires
        accounts(pages, live),
        pages.fits(length, alignment),
        0 < length,
        0 < alignment,
        0 < count,
        round_up(pages.open->0.used as int, alignment) + (count - 1) * round_up(length, alignment)
            + length <= pages.block_size,
        pages.open->0.live + count <= MAX_LIVE,
    ensures
        ({
            let page = pages.open->0;
            let stride = round_up(length, alignment);
            let first = pages.page_start(page.block as int) + round_up(page.used as int, alignment);
            &&& accounts(
                pages.taken(length, alignment, count),
                with_batch(live, first, stride, length, count),
            )
            &&& forall|i: int|
                0 <= i < count ==> !live.dom().contains(#[trigger] (first + i * stride))
        }),
    decreases count,
{
    let page = pages.open->0;
    let stride = round_up(length, alignment);
    let start = round_up(page.used as int, alignment);
    let first = pages.page_start(page.block as int) + start;
    lemma_round_up(page.used as int, alignment);
    lemma_round_up(length, alignment);
    if count == 1 {
        lemma_one_taken(pages, live, start, length);
        assert(first + 0 * stride == first);
        assert(with_batch(live, first, stride, length, 0) == live);
        assert(pages.taken(length, alignment, 1) == Pages {
            open: Some(
                OpenPage {
                    block: page.block,
                    used: (start + length) as u64,
                    live: (page.live + 1) as u16,
                },
            ),
            ..pages
        });
        assert forall|i: int| 0 <= i < count implies !live.dom().contains(
            #[trigger] (first + i * stride),
        ) by {
            assert(i == 0);
        }
    } else {
        let last = start + (count - 1) * stride;
        assert((count - 1) * stride == (count - 2) * stride + stride) by (nonlinear_arith);
        lemma_taken(pages, live, length, alignment, count - 1);
        let before = pages.taken(length, alignment, count - 1);
        let most = with_batch(live, first, stride, length, count - 1);
        assert(before.page_start(page.block as int) == pages.page_start(page.block as int));
        vstd::arithmetic::mul::lemma_mul_nonnegative(count - 2, stride);
        lemma_one_taken(before, most, last, length);
        assert(first + (count - 1) * stride == pages.page_start(page.block as int) + last);
        assert forall|i: int| 0 <= i < count implies !live.dom().contains(
            #[trigger] (first + i * stride),
        ) by {
            if i == count - 1 {
                lemma_batch_keeps(live, first, stride, length, count - 1, first + i * stride);
            }
        }
    }
}

/// A batch takes nothing away.
pub proof fn lemma_batch_keeps(
    live: Map<int, int>,
    first: int,
    stride: int,
    length: int,
    count: int,
    offset: int,
)
    ensures
        live.dom().contains(offset) ==> with_batch(
            live,
            first,
            stride,
            length,
            count,
        ).dom().contains(offset),
    decreases count,
{
    if count > 0 {
        lemma_batch_keeps(live, first, stride, length, count - 1, offset);
    }
}

/// Releasing a live allocation keeps the accounting of the others.
pub proof fn law_release_keeps_accounts(pages: Pages, live: Map<int, int>, offset: int)
    requires
        accounts(pages, live),
        live.dom().contains(offset),
    ensures
        0 <= pages.page_of(offset) < pages.high_water,
        0 < counted(pages, pages.page_of(offset)) <= MAX_LIVE,
        accounts(pages.released(pages.page_of(offset)), live.remove(offset)),
{
    let block = pages.page_of(offset);
    let after = pages.released(block);
    let rest = live.remove(offset);
    assert(placed(pages, offset, live[offset]));
    lemma_placed_within(pages, offset);
    lemma_entries(pages.high_water);
    assert(on_page(pages, live, block).contains(offset));
    assert(on_page(pages, live, block).finite());
    if on_page(pages, live, block).len() == 0 {
        assert(on_page(pages, live, block) =~= Set::empty());
    }
    assert forall|other: int| #[trigger] rest.dom().contains(other) implies placed(
        after,
        other,
        rest[other],
    ) by {
        assert(live.dom().contains(other));
        assert(placed(pages, other, live[other]));
    }
    assert forall|one: int, two: int|
        #![trigger rest.dom().contains(one), rest.dom().contains(two)]
        rest.dom().contains(one) && rest.dom().contains(two) && one < two implies one + rest[one]
        <= two by {
        assert(live.dom().contains(one) && live.dom().contains(two));
    }
    assert forall|b: int| 0 <= b < pages.high_water implies on_page(after, rest, b).len()
        == counted(after, b) && counted(after, b) <= MAX_LIVE by {
        assert(on_page(pages, live, b).len() == counted(pages, b));
        if b == block {
            assert(on_page(after, rest, b) =~= on_page(pages, live, b).remove(offset));
        } else {
            assert(on_page(after, rest, b) =~= on_page(pages, live, b));
            assert(counted(after, b) == counted(pages, b));
        }
    }
}

} // verus!
