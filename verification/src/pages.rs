//! The page-count state of an allocator: which pages are free, which are sealed
//! with how many live allocations, and which one is open.

use vstd::prelude::*;

#[allow(unused_imports)]
use crate::layout::{power_of_two, round_up, DATA_START, FORMAT_PAGE_SIZE};

verus! {

/// Most allocations that one page can hold.
pub const MAX_LIVE: u16 = 0xfffe;

/// Count of a page that is still open.
pub const CLAIMED: u16 = 0xffff;

/// The page that new allocations are taken from.
#[derive(Clone, Copy, Debug, PartialEq, Eq, Structural)]
pub struct OpenPage {
    /// Index of the page.
    pub block: u64,
    /// Bytes handed out so far, alignment gaps counted.
    pub used: u64,
    /// Allocations that were handed out and not released.
    pub live: u16,
}

/// Page counts of one allocator.
#[verifier::ext_equal]
pub struct Pages {
    /// Bytes of one page.
    pub block_size: int,
    /// Pages that fit the capacity.
    pub block_count: int,
    /// The count entries of the count file; an open page has [`CLAIMED`].
    pub counts: Seq<u16>,
    /// Pages that the files hold so far.
    pub high_water: int,
    /// The page that new allocations are taken from.
    pub open: Option<OpenPage>,
}

/// Whether `length` pages from `start` on are free, none of them follows a free
/// page in front of `start`, and the page in front of `start` is not open.
pub open spec fn zero_run(counts: Seq<u16>, start: int, length: int) -> bool {
    &&& 0 <= start
    &&& 0 < length
    &&& start + length <= counts.len()
    &&& forall|i: int| start <= i < start + length ==> #[trigger] counts[i] == 0
    &&& start == 0 || (counts[start - 1] != 0 && counts[start - 1] != CLAIMED)
}

/// Whether the first of the longest zero runs that end at or before `end` is the
/// one of `length` pages at `start`.
pub open spec fn longest_within(counts: Seq<u16>, end: int, start: int, length: int) -> bool {
    &&& zero_run(counts, start, length)
    &&& start + length <= end
    &&& forall|s: int, n: int|
        #[trigger] zero_run(counts, s, n) && s + n <= end ==> n < length || (n == length && start
            <= s)
}

/// First page of the first of the longest zero runs, if there is a zero run.
pub open spec fn free_page(counts: Seq<u16>) -> Option<int> {
    if exists|start: int, length: int|
        longest_within(counts, counts.len() as int, start, length) {
        Some(
            (choose|start: int, length: int|
                longest_within(counts, counts.len() as int, start, length)).0,
        )
    } else {
        None
    }
}

/// Count entries of a count file that is just long enough for `blocks` pages.
pub open spec fn entries_for(blocks: int) -> int {
    round_up(2 * blocks, FORMAT_PAGE_SIZE as int) / 2
}

/// `counts` followed by zeros up to `length` entries.
pub open spec fn with_zero_counts(counts: Seq<u16>, length: int) -> Seq<u16> {
    if counts.len() >= length {
        counts
    } else {
        counts + Seq::new((length - counts.len()) as nat, |i: int| 0u16)
    }
}

/// Whether page sizes and page numbers can be those of an allocator.
pub open spec fn page_layout(block_size: int, block_count: int) -> bool {
    &&& power_of_two(block_size)
    &&& FORMAT_PAGE_SIZE <= block_size <= u32::MAX
    &&& 0 < block_count <= u32::MAX
}

impl Pages {
    /// The open page is within the files, marked as open, and not overfull.
    pub open spec fn wf(self) -> bool {
        &&& page_layout(self.block_size, self.block_count)
        &&& 0 <= self.high_water <= self.block_count
        &&& entries_for(self.high_water) <= self.counts.len()
        &&& match self.open {
            Some(page) => page.block < self.high_water && self.counts[page.block as int] == CLAIMED
                && page.used <= self.block_size && page.live <= MAX_LIVE,
            None => true,
        }
    }

    /// The open page, if any, closed with its number of live allocations.
    pub open spec fn sealed(self) -> Pages {
        match self.open {
            Some(page) => Pages {
                counts: self.counts.update(page.block as int, page.live),
                open: None,
                ..self
            },
            None => self,
        }
    }

    /// Page `block` opened for new allocations.
    pub open spec fn opened(self, block: int) -> Pages {
        Pages {
            counts: self.counts.update(block, CLAIMED),
            open: Some(OpenPage { block: block as u64, used: 0, live: 0 }),
            ..self
        }
    }

    /// The open page sealed, and the page behind it opened if that is free.
    pub open spec fn continued(self) -> Pages {
        match self.open {
            Some(page) => if page.block + 1 < self.high_water && self.counts[page.block + 1] == 0 {
                self.sealed().opened(page.block + 1)
            } else {
                self.sealed()
            },
            None => self,
        }
    }

    /// Pages to grow by for a request of `bytes` bytes: enough to hold them, but at
    /// least one, and no more than the capacity leaves.
    pub open spec fn growth(self, bytes: int) -> int {
        let wanted = (bytes + self.block_size - 1) / self.block_size;
        if wanted < 1 {
            1
        } else if wanted > self.block_count - self.high_water {
            self.block_count - self.high_water
        } else {
            wanted
        }
    }

    /// The files grown for a request of `bytes` bytes.
    pub open spec fn grown(self, bytes: int) -> Pages {
        let high_water = self.high_water + self.growth(bytes);
        Pages { counts: with_zero_counts(self.counts, entries_for(high_water)), high_water, ..self }
    }

    /// A free page opened: the first of the longest zero run, after growth if there
    /// is none. No page is open afterwards exactly when the capacity is used up.
    #[verifier::opaque]
    pub open spec fn claimed(self, bytes: int) -> Pages
        decreases self.block_count - self.high_water,
    {
        match free_page(self.counts.take(self.high_water)) {
            Some(block) => self.opened(block),
            None => if self.high_water < self.block_count {
                self.grown(bytes).claimed(bytes)
            } else {
                self
            },
        }
    }

    /// Whether the open page has room for `length` bytes at `alignment`.
    pub open spec fn fits(self, length: int, alignment: int) -> bool {
        match self.open {
            Some(page) => round_up(page.used as int, alignment) + length <= self.block_size
                && page.live < MAX_LIVE,
            None => false,
        }
    }

    /// A page opened that has room for `length` bytes at `alignment`: the open one,
    /// the one behind it, or a claimed one.
    pub open spec fn readied(self, length: int, alignment: int, bytes: int) -> Pages {
        if self.fits(length, alignment) {
            self
        } else if self.continued().open is Some {
            self.continued()
        } else {
            self.continued().claimed(bytes)
        }
    }

    /// How many allocations of `length` bytes, `stride` bytes apart, one request for
    /// `requested` of them takes from the open page.
    pub open spec fn reserved(self, length: int, alignment: int, requested: int) -> int {
        let page = self.open->0;
        let stride = round_up(length, alignment);
        let start = round_up(page.used as int, alignment);
        let fitting = 1 + (self.block_size - (start + length)) / stride;
        let left = MAX_LIVE - page.live;
        if requested <= fitting && requested <= left {
            requested
        } else if fitting <= left {
            fitting
        } else {
            left
        }
    }

    /// `count` allocations of `length` bytes taken from the open page.
    pub open spec fn taken(self, length: int, alignment: int, count: int) -> Pages {
        let page = self.open->0;
        let start = round_up(page.used as int, alignment);
        Pages {
            open: Some(
                OpenPage {
                    block: page.block,
                    used: (start + (count - 1) * round_up(length, alignment) + length) as u64,
                    live: (page.live + count) as u16,
                },
            ),
            ..self
        }
    }

    /// Offset of page `block` in the data file.
    pub open spec fn page_start(self, block: int) -> int {
        DATA_START + block * self.block_size
    }

    /// The page that holds the byte at `offset` of the data file.
    pub open spec fn page_of(self, offset: int) -> int {
        (offset - DATA_START) / self.block_size
    }

    /// One allocation of page `block` given back.
    pub open spec fn released(self, block: int) -> Pages {
        match self.open {
            Some(page) if page.block == block => Pages {
                open: Some(OpenPage { live: (page.live - 1) as u16, ..page }),
                ..self
            },
            _ => Pages {
                counts: self.counts.update(block, (self.counts[block] - 1) as u16),
                ..self
            },
        }
    }
}

/// Claiming takes the free page of the longest zero run, or goes on after growth.
pub proof fn lemma_claimed_step(pages: Pages, bytes: int)
    ensures
        pages.claimed(bytes) == (match free_page(pages.counts.take(pages.high_water)) {
            Some(block) => pages.opened(block),
            None => if pages.high_water < pages.block_count {
                pages.grown(bytes).claimed(bytes)
            } else {
                pages
            },
        }),
{
    reveal_with_fuel(Pages::claimed, 2);
}

/// There is at most one first longest zero run.
pub proof fn lemma_free_page(counts: Seq<u16>, start: int, length: int)
    requires
        longest_within(counts, counts.len() as int, start, length),
    ensures
        free_page(counts) == Some(start),
{
    let (s, n) = choose|s: int, n: int| longest_within(counts, counts.len() as int, s, n);
    assert(longest_within(counts, counts.len() as int, s, n));
    assert(zero_run(counts, s, n));
    assert(zero_run(counts, start, length));
}

/// A free page is a page, and free.
pub proof fn lemma_free_page_is_free(counts: Seq<u16>)
    ensures
        free_page(counts) matches Some(block) ==> 0 <= block < counts.len() && counts[block] == 0,
{
    if free_page(counts) is Some {
        let (s, n) = choose|s: int, n: int| longest_within(counts, counts.len() as int, s, n);
        assert(longest_within(counts, counts.len() as int, s, n));
        assert(counts[s] == 0);
    }
}

} // verus!
