//! The list of free pages, threaded through the free pages themselves and
//! kept here as the sequence of their physical addresses, head first.
use vstd::prelude::*;
use crate::mm::PhyAddr;
use crate::mm::bitmap::{Bitmap, search_result};

verus! {

/// The addresses of the free pages among pages `0 .. n`, lowest first.
pub open spec fn free_page_list(bits: Seq<bool>, n: int) -> Seq<u64>
    decreases n,
{
    if n <= 0 {
        Seq::empty()
    } else if !bits[n - 1] {
        free_page_list(bits, n - 1).push(((n - 1) * 4096) as u64)
    } else {
        free_page_list(bits, n - 1)
    }
}

/// A page lies free below page `total`.
pub open spec fn has_free_page(bits: Seq<bool>, total: int) -> bool {
    exists|i: int| 0 <= i < total && !#[trigger] bits[i]
}

/// The list of free pages, head first.
pub struct FreeList {
    pages: Vec<u64>,
}

impl View for FreeList {
    type V = Seq<u64>;

    closed spec fn view(&self) -> Seq<u64> {
        self.pages@
    }
}

impl FreeList {
    /// The empty list.
    pub fn new() -> (l: FreeList)
        ensures
            l@ == Seq::<u64>::empty(),
    {
        FreeList { pages: Vec::new() }
    }

    /// The pages of the list, head first.
    pub fn pages(&self) -> (v: Vec<u64>)
        ensures
            v@ == self@,
    {
        self.pages.clone()
    }

    /// Threads every page that is free in the bitmap, from the first free
    /// page below `total_pages` up to page `total_pages` itself, into a list in
    /// ascending order. Some page below `total_pages` must be free.
    pub fn from_bitmap(bitmap: &Bitmap, total_pages: u32) -> (l: FreeList)
        requires
            total_pages < bitmap@.len(),
            has_free_page(bitmap@, total_pages as int),
        ensures
            l@ == free_page_list(bitmap@, total_pages + 1),
    {
        let first = bitmap.search_free_ranges(1, total_pages);
        proof {
            let i = choose|i: int| 0 <= i < total_pages && !#[trigger] bitmap@[i];
            assert(crate::mm::bitmap::free_run(bitmap@, i, 1));
        }
        let first_free: usize = first.unwrap();
        proof {
            lemma_free_page_list_skips(bitmap@, first_free as int);
        }
        let mut list = FreeList { pages: Vec::new() };
        list.pages.push(Bitmap::index_to_addr(first_free));
        let mut index: u64 = first_free as u64 + 1;
        while index <= total_pages as u64
            invariant
                first_free < index <= total_pages + 1,
                total_pages < bitmap@.len(),
                list@ == free_page_list(bitmap@, index as int),
            decreases total_pages + 1 - index,
        {
            if !bitmap.is_used(index as usize) {
                list.pages.push(Bitmap::index_to_addr(index as usize));
            }
            index = index + 1;
        }
        list
    }

    /// The page at the head of the list, left on it.
    pub fn head(&self) -> (r: Option<PhyAddr>)
        ensures
            self@.len() == 0 ==> r is None,
            self@.len() > 0 ==> r == Some(PhyAddr(self@[0])),
    {
        if self.pages.len() == 0 {
            None
        } else {
            Some(PhyAddr(self.pages[0]))
        }
    }

    /// Takes the page at the head of the list; taking the last page leaves
    /// the list empty.
    pub fn get(&mut self) -> (r: Option<PhyAddr>)
        ensures
            old(self)@.len() == 0 ==> r is None && final(self)@ == old(self)@,
            old(self)@.len() > 0 ==> r == Some(PhyAddr(old(self)@[0])) && final(self)@ == old(self)@.drop_first(),
    {
        if self.pages.len() == 0 {
            return None;
        }
        let head: u64 = self.pages.remove(0);
        assert(self@ =~= old(self)@.drop_first());
        Some(PhyAddr(head))
    }

    /// Puts a page at the head of the list.
    pub fn put(&mut self, addr: PhyAddr)
        ensures
            final(self)@ == seq![addr.0] + old(self)@,
    {
        self.pages.insert(0, addr.0);
        assert(self@ =~= seq![addr.0] + old(self)@);
    }
}

/// Putting a page on the list and then taking one gives that page back and
/// leaves the list as it was (see `FreeList::put` and `FreeList::get`).
pub proof fn lemma_put_then_get(l: Seq<u64>, addr: u64)
    ensures
        (seq![addr] + l).len() > 0,
        (seq![addr] + l)[0] == addr,
        (seq![addr] + l).drop_first() == l,
{
    assert((seq![addr] + l).drop_first() =~= l);
}

/// Below the first free page, the list of free pages is empty; up to and
/// including it, it holds that page alone.
proof fn lemma_free_page_list_skips(bits: Seq<bool>, first: int)
    requires
        0 <= first < bits.len(),
        !bits[first],
        forall|s: int| 0 <= s < first ==> !#[trigger] crate::mm::bitmap::free_run(bits, s, 1),
    ensures
        free_page_list(bits, first + 1) == seq![(first * 4096) as u64],
{
    assert forall|n: int| 0 <= n <= first implies #[trigger] free_page_list(bits, n) == Seq::<u64>::empty() by {
        lemma_free_page_list_empty(bits, first, n);
    }
    assert(free_page_list(bits, first) == Seq::<u64>::empty());
    assert(free_page_list(bits, first + 1) =~= seq![(first * 4096) as u64]);
}

proof fn lemma_free_page_list_empty(bits: Seq<bool>, first: int, n: int)
    requires
        0 <= n <= first,
        forall|s: int| 0 <= s < first ==> !#[trigger] crate::mm::bitmap::free_run(bits, s, 1),
    ensures
        free_page_list(bits, n) == Seq::<u64>::empty(),
    decreases n,
{
    if n > 0 {
        assert(!crate::mm::bitmap::free_run(bits, n - 1, 1));
        assert(bits[n - 1]);
        lemma_free_page_list_empty(bits, first, n - 1);
    }
}

} // verus!
