//! The physical page allocator: a bitmap of used pages, with a list of free
//! pages in front of it for quick allocation.
use vstd::prelude::*;
use crate::mm::{PhyAddr, LimineMemMapEntry};
use crate::mm::bitmap::{Bitmap, is_first_free_run, free_run, memory_map_fits, has_bitmap_region, bitmap_length, initial_bits,
    bitmap_region_base, bitmap_region_index, bitmap_region, memory_map_fits_check};
use crate::mm::free_list::{FreeList, free_page_list, has_free_page};

verus! {

/// What the allocator holds: the page bitmap and the free list (each
/// there or not), and its three page counters.
pub struct PhysMemView {
    pub bits: Option<Seq<bool>>,
    pub list: Option<Seq<u64>>,
    pub total_pages: u32,
    pub free_pages: u32,
    pub used_pages: u32,
}

/// The lowest page below page `total` that is free, if any.
pub open spec fn lowest_free_page(bits: Seq<bool>, total: int) -> Option<int> {
    if exists|i: int| #[trigger] is_first_free_run(bits, 1, total, i) {
        Some(choose|i: int| #[trigger] is_first_free_run(bits, 1, total, i))
    } else {
        None
    }
}

/// Allocation from the bitmap alone: the lowest free page below
/// `total_pages` is marked used and its address returned.
pub open spec fn bitmap_alloc(s: PhysMemView) -> (PhysMemView, Option<PhyAddr>) {
    let bits = s.bits.unwrap();
    match lowest_free_page(bits, s.total_pages as int) {
        Some(i) => (
            PhysMemView {
                bits: Some(bits.update(i, true)),
                list: s.list,
                total_pages: s.total_pages,
                free_pages: (s.free_pages - 1) as u32,
                used_pages: (s.used_pages + 1) as u32,
            },
            Some(PhyAddr((i * 4096) as u64)),
        ),
        None => (s, None),
    }
}

/// What allocating a page does. With no free page counted, nothing. With a
/// free list, its head is taken: an empty list is dropped and nothing is
/// returned; a head page that is free in the bitmap is marked used and
/// returned; a head page that is already used means the list cannot be
/// trusted, so it is dropped and the bitmap is searched. Without a free list
/// the bitmap is searched.
pub open spec fn alloc_page_spec(s: PhysMemView) -> (PhysMemView, Option<PhyAddr>) {
    if s.free_pages == 0 {
        (s, None)
    } else {
        match s.list {
            Some(l) => if l.len() == 0 {
                (PhysMemView { list: None, ..s }, None)
            } else {
                let a = l[0];
                let bits = s.bits.unwrap();
                if !bits[a as int / 4096] {
                    (
                        PhysMemView {
                            bits: Some(bits.update(a as int / 4096, true)),
                            list: Some(l.drop_first()),
                            total_pages: s.total_pages,
                            free_pages: (s.free_pages - 1) as u32,
                            used_pages: (s.used_pages + 1) as u32,
                        },
                        Some(PhyAddr(a)),
                    )
                } else {
                    bitmap_alloc(PhysMemView { list: None, ..s })
                }
            },
            None => bitmap_alloc(s),
        }
    }
}

/// What freeing the page at `addr` does: the page is marked free, put at the
/// head of the free list (when there is one), and counted as free again.
pub open spec fn free_page_spec(s: PhysMemView, addr: u64) -> PhysMemView {
    PhysMemView {
        bits: Some(s.bits.unwrap().update(addr as int / 4096, false)),
        list: match s.list {
            Some(l) => Some(seq![addr] + l),
            None => None,
        },
        total_pages: s.total_pages,
        free_pages: (s.free_pages + 1) as u32,
        used_pages: (s.used_pages - 1) as u32,
    }
}

/// What an allocation that hands out no page leaves behind: no page counted
/// free, or the free list dropped; and when there was no free list to begin
/// with (`had_list` false), no free page below `total_pages` in the bitmap.
pub open spec fn out_of_pages(a: PhysMemView, had_list: bool) -> bool {
    ||| a.free_pages == 0
    ||| a.list is None && (had_list || lowest_free_page(a.bits.unwrap(), a.total_pages as int) is None)
}

/// `n` allocations in a row, starting from `a`, each hand out a page.
pub open spec fn can_alloc(a: PhysMemView, n: nat) -> bool
    decreases n,
{
    if n == 0 {
        true
    } else {
        alloc_page_spec(a).1 is Some && can_alloc(alloc_page_spec(a).0, (n - 1) as nat)
    }
}

/// Allocations that could go on `n` times in a row can go on fewer times.
pub proof fn lemma_can_alloc_fewer(a: PhysMemView, n: nat, k: nat)
    requires
        can_alloc(a, n),
        k <= n,
    ensures
        can_alloc(a, k),
    decreases k,
{
    if k > 0 {
        lemma_can_alloc_fewer(alloc_page_spec(a).0, (n - 1) as nat, (k - 1) as nat);
    }
}

/// The allocator is consistent: every page is counted once, as used or as
/// free; without a bitmap there are no pages and no list; the pages below
/// `total_pages` and those on the list all have a bit.
pub open spec fn phys_wf(s: PhysMemView) -> bool {
    &&& s.used_pages + s.free_pages == s.total_pages
    &&& s.bits is None ==> s.list is None && s.total_pages == 0
    &&& s.bits matches Some(b) ==> {
        &&& s.total_pages <= b.len()
        &&& b.len() <= usize::MAX
        &&& s.list matches Some(l) ==> forall|j: int| 0 <= j < l.len() ==> #[trigger] l[j] / 4096 < b.len()
    }
}

/// The page `addr` may be freed: there is a bitmap, the page has a bit, the
/// bit says the page is used, and some page is counted as used.
pub open spec fn can_free(s: PhysMemView, addr: u64) -> bool {
    &&& s.bits matches Some(b)
    &&& addr / 4096 < b.len()
    &&& b[addr as int / 4096]
    &&& s.used_pages > 0
}

/// How many of pages `0 .. n` are free.
pub open spec fn count_free(bits: Seq<bool>, n: int) -> int
    decreases n,
{
    if n <= 0 {
        0
    } else {
        count_free(bits, n - 1) + if bits[n - 1] { 0int } else { 1int }
    }
}

proof fn lemma_count_free_bounded(bits: Seq<bool>, n: int)
    requires
        0 <= n,
    ensures
        0 <= count_free(bits, n) <= n,
    decreases n,
{
    if n > 0 {
        lemma_count_free_bounded(bits, n - 1);
    }
}

/// The allocator's counts and free list say what its bitmap says: the pages
/// counted free are the free pages below `total_pages`, and a free list holds
/// each of them once, page aligned, and nothing else.
pub open spec fn counts_exact(s: PhysMemView) -> bool {
    &&& s.bits is Some
    &&& s.total_pages <= s.bits.unwrap().len()
    &&& s.free_pages == count_free(s.bits.unwrap(), s.total_pages as int)
    &&& s.free_pages + s.used_pages == s.total_pages
    &&& s.list matches Some(l) ==> {
        &&& l.no_duplicates()
        &&& forall|j: int| 0 <= j < l.len() ==> #[trigger] l[j] % 4096 == 0 && l[j] / 4096 < s.total_pages
            && !s.bits.unwrap()[l[j] as int / 4096]
        &&& forall|i: int| 0 <= i < s.total_pages && !s.bits.unwrap()[i] ==> #[trigger] l.contains((i * 4096) as u64)
    }
}

/// Marking free page `x` used takes one from the count of free pages below
/// `n` when `x` is below `n`; marking used page `x` free adds one.
proof fn lemma_count_free_update(bits: Seq<bool>, n: int, x: int, v: bool)
    requires
        0 <= x < bits.len(),
        n <= bits.len(),
        bits[x] != v,
    ensures
        count_free(bits.update(x, v), n) == count_free(bits, n) + if x < n { if v { -1int } else { 1int } } else { 0int },
    decreases n,
{
    if n > 0 {
        lemma_count_free_update(bits, n - 1, x, v);
    }
}

/// Allocating keeps the counts and the free list exact.
pub proof fn lemma_alloc_keeps_counts(s: PhysMemView)
    requires
        phys_wf(s),
        counts_exact(s),
    ensures
        counts_exact(alloc_page_spec(s).0),
        alloc_page_spec(s).0.total_pages == s.total_pages,
{
    let b = s.bits.unwrap();
    let (s1, r) = alloc_page_spec(s);
    if s.free_pages > 0 {
        if s.list is Some && s.list.unwrap().len() > 0 && !b[s.list.unwrap()[0] as int / 4096] {
            let l = s.list.unwrap();
            let a = l[0];
            let x = a as int / 4096;
            assert(l[0] % 4096 == 0 && l[0] / 4096 < s.total_pages);
            lemma_count_free_update(b, s.total_pages as int, x, true);
            let b1 = b.update(x, true);
            let l1 = l.drop_first();
            assert forall|j: int| 0 <= j < l1.len() implies #[trigger] l1[j] % 4096 == 0 && l1[j] / 4096 < s.total_pages
                && !b1[l1[j] as int / 4096] by {
                assert(l1[j] == l[j + 1]);
                assert(l[j + 1] % 4096 == 0);
                assert(l[j + 1] != l[0]);
            }
            assert forall|i: int| 0 <= i < s.total_pages && !b1[i] implies #[trigger] l1.contains((i * 4096) as u64) by {
                assert(l.contains((i * 4096) as u64));
                let j = choose|j: int| 0 <= j < l.len() && l[j] == (i * 4096) as u64;
                assert(j != 0);
                assert(l1[j - 1] == l[j]);
            }
        } else if s.list is None || s.list.unwrap().len() > 0 {
            let s0 = PhysMemView { list: None, ..s };
            if lowest_free_page(b, s.total_pages as int) is Some {
                let i = choose|i: int| #[trigger] is_first_free_run(b, 1, s.total_pages as int, i);
                assert(free_run(b, i, 1));
                assert(!b[i]);
                lemma_count_free_update(b, s.total_pages as int, i, true);
            }
        }
    }
}

/// Freeing a used page below `total_pages` at a page boundary keeps the
/// counts and the free list exact.
pub proof fn lemma_free_keeps_counts(s: PhysMemView, addr: u64)
    requires
        phys_wf(s),
        counts_exact(s),
        can_free(s, addr),
        addr % 4096 == 0,
        addr / 4096 < s.total_pages,
    ensures
        counts_exact(free_page_spec(s, addr)),
        free_page_spec(s, addr).total_pages == s.total_pages,
{
    let b = s.bits.unwrap();
    let x = addr as int / 4096;
    lemma_count_free_update(b, s.total_pages as int, x, false);
    let b1 = b.update(x, false);
    if s.list is Some {
        let l = s.list.unwrap();
        let l1 = seq![addr] + l;
        assert(!l.contains(addr)) by {
            if l.contains(addr) {
                let j = choose|j: int| 0 <= j < l.len() && l[j] == addr;
                assert(!b[l[j] as int / 4096]);
            }
        }
        assert(l1.no_duplicates()) by {
            assert forall|i: int, j: int| 0 <= i < l1.len() && 0 <= j < l1.len() && i != j implies l1[i] != l1[j] by {
                if i == 0 {
                    assert(l1[j] == l[j - 1]);
                } else if j == 0 {
                    assert(l1[i] == l[i - 1]);
                } else {
                    assert(l1[i] == l[i - 1] && l1[j] == l[j - 1]);
                }
            }
        }
        assert forall|j: int| 0 <= j < l1.len() implies #[trigger] l1[j] % 4096 == 0 && l1[j] / 4096 < s.total_pages
            && !b1[l1[j] as int / 4096] by {
            if j > 0 {
                assert(l1[j] == l[j - 1]);
                assert(!b[l[j - 1] as int / 4096]);
            }
        }
        assert forall|i: int| 0 <= i < s.total_pages && !b1[i] implies #[trigger] l1.contains((i * 4096) as u64) by {
            if i == x {
                assert(l1[0] == (i * 4096) as u64);
            } else {
                assert(l.contains((i * 4096) as u64));
                let j = choose|j: int| 0 <= j < l.len() && l[j] == (i * 4096) as u64;
                assert(l1[j + 1] == l[j]);
            }
        }
    }
}

/// A free page below `n` makes the count of free pages below `n` positive,
/// and the other way round.
proof fn lemma_count_free_pos(bits: Seq<bool>, n: int)
    requires
        count_free(bits, n) > 0,
    ensures
        exists|i: int| 0 <= i < n && !#[trigger] bits[i],
    decreases n,
{
    if n > 0 {
        if bits[n - 1] {
            lemma_count_free_pos(bits, n - 1);
            let i = choose|i: int| 0 <= i < n - 1 && !#[trigger] bits[i];
            assert(0 <= i < n && !bits[i]);
        } else {
            assert(!bits[n - 1]);
        }
    }
}

/// A free page below `total` means there is a lowest one.
proof fn lemma_lowest_free_exists(bits: Seq<bool>, total: int, i: int)
    requires
        0 <= i < total,
        !bits[i],
    ensures
        lowest_free_page(bits, total) is Some,
    decreases i,
{
    if forall|s: int| 0 <= s < i ==> !#[trigger] free_run(bits, s, 1) {
        assert(free_run(bits, i, 1));
        assert(is_first_free_run(bits, 1, total, i));
    } else {
        let s = choose|s: int| 0 <= s < i && #[trigger] free_run(bits, s, 1);
        assert(!bits[s]);
        lemma_lowest_free_exists(bits, total, s);
    }
}

/// An allocator whose counts and free list are exact hands out as many pages
/// in a row as it counts free.
pub proof fn lemma_free_pages_can_alloc(a: PhysMemView, k: nat)
    requires
        phys_wf(a),
        counts_exact(a),
        k <= a.free_pages,
    ensures
        can_alloc(a, k),
    decreases k,
{
    if k > 0 {
        let b = a.bits.unwrap();
        lemma_count_free_pos(b, a.total_pages as int);
        let i = choose|i: int| 0 <= i < a.total_pages && !#[trigger] b[i];
        match a.list {
            Some(l) => {
                assert(l.contains((i * 4096) as u64));
                assert(l.len() > 0);
                assert(!b[l[0] as int / 4096]);
            },
            None => {
                lemma_lowest_free_exists(b, a.total_pages as int, i);
            },
        }
        assert(alloc_page_spec(a).1 is Some);
        lemma_alloc_keeps_counts(a);
        lemma_alloc_preserves_wf(a);
        assert(alloc_page_spec(a).0.free_pages == a.free_pages - 1);
        lemma_free_pages_can_alloc(alloc_page_spec(a).0, (k - 1) as nat);
    }
}

/// The allocator that booting with `entries` and a memory of
/// `memory_size` bytes builds: the initial bitmap for its pages, every free
/// page up to and including page `memory_size / 4096` on the list in
/// ascending order, and the pages below `memory_size / 4096` counted.
pub open spec fn initial_allocator(entries: Seq<LimineMemMapEntry>, memory_size: u32) -> PhysMemView {
    let total = memory_size / 4096;
    let bits = initial_bits(entries, total as int);
    PhysMemView {
        bits: Some(bits),
        list: Some(free_page_list(bits, total + 1)),
        total_pages: total,
        free_pages: count_free(bits, total as int) as u32,
        used_pages: (total - count_free(bits, total as int)) as u32,
    }
}

/// The free-page list of pages `0 .. n` holds each free page below `n` once,
/// at its page address, and nothing else.
proof fn lemma_free_page_list_exact(bits: Seq<bool>, n: int)
    requires
        0 <= n <= bits.len(),
        n * 4096 <= u64::MAX,
    ensures
        free_page_list(bits, n).no_duplicates(),
        forall|j: int| 0 <= j < free_page_list(bits, n).len() ==> {
            let e = #[trigger] free_page_list(bits, n)[j];
            &&& e % 4096 == 0
            &&& e / 4096 < n
            &&& !bits[e as int / 4096]
        },
        forall|i: int| 0 <= i < n && !bits[i] ==> #[trigger] free_page_list(bits, n).contains((i * 4096) as u64),
    decreases n,
{
    if n > 0 {
        lemma_free_page_list_exact(bits, n - 1);
        let l0 = free_page_list(bits, n - 1);
        let l = free_page_list(bits, n);
        if !bits[n - 1] {
            let e = ((n - 1) * 4096) as u64;
            assert(l == l0.push(e));
            assert(e / 4096 == n - 1);
            assert(!l0.contains(e)) by {
                if l0.contains(e) {
                    let j = choose|j: int| 0 <= j < l0.len() && l0[j] == e;
                    assert(l0[j] / 4096 < n - 1);
                }
            }
            assert forall|a: int, b: int| 0 <= a < l.len() && 0 <= b < l.len() && a != b implies l[a] != l[b] by {
                if a < l0.len() && b < l0.len() {
                    assert(l[a] == l0[a] && l[b] == l0[b]);
                } else if a < l0.len() {
                    assert(l[a] == l0[a]);
                } else {
                    assert(l[b] == l0[b]);
                }
            }
            assert forall|j: int| 0 <= j < l.len() implies {
                let x = #[trigger] l[j];
                &&& x % 4096 == 0
                &&& x / 4096 < n
                &&& !bits[x as int / 4096]
            } by {
                if j < l0.len() {
                    assert(l[j] == l0[j]);
                }
            }
            assert forall|i: int| 0 <= i < n && !bits[i] implies #[trigger] l.contains((i * 4096) as u64) by {
                if i < n - 1 {
                    assert(l0.contains((i * 4096) as u64));
                    let j = choose|j: int| 0 <= j < l0.len() && l0[j] == (i * 4096) as u64;
                    assert(l[j] == l0[j]);
                } else {
                    assert(l[l.len() - 1] == e);
                }
            }
        }
    }
}

/// The allocator booting builds has exact counts and list when the page
/// just above the counted ones is not free (as when memory ends on a page
/// boundary): the list then holds exactly the free pages below
/// `total_pages`.
pub proof fn lemma_initial_counts_exact(entries: Seq<LimineMemMapEntry>, memory_size: u32)
    requires
        phys_wf(initial_allocator(entries, memory_size)),
        (memory_size / 4096) < initial_allocator(entries, memory_size).bits.unwrap().len(),
        initial_allocator(entries, memory_size).bits.unwrap()[(memory_size / 4096) as int],
    ensures
        counts_exact(initial_allocator(entries, memory_size)),
{
    let a = initial_allocator(entries, memory_size);
    let total = (memory_size / 4096) as int;
    let bits = a.bits.unwrap();
    assert(free_page_list(bits, total + 1) == free_page_list(bits, total));
    lemma_free_page_list_exact(bits, total);
    lemma_count_free_bounded(bits, total);
}

/// The physical page allocator.
pub struct PhysMemAllocator {
    bitmap: Option<Bitmap>,
    free_list: Option<FreeList>,
    total_pages: u32,
    free_pages: u32,
    used_pages: u32,
}

impl View for PhysMemAllocator {
    type V = PhysMemView;

    closed spec fn view(&self) -> PhysMemView {
        PhysMemView {
            bits: match self.bitmap {
                Some(b) => Some(b@),
                None => None,
            },
            list: match self.free_list {
                Some(l) => Some(l@),
                None => None,
            },
            total_pages: self.total_pages,
            free_pages: self.free_pages,
            used_pages: self.used_pages,
        }
    }
}

proof fn lemma_first_free_run_unique(bits: Seq<bool>, total: int, a: int, b: int)
    requires
        is_first_free_run(bits, 1, total, a),
        is_first_free_run(bits, 1, total, b),
    ensures
        a == b,
{
    if a < b {
        assert(free_run(bits, a, 1));
    } else if b < a {
        assert(free_run(bits, b, 1));
    }
}

/// What building the allocator needs: the memory map fits the bitmap, the
/// bitmap's last byte has a bit past page `memory_size / 4096`, some usable
/// region holds the bitmap and its place in the direct map has an address,
/// and some page below `memory_size / 4096` is free.
pub open spec fn init_ready(memory_size: u32, entries: Seq<LimineMemMapEntry>, hhdm: u64) -> bool {
    let total = (memory_size / 4096) as int;
    &&& memory_map_fits(entries, total)
    &&& total % 8 != 0
    &&& has_bitmap_region(entries, bitmap_length(total))
    &&& bitmap_region_base(entries, total) + hhdm <= u64::MAX
    &&& has_free_page(initial_bits(entries, total), total)
}

/// Builds the allocator for a memory of `memory_size` bytes from the
/// bootloader's memory map, with the bitmap at the start of the first usable
/// region that holds it, seen through the direct map at `limine_hhdm_offset`.
pub fn init(memory_size: u32, mem_map_entries: &Vec<LimineMemMapEntry>, limine_hhdm_offset: u64) -> (a: PhysMemAllocator)
    requires
        init_ready(memory_size, mem_map_entries@, limine_hhdm_offset),
    ensures
        a@ == initial_allocator(mem_map_entries@, memory_size),
        phys_wf(a@),
        a.bitmap_addr_spec() == Some((mem_map_entries@[bitmap_region_index(mem_map_entries@, (memory_size / 4096) as int)].base + limine_hhdm_offset) as u64),
        a@.bits.unwrap()[(memory_size / 4096) as int] ==> counts_exact(a@),
{
    let total_pages: u32 = memory_size / 0x1000;
    let bitmap = Bitmap::from_memory_map(mem_map_entries, limine_hhdm_offset, total_pages);
    let free_list = FreeList::from_bitmap(&bitmap, total_pages);
    let ghost bits = bitmap@;
    let mut used_pages: u32 = 0;
    let mut free_pages: u32 = 0;
    let mut index: u32 = 0;
    while index < total_pages
        invariant
            bits == bitmap@,
            total_pages < bits.len(),
            index <= total_pages,
            free_pages == count_free(bits, index as int),
            used_pages + free_pages == index,
        decreases total_pages - index,
    {
        proof {
            lemma_count_free_bounded(bits, index as int);
        }
        if bitmap.is_used(index as usize) {
            used_pages = used_pages + 1;
        } else {
            free_pages = free_pages + 1;
        }
        index = index + 1;
    }
    let a = PhysMemAllocator {
        bitmap: Some(bitmap),
        free_list: Some(free_list),
        total_pages,
        free_pages,
        used_pages,
    };
    proof {
        lemma_free_page_list_bounded(bits, total_pages + 1);
    }
    assert(a@ =~= initial_allocator(mem_map_entries@, memory_size));
    proof {
        if bits[total_pages as int] {
            lemma_initial_counts_exact(mem_map_entries@, memory_size);
        }
    }
    a
}

/// Whether `init` can build the allocator (see `init_ready`).
pub fn init_check(memory_size: u32, mem_map_entries: &Vec<LimineMemMapEntry>, limine_hhdm_offset: u64) -> (ok: bool)
    ensures
        ok == init_ready(memory_size, mem_map_entries@, limine_hhdm_offset),
{
    let total_pages: u32 = memory_size / 0x1000;
    if !memory_map_fits_check(mem_map_entries, total_pages) || total_pages % 8 == 0 {
        return false;
    }
    let region = match bitmap_region(mem_map_entries, total_pages) {
        Some(k) => k,
        None => return false,
    };
    if mem_map_entries[region].base > u64::MAX - limine_hhdm_offset {
        return false;
    }
    let bitmap = Bitmap::from_memory_map(mem_map_entries, limine_hhdm_offset, total_pages);
    let found = bitmap.search_free_ranges(1, total_pages);
    proof {
        let bits = bitmap@;
        if has_free_page(bits, total_pages as int) {
            let i = choose|i: int| 0 <= i < total_pages && !#[trigger] bits[i];
            assert(free_run(bits, i, 1));
        }
        if found is Some {
            assert(free_run(bits, found.unwrap() as int, 1));
            assert(!bits[found.unwrap() as int]);
        }
    }
    found.is_some()
}

proof fn lemma_free_page_list_bounded(bits: Seq<bool>, n: int)
    requires
        0 <= n <= 0x1_0000_0000,
    ensures
        forall|j: int| 0 <= j < free_page_list(bits, n).len() ==> #[trigger] free_page_list(bits, n)[j] / 4096 < n,
        forall|j: int| 0 <= j < free_page_list(bits, n).len() ==> #[trigger] free_page_list(bits, n)[j] % 4096 == 0,
    decreases n,
{
    if n > 0 {
        lemma_free_page_list_bounded(bits, n - 1);
        let v = ((n - 1) * 4096) as u64;
        assert(v == (n - 1) * 4096);
        assert(v / 4096 == n - 1 && v % 4096 == 0);
        let prev = free_page_list(bits, n - 1);
        if !bits[n - 1] {
            assert(free_page_list(bits, n) == prev.push(v));
            assert forall|j: int| 0 <= j < prev.push(v).len() implies #[trigger] prev.push(v)[j] / 4096 < n && prev.push(v)[j] % 4096 == 0 by {
                if j < prev.len() {
                    assert(prev.push(v)[j] == prev[j]);
                }
            }
        }
    }
}

impl PhysMemAllocator {
    /// An allocator with no pages.
    pub fn new() -> (a: PhysMemAllocator)
        ensures
            a@ == (PhysMemView { bits: None, list: None, total_pages: 0, free_pages: 0, used_pages: 0 }),
            phys_wf(a@),
    {
        PhysMemAllocator { bitmap: None, free_list: None, total_pages: 0, free_pages: 0, used_pages: 0 }
    }

    /// Where the bitmap's bytes live in the direct map, when there is one.
    pub fn bitmap_addr(&self) -> (r: Option<u64>)
        ensures
            r == self.bitmap_addr_spec(),
    {
        match &self.bitmap {
            Some(b) => Some(b.addr),
            None => None,
        }
    }

    /// Where the bitmap's bytes live in the direct map, when there is one.
    pub closed spec fn bitmap_addr_spec(&self) -> Option<u64> {
        match self.bitmap {
            Some(b) => Some(b.addr),
            None => None,
        }
    }

    /// The number of pages the allocator manages.
    pub fn total_pages(&self) -> (n: u32)
        ensures
            n == self@.total_pages,
    {
        self.total_pages
    }

    /// The number of pages counted as free.
    pub fn free_pages(&self) -> (n: u32)
        ensures
            n == self@.free_pages,
    {
        self.free_pages
    }

    /// The number of pages counted as used.
    pub fn used_pages(&self) -> (n: u32)
        ensures
            n == self@.used_pages,
    {
        self.used_pages
    }

    /// Whether `free_page` may be called on physical address `addr`: the
    /// allocator counts a page as used and `addr` lies in a page it marks
    /// used.
    pub fn can_free_check(&self, addr: u64) -> (ok: bool)
        requires
            phys_wf(self@),
        ensures
            ok == can_free(self@, addr),
    {
        if self.used_pages() == 0 {
            return false;
        }
        let q: u64 = addr / 4096;
        if q > usize::MAX as u64 {
            proof {
                if self@.bits is Some {
                    assert(self@.bits.unwrap().len() <= usize::MAX);
                }
            }
            return false;
        }
        match self.page_is_used(q as usize) {
            Some(u) => u,
            None => false,
        }
    }

    /// Whether page `index` is marked used; nothing when the page has no bit.
    pub fn page_is_used(&self, index: usize) -> (r: Option<bool>)
        ensures
            r == match self@.bits {
                Some(b) => if index < b.len() { Some(b[index as int]) } else { None },
                None => None,
            },
    {
        match &self.bitmap {
            Some(b) => if index / 8 < b.data.len() {
                Some(b.is_used(index))
            } else {
                None
            },
            None => None,
        }
    }

    /// The pages on the free list, head first, when there is a list.
    pub fn free_list_pages(&self) -> (r: Option<Vec<u64>>)
        ensures
            match self@.list {
                Some(l) => r matches Some(v) && v@ == l,
                None => r is None,
            },
    {
        match &self.free_list {
            Some(l) => Some(l.pages()),
            None => None,
        }
    }

    /// Allocation from the bitmap alone.
    fn alloc_from_bitmap(&mut self) -> (r: Option<PhyAddr>)
        requires
            phys_wf(old(self)@),
            old(self)@.bits is Some,
            old(self)@.free_pages > 0,
            old(self)@.list is None,
        ensures
            phys_wf(final(self)@),
            (final(self)@, r) == bitmap_alloc(old(self)@),
            final(self).bitmap_addr_spec() == old(self).bitmap_addr_spec(),
    {
        let total: u32 = self.total_pages;
        let found = match &self.bitmap {
            Some(b) => b.search_free_ranges(1, total),
            None => None,
        };
        match found {
            Some(index) => {
                proof {
                    let bits = old(self)@.bits.unwrap();
                    let i = choose|i: int| #[trigger] is_first_free_run(bits, 1, total as int, i);
                    lemma_first_free_run_unique(bits, total as int, i, index as int);
                }
                match &mut self.bitmap {
                    Some(b) => b.set(index),
                    None => {},
                }
                self.used_pages = self.used_pages + 1;
                self.free_pages = self.free_pages - 1;
                let addr: u64 = Bitmap::index_to_addr(index);
                assert(final(self)@ =~= bitmap_alloc(old(self)@).0);
                Some(PhyAddr(addr))
            },
            None => None,
        }
    }

    /// The page that `alloc_page` would hand out now, leaving the allocator
    /// as it is.
    pub fn next_page(&self) -> (r: Option<PhyAddr>)
        requires
            phys_wf(self@),
        ensures
            r == alloc_page_spec(self@).1,
    {
        if self.free_pages == 0 {
            return None;
        }
        match &self.free_list {
            Some(l) => match l.head() {
                None => return None,
                Some(addr) => {
                    let index: usize = Bitmap::addr_to_index(addr.0);
                    let used: bool = match &self.bitmap {
                        Some(b) => b.is_used(index),
                        None => true,
                    };
                    if !used {
                        return Some(addr);
                    }
                },
            },
            None => {},
        }
        let total: u32 = self.total_pages;
        let found = match &self.bitmap {
            Some(b) => b.search_free_ranges(1, total),
            None => None,
        };
        match found {
            Some(index) => {
                proof {
                    let bits = self@.bits.unwrap();
                    let i = choose|i: int| #[trigger] is_first_free_run(bits, 1, total as int, i);
                    lemma_first_free_run_unique(bits, total as int, i, index as int);
                }
                Some(PhyAddr(Bitmap::index_to_addr(index)))
            },
            None => None,
        }
    }

    /// Allocates a page: from the head of the free list when that page is
    /// free, else the lowest free page of the bitmap.
    pub fn alloc_page(&mut self) -> (r: Option<PhyAddr>)
        requires
            phys_wf(old(self)@),
        ensures
            phys_wf(final(self)@),
            (final(self)@, r) == alloc_page_spec(old(self)@),
            final(self).bitmap_addr_spec() == old(self).bitmap_addr_spec(),
            counts_exact(old(self)@) ==> counts_exact(final(self)@),
    {
        proof {
            if counts_exact(self@) {
                lemma_alloc_keeps_counts(self@);
            }
        }
        if self.free_pages <= 0 {
            return None;
        }
        match self.free_list.take() {
            Some(mut free_list) => {
                let head = free_list.get();
                match head {
                    None => {
                        assert(final(self)@ =~= alloc_page_spec(old(self)@).0);
                        return None;
                    },
                    Some(addr) => {
                        let index: usize = Bitmap::addr_to_index(addr.0);
                        let used: bool = match &self.bitmap {
                            Some(b) => b.is_used(index),
                            None => true,
                        };
                        if !used {
                            match &mut self.bitmap {
                                Some(b) => b.set(index),
                                None => {},
                            }
                            self.used_pages = self.used_pages + 1;
                            self.free_pages = self.free_pages - 1;
                            self.free_list = Some(free_list);
                            assert(final(self)@ =~= alloc_page_spec(old(self)@).0);
                            return Some(addr);
                        }
                        self.free_list = None;
                    },
                }
            },
            None => {},
        }
        self.alloc_from_bitmap()
    }

    /// Frees the page at `addr`: puts it at the head of the free list and
    /// marks it free.
    pub fn free_page(&mut self, addr: PhyAddr)
        requires
            phys_wf(old(self)@),
            can_free(old(self)@, addr.0),
        ensures
            phys_wf(final(self)@),
            final(self)@ == free_page_spec(old(self)@, addr.0),
            final(self).bitmap_addr_spec() == old(self).bitmap_addr_spec(),
            counts_exact(old(self)@) && addr.0 % 4096 == 0 && addr.0 / 4096 < old(self)@.total_pages ==> counts_exact(final(self)@),
    {
        proof {
            if counts_exact(self@) && addr.0 % 4096 == 0 && addr.0 / 4096 < self@.total_pages {
                lemma_free_keeps_counts(self@, addr.0);
            }
        }
        let index: usize = Bitmap::addr_to_index(addr.0);
        match &mut self.free_list {
            Some(l) => l.put(addr),
            None => {},
        }
        match &mut self.bitmap {
            Some(b) => b.clear(index),
            None => {},
        }
        self.free_pages = self.free_pages + 1;
        self.used_pages = self.used_pages - 1;
        assert(final(self)@ =~= free_page_spec(old(self)@, addr.0));
    }
}

/// An allocated page was free and is used afterwards: the page handed out is
/// one the bitmap had marked free, and the allocation marks it used.
pub proof fn lemma_alloc_takes_free_page(s: PhysMemView)
    requires
        phys_wf(s),
        alloc_page_spec(s).1 is Some,
    ensures
        ({
            let (s1, r) = alloc_page_spec(s);
            let i = r.unwrap().0 as int / 4096;
            &&& s.bits matches Some(b) && 0 <= i < b.len() && !b[i]
            &&& s1.bits matches Some(b1) && b1[i]
            &&& can_free(s1, r.unwrap().0)
        }),
{
    let (s1, r) = alloc_page_spec(s);
    let bits = s.bits.unwrap();
    if s.list is None || s.list.unwrap().len() == 0 || bits[s.list.unwrap()[0] as int / 4096] {
        let i = choose|i: int| #[trigger] is_first_free_run(bits, 1, s.total_pages as int, i);
        assert(free_run(bits, i, 1));
        assert(((i * 4096) as u64) as int / 4096 == i);
    }
}

/// Freeing the page just allocated undoes the allocation: the bitmap and the
/// counters are back as they were, and when the page came from the head of
/// the free list, the list is too.
pub proof fn lemma_free_undoes_alloc(s: PhysMemView)
    requires
        phys_wf(s),
        alloc_page_spec(s).1 is Some,
    ensures
        ({
            let (s1, r) = alloc_page_spec(s);
            let s2 = free_page_spec(s1, r.unwrap().0);
            &&& s2.bits == s.bits
            &&& s2.total_pages == s.total_pages
            &&& s2.free_pages == s.free_pages
            &&& s2.used_pages == s.used_pages
            &&& (s.list matches Some(l) && l.len() > 0 && !s.bits.unwrap()[l[0] as int / 4096]) ==> s2 == s
        }),
{
    lemma_alloc_takes_free_page(s);
    let (s1, r) = alloc_page_spec(s);
    let s2 = free_page_spec(s1, r.unwrap().0);
    let bits = s.bits.unwrap();
    let i = r.unwrap().0 as int / 4096;
    assert(s2.bits.unwrap() =~= bits);
    if s.list is Some {
        let l = s.list.unwrap();
        if l.len() > 0 && !bits[l[0] as int / 4096] {
            assert(s2.list.unwrap() =~= l);
        }
    }
}

/// Two allocations in a row hand out different pages.
pub proof fn lemma_alloc_twice_distinct(s: PhysMemView)
    requires
        phys_wf(s),
        alloc_page_spec(s).1 is Some,
        alloc_page_spec(alloc_page_spec(s).0).1 is Some,
    ensures
        alloc_page_spec(s).1.unwrap().0 as int / 4096 != alloc_page_spec(alloc_page_spec(s).0).1.unwrap().0 as int / 4096,
{
    lemma_alloc_takes_free_page(s);
    lemma_alloc_preserves_wf(s);
    lemma_alloc_takes_free_page(alloc_page_spec(s).0);
}

/// Allocation keeps the allocator consistent.
pub proof fn lemma_alloc_preserves_wf(s: PhysMemView)
    requires
        phys_wf(s),
    ensures
        phys_wf(alloc_page_spec(s).0),
{
    let (s1, r) = alloc_page_spec(s);
    if s.free_pages > 0 {
        let bits = s.bits.unwrap();
        if !(s.list is None || s.list.unwrap().len() == 0 || bits[s.list.unwrap()[0] as int / 4096]) {
            let l = s.list.unwrap();
            assert forall|j: int| 0 <= j < l.drop_first().len() implies #[trigger] l.drop_first()[j] / 4096 < bits.len() by {
                assert(l.drop_first()[j] == l[j + 1]);
            }
        } else if lowest_free_page(bits, s.total_pages as int) is Some {
            let i = choose|i: int| #[trigger] is_first_free_run(bits, 1, s.total_pages as int, i);
            assert(free_run(bits, i, 1));
        }
    }
}


/// An allocation never brings back a dropped free list, and one that hands
/// out no page leaves the allocator out of pages.
pub proof fn lemma_alloc_failure(s: PhysMemView)
    requires
        phys_wf(s),
    ensures
        s.list is None ==> alloc_page_spec(s).0.list is None,
        alloc_page_spec(s).1 is None ==> out_of_pages(alloc_page_spec(s).0, s.list is Some),
{
}

/// Allocation only ever marks pages used: the bitmap keeps its length, every
/// used page stays used, and the page handed out has a bit and is used
/// afterwards. Without a bitmap nothing happens.
pub proof fn lemma_alloc_marks_used(s: PhysMemView)
    requires
        phys_wf(s),
    ensures
        s.bits is None ==> alloc_page_spec(s) == (s, None::<PhyAddr>),
        s.bits is Some ==> {
            let b0 = s.bits.unwrap();
            let b1 = alloc_page_spec(s).0.bits.unwrap();
            &&& alloc_page_spec(s).0.bits is Some
            &&& b1.len() == b0.len()
            &&& forall|x: int| 0 <= x < b0.len() && b0[x] ==> #[trigger] b1[x]
            &&& alloc_page_spec(s).1 matches Some(pa) ==> pa.0 as int / 4096 < b0.len() && b1[pa.0 as int / 4096]
        },
{
    if alloc_page_spec(s).1 is Some {
        lemma_alloc_takes_free_page(s);
    }
}

/// A page just freed is the next one allocated while the free list is kept:
/// it sits at the head of the list and its bit is clear.
pub proof fn lemma_alloc_after_free_returns_it(s: PhysMemView, addr: u64)
    requires
        phys_wf(s),
        can_free(s, addr),
        s.list is Some,
    ensures
        alloc_page_spec(free_page_spec(s, addr)).1 == Some(PhyAddr(addr)),
        alloc_page_spec(free_page_spec(s, addr)).0 == (PhysMemView {
            bits: Some(s.bits.unwrap().update(addr as int / 4096, true)),
            ..s
        }),
{
    let s1 = free_page_spec(s, addr);
    let l = s.list.unwrap();
    assert((seq![addr] + l)[0] == addr);
    assert((seq![addr] + l).drop_first() =~= l);
    let b = s.bits.unwrap();
    assert(b.update(addr as int / 4096, false).update(addr as int / 4096, true) =~= b.update(addr as int / 4096, true));
}

} // verus!
