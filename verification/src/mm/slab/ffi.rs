//! The heap as C code and Rust's global allocator see it: slab classes for
//! small requests, whole pages (with a header, for C) for larger ones.
use vstd::prelude::*;
use crate::mm::PhyAddr;
use crate::mm::paging::{PhysMemory, mem_ok, byte_at};
use crate::mm::physical::{PhysMemAllocator, PhysMemView, alloc_page_spec, free_page_spec, phys_wf, can_free};
use crate::mm::slab::{SlabClass, SlabClassView, SlabView, lemma_slab_alloc_keeps_wf, slots_placed, slot_placed, slot_in_page,
    lemma_slab_alloc_keeps_placed, class_size, class_wf, size_to_class_index, slab_alloc_spec,
    slab_free_spec, slab_of, can_free_slot, next_slab_page_fits, page_of, SLAB_HEADER_SIZE, pages_distinct,
    first_on_page, is_first_on_page, slab_ok, lemma_slab_free_undoes_alloc};

verus! {

/// Marks a page that holds one large C allocation.
pub const LARGE_MAGIC: u64 = 0x1A2B_3C4D_5E6F_7081;

/// Bytes taken by the header of a large C allocation: three 8-byte fields,
/// padded to 16-byte alignment.
pub const LARGE_HEADER_SIZE: usize = 32;

/// The header of a large C allocation, at the start of its page: the page's
/// address, the magic number, the number of pages and the requested size.
pub struct LargeHeader {
    pub page: u64,
    pub magic: u64,
    pub num_pages: usize,
    pub size: usize,
}

/// What a large allocation's header holds.
pub struct LargeView {
    pub page: u64,
    pub magic: u64,
    pub num_pages: usize,
    pub size: usize,
}

impl View for LargeHeader {
    type V = LargeView;

    open spec fn view(&self) -> LargeView {
        LargeView { page: self.page, magic: self.magic, num_pages: self.num_pages, size: self.size }
    }
}

/// The heap: the nine slab classes and the large C allocations.
pub struct Heap {
    classes: Vec<SlabClass>,
    large: Vec<LargeHeader>,
}

/// What the heap holds.
pub struct HeapView {
    pub classes: Seq<SlabClassView>,
    pub large: Seq<LargeView>,
}

impl View for Heap {
    type V = HeapView;

    closed spec fn view(&self) -> HeapView {
        HeapView {
            classes: self.classes@.map_values(|c: SlabClass| c@),
            large: self.large@.map_values(|l: LargeHeader| l@),
        }
    }
}

/// The heap is consistent: nine classes of 8 to 2048 bytes, each
/// consistent, and large allocations of one page each with their magic.
pub open spec fn heap_wf(h: HeapView) -> bool {
    &&& h.classes.len() == 9
    &&& forall|k: int| 0 <= k < 9 ==> {
        &&& class_wf(#[trigger] h.classes[k])
        &&& h.classes[k].class_size == class_size(k)
        &&& h.classes[k].total_slot == (4096 - SLAB_HEADER_SIZE) / class_size(k)
    }
    &&& forall|i: int| 0 <= i < h.large.len() ==> (#[trigger] h.large[i]).magic == LARGE_MAGIC && h.large[i].num_pages == 1
}

/// The class that serves requests of `size` bytes (for sizes up to 2048).
pub open spec fn class_for(size: int) -> int {
    choose|k: int| 0 <= k <= 8 && size <= #[trigger] class_size(k) && (k == 0 || class_size(k - 1) < size)
}

/// Slot sizes grow with the class.
proof fn lemma_class_size_grows(i: int, j: int)
    requires
        0 <= i < j,
    ensures
        class_size(i) < class_size(j),
        class_size(i) >= 8,
    decreases j,
{
    if j - 1 > i {
        lemma_class_size_grows(i, j - 1);
    }
    lemma_class_size_pos(i);
}

proof fn lemma_class_size_pos(i: int)
    requires
        0 <= i,
    ensures
        class_size(i) >= 8,
    decreases i,
{
    if i > 0 {
        lemma_class_size_pos(i - 1);
    }
}

/// The class the exec search finds is the one `class_for` names.
proof fn lemma_class_for(size: int, k: int)
    requires
        0 <= k <= 8,
        size <= class_size(k),
        k == 0 || class_size(k - 1) < size,
    ensures
        class_for(size) == k,
{
    let c = choose|c: int| 0 <= c <= 8 && size <= #[trigger] class_size(c) && (c == 0 || class_size(c - 1) < size);
    assert(0 <= c <= 8 && size <= class_size(c) && (c == 0 || class_size(c - 1) < size));
    if c < k {
        if c < k - 1 {
            lemma_class_size_grows(c, k - 1);
        }
    } else if k < c {
        if k < c - 1 {
            lemma_class_size_grows(k, c - 1);
        }
    }
}

/// The first class with a slab on the page of `ptr`, or -1.
pub open spec fn slab_class_of(h: HeapView, ptr: u64) -> int {
    if exists|k: int| 0 <= k < 9 && #[trigger] slab_of(h.classes[k], ptr) is Some && forall|j: int| 0 <= j < k ==> slab_of(#[trigger] h.classes[j], ptr) is None {
        choose|k: int| 0 <= k < 9 && #[trigger] slab_of(h.classes[k], ptr) is Some && forall|j: int| 0 <= j < k ==> slab_of(#[trigger] h.classes[j], ptr) is None
    } else {
        -1
    }
}

/// The first large allocation on page `page`, or -1.
pub open spec fn large_on_page(large: Seq<LargeView>, page: u64) -> int {
    if exists|i: int| 0 <= i < large.len() && (#[trigger] large[i]).page == page && forall|j: int| 0 <= j < i ==> (#[trigger] large[j]).page != page {
        choose|i: int| 0 <= i < large.len() && (#[trigger] large[i]).page == page && forall|j: int| 0 <= j < i ==> (#[trigger] large[j]).page != page
    } else {
        -1
    }
}

/// The heap with class `k` replaced.
pub open spec fn with_class(h: HeapView, k: int, c: SlabClassView) -> HeapView {
    HeapView { classes: h.classes.update(k, c), ..h }
}

/// What `kmalloc(size)` does: nothing for size zero (the null pointer);
/// a slot of the class for `max(size, 16)` up to 2048 bytes; otherwise a
/// page with a large header, the memory starting after the header.
pub open spec fn kmalloc_spec(h: HeapView, a: PhysMemView, hhdm: u64, size: usize) -> (HeapView, PhysMemView, Option<u64>) {
    if size == 0 {
        (h, a, Some(0u64))
    } else {
        let m = if size < 16 { 16 } else { size as int };
        if m <= 2048 {
            let k = class_for(m);
            let (c1, a1, r) = slab_alloc_spec(h.classes[k], a, hhdm);
            (with_class(h, k, c1), a1, r)
        } else {
            let (a1, r) = alloc_page_spec(a);
            match r {
                None => (h, a1, None),
                Some(pa) => (
                    HeapView {
                        large: h.large.push(LargeView { page: (pa.0 + hhdm) as u64, magic: LARGE_MAGIC, num_pages: 1, size }),
                        ..h
                    },
                    a1,
                    Some((pa.0 + hhdm + LARGE_HEADER_SIZE) as u64),
                ),
            }
        }
    }
}

/// What `kfree(ptr)` does: nothing for the null pointer; a slot goes back to
/// its class; a large allocation's page goes back to the physical allocator.
pub open spec fn kfree_spec(h: HeapView, a: PhysMemView, hhdm: u64, ptr: u64) -> (HeapView, PhysMemView) {
    if ptr == 0 {
        (h, a)
    } else {
        let k = slab_class_of(h, ptr);
        if k >= 0 {
            let (c1, a1) = slab_free_spec(h.classes[k], a, hhdm, ptr);
            (with_class(h, k, c1), a1)
        } else {
            let li = large_on_page(h.large, page_of(ptr));
            (HeapView { large: h.large.remove(li), ..h }, free_page_spec(a, (page_of(ptr) - hhdm) as u64))
        }
    }
}

/// `kfree(ptr)` is safe: the pointer is null, or it lies in a slab of some
/// class that may take it back, or in a large allocation whose page may be
/// freed.
pub open spec fn can_kfree(h: HeapView, a: PhysMemView, hhdm: u64, ptr: u64) -> bool {
    ptr != 0 ==> {
        let k = slab_class_of(h, ptr);
        if k >= 0 {
            can_free_slot(h.classes[k], a, hhdm, ptr)
        } else {
            &&& large_on_page(h.large, page_of(ptr)) >= 0
            &&& page_of(ptr) >= hhdm
            &&& can_free(a, (page_of(ptr) - hhdm) as u64)
        }
    }
}

/// What the heap needs of the physical allocator: it is consistent and its
/// next page is aligned in the direct map.
pub open spec fn heap_ready(h: HeapView, a: PhysMemView, hhdm: u64) -> bool {
    &&& heap_wf(h)
    &&& phys_wf(a)
    &&& next_slab_page_fits(a, hhdm)
}

impl Heap {
    /// The empty heap: nine empty classes, no large allocation.
    pub fn new() -> (h: Heap)
        ensures
            heap_wf(h@),
            h@.large.len() == 0,
            forall|k: int| 0 <= k < 9 ==> (#[trigger] h@.classes[k]).full.len() == 0 && h@.classes[k].partial.len() == 0,
            forall|a: PhysMemView, hhdm: u64| #[trigger] heap_consistent(h@, a, hhdm),
            free_slots_unique(h@),
            heap_slots_placed(h@),
    {
        let mut classes: Vec<SlabClass> = Vec::new();
        let mut k: usize = 0;
        while k < 9
            invariant
                k <= 9,
                classes@.len() == k,
                forall|j: int| 0 <= j < k ==> {
                    &&& class_wf((#[trigger] classes@[j])@)
                    &&& classes@[j]@.class_size == class_size(j)
                    &&& classes@[j]@.total_slot == (4096 - SLAB_HEADER_SIZE) / class_size(j)
                    &&& classes@[j]@.full.len() == 0
                    &&& classes@[j]@.partial.len() == 0
                },
            decreases 9 - k,
        {
            classes.push(SlabClass::new(k));
            k = k + 1;
        }
        let h = Heap { classes, large: Vec::new() };
        assert(h@.large =~= Seq::<LargeView>::empty());
        assert forall|k: int, page: u64| 0 <= k < h@.classes.len() implies !#[trigger] class_has_page(h@.classes[k], page) by {
            assert(h@.classes[k] == classes@[k]@);
        }
        h
    }

    /// The numbers of partial and of full slabs in class `k`.
    pub fn slab_counts(&self, k: usize) -> (r: (usize, usize))
        requires
            k < self@.classes.len(),
        ensures
            r.0 == self@.classes[k as int].partial.len(),
            r.1 == self@.classes[k as int].full.len(),
    {
        (self.classes[k].partial_len(), self.classes[k].full_len())
    }

    /// The number of large allocations.
    pub fn large_count(&self) -> (n: usize)
        ensures
            n == self@.large.len(),
    {
        self.large.len()
    }

    /// The slot size of class `k`.
    pub fn class_size(&self, k: usize) -> (n: usize)
        requires
            k < self@.classes.len(),
        ensures
            n == self@.classes[k as int].class_size,
    {
        self.classes[k].class_size()
    }
}


/// How `krealloc` proceeds: a null pointer is a plain allocation; size zero
/// frees the memory; a block already large enough is kept; otherwise a new
/// block is allocated, and the caller copies `copy_len` bytes into it and
/// then frees the old block with `kfree`.
pub enum ReallocStep {
    Allocated(u64),
    Freed,
    Kept,
    Moved { new_ptr: u64, copy_len: usize },
}

/// The size recorded for the block at `ptr`: its slab's slot size, or the
/// size requested for its large allocation.
pub open spec fn old_size_of(h: HeapView, ptr: u64) -> int {
    let k = slab_class_of(h, ptr);
    if k >= 0 {
        slab_of(h.classes[k], ptr).unwrap().class as int
    } else {
        h.large[large_on_page(h.large, page_of(ptr))].size as int
    }
}

/// The block at `ptr` is one of the heap's: in a slab or a large allocation.
pub open spec fn is_heap_block(h: HeapView, ptr: u64) -> bool {
    slab_class_of(h, ptr) >= 0 || large_on_page(h.large, page_of(ptr)) >= 0
}

/// What Rust's global allocator does for `size` bytes aligned to `align`:
/// a slot of the class for the larger of the two, or a whole page.
pub open spec fn kernel_alloc_spec(h: HeapView, a: PhysMemView, hhdm: u64, size: usize, align: usize) -> (HeapView, PhysMemView, Option<u64>) {
    let m = if size < align { align as int } else { size as int };
    if m <= 2048 {
        let k = class_for(m);
        let (c1, a1, r) = slab_alloc_spec(h.classes[k], a, hhdm);
        (with_class(h, k, c1), a1, r)
    } else {
        let (a1, r) = alloc_page_spec(a);
        match r {
            None => (h, a1, None),
            Some(pa) => (h, a1, Some((pa.0 + hhdm) as u64)),
        }
    }
}

/// What Rust's global allocator does to free `ptr` of `size` bytes aligned to
/// `align`: the slot goes back to the class for the larger of the two, or the
/// page goes back to the physical allocator.
pub open spec fn kernel_dealloc_spec(h: HeapView, a: PhysMemView, hhdm: u64, ptr: u64, size: usize, align: usize) -> (HeapView, PhysMemView) {
    let m = if size < align { align as int } else { size as int };
    if m <= 2048 {
        let k = class_for(m);
        let (c1, a1) = slab_free_spec(h.classes[k], a, hhdm, ptr);
        (with_class(h, k, c1), a1)
    } else {
        (h, free_page_spec(a, (page_of(ptr) - hhdm) as u64))
    }
}

/// What Rust's global allocator needs to give back `ptr` of `size` bytes
/// aligned to `align`: a slot of a slab of the class for the larger of the
/// two (whose page the physical allocator can take back when it is the last
/// slot in use), or above 2048 bytes a page the physical allocator can take
/// back.
pub open spec fn kernel_dealloc_ok(h: HeapView, a: PhysMemView, hhdm: u64, ptr: u64, size: usize, align: usize) -> bool {
    let m = if size < align { align as int } else { size as int };
    if m <= 2048 {
        can_free_slot(h.classes[class_for(m)], a, hhdm, ptr)
    } else {
        page_of(ptr) >= hhdm && can_free(a, (page_of(ptr) - hhdm) as u64)
    }
}

impl Heap {
    /// Allocates `size` bytes for C code: null for zero bytes, a slot of at
    /// least 16 bytes up to 2048, else a page with a large header. When memory
    /// runs out it gives nothing rather than panicking.
    pub fn kmalloc(&mut self, size: usize, allocator: &mut PhysMemAllocator, hhdm: u64) -> (r: Option<u64>)
        requires
            heap_ready(old(self)@, old(allocator)@, hhdm),
            size <= 4096 - LARGE_HEADER_SIZE,
        ensures
            heap_wf(final(self)@),
            phys_wf(final(allocator)@),
            (final(self)@, final(allocator)@, r) == kmalloc_spec(old(self)@, old(allocator)@, hhdm, size),
            heap_consistent(old(self)@, old(allocator)@, hhdm) ==> heap_consistent(final(self)@, final(allocator)@, hhdm),
            free_slots_unique(old(self)@) ==> free_slots_unique(final(self)@),
            heap_slots_placed(old(self)@) && size > 0 ==> heap_slots_placed(final(self)@)
                && (r matches Some(p) ==> (p as int) % 16 == 0 && block_in_page(p, size as int)),
            heap_slots_placed(old(self)@) && 0 < size && (if size < 16 { 16 } else { size as int }) <= 2048 ==> (r matches Some(p) ==> {
                let k = class_for(if size < 16 { 16 } else { size as int });
                &&& size <= class_size(k)
                &&& (p as int) % class_size(k) == 0
                &&& block_in_page(p, class_size(k))
            }),
            heap_consistent(old(self)@, old(allocator)@, hhdm) && size > 0 ==> (r matches Some(p) ==>
                is_free_slot(old(self)@, p) || !is_heap_page(old(self)@, page_of(p))),
            heap_consistent(old(self)@, old(allocator)@, hhdm) && old(allocator)@.used_pages > 0 ==> (r matches Some(p) ==>
                can_kfree(final(self)@, final(allocator)@, hhdm, p)),
            heap_consistent(old(self)@, old(allocator)@, hhdm) && size > 0 ==> (r matches Some(p) ==>
                is_heap_block(final(self)@, p) && old_size_of(final(self)@, p) >= size),
    {
        proof {
            if heap_consistent(self@, allocator@, hhdm) && size > 0 {
                lemma_kmalloc_block_holds(self@, allocator@, hhdm, size);
            }
            if heap_consistent(self@, allocator@, hhdm) && allocator@.used_pages > 0 {
                lemma_kmalloc_block_freeable(self@, allocator@, hhdm, size);
            }
            if heap_consistent(self@, allocator@, hhdm) {
                lemma_kmalloc_keeps_consistent(self@, allocator@, hhdm, size);
                if size > 0 {
                    lemma_kmalloc_block_was_free(self@, allocator@, hhdm, size);
                }
            }
            if heap_slots_placed(self@) && size > 0 {
                lemma_kmalloc_block_placed(self@, allocator@, hhdm, size);
            }
            if free_slots_unique(self@) {
                lemma_kmalloc_keeps_slots_unique(self@, allocator@, hhdm, size);
            }
        }
        if size == 0 {
            return Some(0);
        }
        let max_size: usize = if size < 16 { 16 } else { size };
        match size_to_class_index(max_size) {
            Some(k) => {
                proof {
                    lemma_class_for(max_size as int, k as int);
                    assert(heap_wf(self@) ==> class_wf(self@.classes[k as int]));
                }
                let ghost c0 = self@;
                let r = self.classes[k].alloc_slot(allocator, hhdm);
                proof {
                    assert(self@.classes =~= c0.classes.update(k as int, self@.classes[k as int]));
                    assert(self@ =~= with_class(c0, k as int, self@.classes[k as int]));
                }
                r
            },
            None => {
                let num_pages: usize = (max_size + LARGE_HEADER_SIZE + 4095) / 4096;
                let page = match allocator.alloc_page() {
                    Some(p) => p,
                    None => return None,
                };
                let virt_page: u64 = page.0 + hhdm;
                self.large.push(LargeHeader { page: virt_page, magic: LARGE_MAGIC, num_pages, size });
                assert(self@.large =~= old(self)@.large.push(LargeView { page: virt_page, magic: LARGE_MAGIC, num_pages: 1, size }));
                Some(virt_page + LARGE_HEADER_SIZE as u64)
            },
        }
    }
}


proof fn lemma_slab_class_of(h: HeapView, ptr: u64, k: int)
    requires
        0 <= k < 9,
        h.classes.len() == 9,
        slab_of(h.classes[k], ptr) is Some,
        forall|j: int| 0 <= j < k ==> slab_of(#[trigger] h.classes[j], ptr) is None,
    ensures
        slab_class_of(h, ptr) == k,
{
    let c = choose|c: int| 0 <= c < 9 && #[trigger] slab_of(h.classes[c], ptr) is Some && forall|j: int| 0 <= j < c ==> slab_of(#[trigger] h.classes[j], ptr) is None;
    assert(0 <= c < 9 && slab_of(h.classes[c], ptr) is Some && forall|j: int| 0 <= j < c ==> slab_of(#[trigger] h.classes[j], ptr) is None);
    if c < k {
        assert(slab_of(h.classes[c], ptr) is None);
    } else if k < c {
        assert(slab_of(h.classes[k], ptr) is None);
    }
}

proof fn lemma_large_on_page(large: Seq<LargeView>, page: u64, i: int)
    requires
        0 <= i < large.len(),
        large[i].page == page,
        forall|j: int| 0 <= j < i ==> (#[trigger] large[j]).page != page,
    ensures
        large_on_page(large, page) == i,
{
    let c = choose|c: int| 0 <= c < large.len() && (#[trigger] large[c]).page == page && forall|j: int| 0 <= j < c ==> (#[trigger] large[j]).page != page;
    assert(0 <= c < large.len() && large[c].page == page && forall|j: int| 0 <= j < c ==> (#[trigger] large[j]).page != page);
    if c < i {
        assert(large[c].page != page);
    } else if i < c {
        assert(large[i].page != page);
    }
}

impl Heap {
    /// The first class with a slab on the page of `ptr`, and that slab's slot
    /// size.
    fn find_slab_class(&self, ptr: u64) -> (r: Option<(usize, usize)>)
        requires
            heap_wf(self@),
        ensures
            r is None ==> slab_class_of(self@, ptr) == -1,
            r matches Some((k, cls)) ==> slab_class_of(self@, ptr) == k && k < 9 && cls == slab_of(self@.classes[k as int], ptr).unwrap().class,
    {
        let mut k: usize = 0;
        while k < 9
            invariant
                k <= 9,
                heap_wf(self@),
                forall|j: int| 0 <= j < k ==> slab_of(#[trigger] self@.classes[j], ptr) is None,
            decreases 9 - k,
        {
            match self.classes[k].slab_on_page(ptr) {
                Some(cls) => {
                    proof {
                        lemma_slab_class_of(self@, ptr, k as int);
                    }
                    return Some((k, cls));
                },
                None => {},
            }
            k = k + 1;
        }
        proof {
            if slab_class_of(self@, ptr) != -1 {
                let c = choose|c: int| 0 <= c < 9 && #[trigger] slab_of(self@.classes[c], ptr) is Some && forall|j: int| 0 <= j < c ==> slab_of(#[trigger] self@.classes[j], ptr) is None;
                assert(slab_of(self@.classes[c], ptr) is None);
            }
        }
        None
    }

    /// The first large allocation on page `page`.
    fn find_large(&self, page: u64) -> (r: Option<usize>)
        ensures
            r is None ==> large_on_page(self@.large, page) == -1,
            r matches Some(i) ==> large_on_page(self@.large, page) == i && i < self@.large.len(),
    {
        let mut i: usize = 0;
        while i < self.large.len()
            invariant
                i <= self.large@.len(),
                forall|j: int| 0 <= j < i ==> (#[trigger] self@.large[j]).page != page,
            decreases self.large@.len() - i,
        {
            if self.large[i].page == page {
                proof {
                    lemma_large_on_page(self@.large, page, i as int);
                }
                return Some(i);
            }
            i = i + 1;
        }
        proof {
            if large_on_page(self@.large, page) != -1 {
                let c = choose|c: int| 0 <= c < self@.large.len() && (#[trigger] self@.large[c]).page == page && forall|j: int| 0 <= j < c ==> (#[trigger] self@.large[j]).page != page;
                assert(self@.large[c].page != page);
            }
        }
        None
    }

    /// Whether `kfree` may be called on `ptr`: null, a slot of one of the
    /// heap's slabs (whose page the allocator can take back if it is the
    /// last slot in use), or a large allocation whose page the allocator can
    /// take back.
    pub fn kfree_check(&self, ptr: u64, allocator: &PhysMemAllocator, hhdm: u64) -> (ok: bool)
        requires
            heap_wf(self@),
            phys_wf(allocator@),
        ensures
            ok == can_kfree(self@, allocator@, hhdm, ptr),
    {
        if ptr == 0 {
            return true;
        }
        match self.find_slab_class(ptr) {
            Some((k, _)) => {
                proof {
                    assert(self@.classes[k as int] == self.classes@[k as int]@);
                }
                match self.classes[k].slab_use_on_page(ptr) {
                    Some((used, page)) => used != 1 || (page >= hhdm && allocator.can_free_check(page - hhdm)),
                    None => false,
                }
            },
            None => {
                let page: u64 = ptr & !0xFFF;
                match self.find_large(page) {
                    Some(_) => page >= hhdm && allocator.can_free_check(page - hhdm),
                    None => false,
                }
            },
        }
    }

    /// Whether `ptr` lies in a block of the heap: a slab or a large
    /// allocation.
    pub fn is_block(&self, ptr: u64) -> (r: bool)
        requires
            heap_wf(self@),
        ensures
            r == is_heap_block(self@, ptr),
    {
        let page_addr: u64 = ptr & !0xFFF;
        match self.find_slab_class(ptr) {
            Some(_) => true,
            None => self.find_large(page_addr).is_some(),
        }
    }

    /// Frees memory that C code got from `kmalloc`: a slot goes back to its
    /// class, a large allocation's page to the physical allocator. Which of
    /// the two `ptr` is comes from the heap's own lists of slabs and large
    /// allocations, not from a magic word read in the page, so a stale slab
    /// magic on a large allocation's page cannot mislead it.
    pub fn kfree(&mut self, ptr: u64, allocator: &mut PhysMemAllocator, hhdm: u64)
        requires
            heap_wf(old(self)@),
            phys_wf(old(allocator)@),
            can_kfree(old(self)@, old(allocator)@, hhdm, ptr),
        ensures
            heap_wf(final(self)@),
            phys_wf(final(allocator)@),
            (final(self)@, final(allocator)@) == kfree_spec(old(self)@, old(allocator)@, hhdm, ptr),
            heap_consistent(old(self)@, old(allocator)@, hhdm) ==> heap_consistent(final(self)@, final(allocator)@, hhdm),
            free_slots_unique(old(self)@) && !is_free_slot(old(self)@, ptr) ==> free_slots_unique(final(self)@),
            heap_slots_placed(old(self)@) && (slab_class_of(old(self)@, ptr) >= 0 ==> (ptr as int) % class_size(slab_class_of(old(self)@, ptr)) == 0)
                ==> heap_slots_placed(final(self)@),
    {
        proof {
            if heap_slots_placed(self@) && (slab_class_of(self@, ptr) >= 0 ==> (ptr as int) % class_size(slab_class_of(self@, ptr)) == 0) {
                lemma_kfree_keeps_placed(self@, allocator@, hhdm, ptr);
            }
            if heap_consistent(self@, allocator@, hhdm) {
                lemma_kfree_keeps_consistent(self@, allocator@, hhdm, ptr);
            }
            if free_slots_unique(self@) && !is_free_slot(self@, ptr) {
                lemma_kfree_keeps_slots_unique(self@, allocator@, hhdm, ptr);
            }
        }
        if ptr == 0 {
            return;
        }
        let page_addr: u64 = ptr & !0xFFF;
        match self.find_slab_class(ptr) {
            Some((k, cls)) => {
                proof {
                    let c = self@.classes[k as int];
                    assert(class_wf(c));
                    let sl = slab_of(c, ptr).unwrap();
                    let pi = crate::mm::slab::first_on_page(c.partial, page_of(ptr));
                    if pi >= 0 {
                        let w = choose|i: int| #[trigger] crate::mm::slab::is_first_on_page(c.partial, page_of(ptr), i);
                        assert(crate::mm::slab::slab_ok(c.partial[pi], c));
                    } else {
                        let fi = crate::mm::slab::first_on_page(c.full, page_of(ptr));
                        let w = choose|i: int| #[trigger] crate::mm::slab::is_first_on_page(c.full, page_of(ptr), i);
                        assert(crate::mm::slab::slab_ok(c.full[fi], c));
                    }
                    assert(cls == class_size(k as int));
                }
                let class_index: usize = match size_to_class_index(cls) {
                    Some(ci) => ci,
                    None => {
                        proof {
                            reveal_with_fuel(class_size, 9);
                        }
                        return;
                    },
                };
                proof {
                    lemma_class_for(cls as int, class_index as int);
                    if k > 0 {
                        lemma_class_size_grows(k - 1, k as int);
                    }
                    lemma_class_for(cls as int, k as int);
                }
                let ghost h0 = self@;
                self.classes[class_index].free(ptr, allocator, hhdm);
                proof {
                    assert(self@.classes =~= h0.classes.update(k as int, self@.classes[k as int]));
                    assert(self@ =~= with_class(h0, k as int, self@.classes[k as int]));
                }
            },
            None => {
                let li: usize = match self.find_large(page_addr) {
                    Some(i) => i,
                    None => return,
                };
                let ghost l0 = self@.large;
                let _header = self.large.remove(li);
                allocator.free_page(PhyAddr(page_addr - hhdm));
                proof {
                    assert(self@.large =~= l0.remove(li as int));
                    assert forall|i: int| 0 <= i < self@.large.len() implies (#[trigger] self@.large[i]).magic == LARGE_MAGIC && self@.large[i].num_pages == 1 by {
                        if i < li {
                            assert(self@.large[i] == l0[i]);
                        } else {
                            assert(self@.large[i] == l0[i + 1]);
                        }
                    }
                }
            },
        }
    }
}


/// What `krealloc(ptr, new_size)` decides and does, before any copying.
pub open spec fn krealloc_spec(h: HeapView, a: PhysMemView, hhdm: u64, ptr: u64, new_size: usize) -> (HeapView, PhysMemView, Option<ReallocStep>) {
    if ptr == 0 {
        let (h1, a1, r) = kmalloc_spec(h, a, hhdm, new_size);
        (h1, a1, match r { Some(p) => Some(ReallocStep::Allocated(p)), None => None })
    } else if new_size == 0 {
        let (h1, a1) = kfree_spec(h, a, hhdm, ptr);
        (h1, a1, Some(ReallocStep::Freed))
    } else if old_size_of(h, ptr) >= new_size {
        (h, a, Some(ReallocStep::Kept))
    } else {
        let (h1, a1, r) = kmalloc_spec(h, a, hhdm, new_size);
        (h1, a1, match r {
            Some(p) => Some(ReallocStep::Moved { new_ptr: p, copy_len: old_size_of(h, ptr) as usize }),
            None => None,
        })
    }
}

/// What `krealloc` needs: a null pointer with a size `kmalloc` takes; or a
/// block of the heap, which size zero frees and a larger size moves.
pub open spec fn can_krealloc(h: HeapView, a: PhysMemView, hhdm: u64, ptr: u64, new_size: usize) -> bool {
    if ptr == 0 {
        new_size <= 4096 - LARGE_HEADER_SIZE
    } else if new_size == 0 {
        can_kfree(h, a, hhdm, ptr)
    } else {
        &&& is_heap_block(h, ptr)
        &&& old_size_of(h, ptr) < new_size ==> new_size <= 4096 - LARGE_HEADER_SIZE
    }
}

impl Heap {
    /// Resizes memory that C code got from `kmalloc`, up to the copy: see
    /// `ReallocStep`. Like `kfree`, it tells slots from large allocations by
    /// the heap's lists. When memory runs out it gives nothing rather than
    /// panicking.
    pub fn krealloc(&mut self, ptr: u64, new_size: usize, allocator: &mut PhysMemAllocator, hhdm: u64) -> (r: Option<ReallocStep>)
        requires
            heap_ready(old(self)@, old(allocator)@, hhdm),
            can_krealloc(old(self)@, old(allocator)@, hhdm, ptr, new_size),
        ensures
            heap_wf(final(self)@),
            phys_wf(final(allocator)@),
            (final(self)@, final(allocator)@, r) == krealloc_spec(old(self)@, old(allocator)@, hhdm, ptr, new_size),
            heap_consistent(old(self)@, old(allocator)@, hhdm) ==> heap_consistent(final(self)@, final(allocator)@, hhdm),
            free_slots_unique(old(self)@) && (new_size == 0 ==> !is_free_slot(old(self)@, ptr)) ==> free_slots_unique(final(self)@),
            heap_slots_placed(old(self)@) && (ptr != 0 && new_size == 0 && slab_class_of(old(self)@, ptr) >= 0
                ==> (ptr as int) % class_size(slab_class_of(old(self)@, ptr)) == 0) ==> heap_slots_placed(final(self)@),
            heap_consistent(old(self)@, old(allocator)@, hhdm) ==> (r matches Some(ReallocStep::Moved { new_ptr, copy_len }) ==> {
                &&& is_heap_block(final(self)@, new_ptr)
                &&& old_size_of(final(self)@, new_ptr) >= new_size
                &&& copy_len == old_size_of(old(self)@, ptr)
                &&& old_size_of(old(self)@, ptr) < new_size
            }),
    {
        proof {
            if heap_consistent(self@, allocator@, hhdm) {
                lemma_krealloc_block_holds(self@, allocator@, hhdm, ptr, new_size);
            }
            if heap_slots_placed(self@) {
                if 0 < new_size <= 4096 - LARGE_HEADER_SIZE {
                    lemma_kmalloc_block_placed(self@, allocator@, hhdm, new_size);
                } else if ptr != 0 && new_size == 0 && (slab_class_of(self@, ptr) >= 0 ==> (ptr as int) % class_size(slab_class_of(self@, ptr)) == 0) {
                    lemma_kfree_keeps_placed(self@, allocator@, hhdm, ptr);
                }
            }
        }
        if ptr == 0 {
            return match self.kmalloc(new_size, allocator, hhdm) {
                Some(p) => Some(ReallocStep::Allocated(p)),
                None => None,
            };
        }
        if new_size == 0 {
            self.kfree(ptr, allocator, hhdm);
            return Some(ReallocStep::Freed);
        }
        let page_addr: u64 = ptr & !0xFFF;
        let old_size: usize = match self.find_slab_class(ptr) {
            Some((_k, cls)) => cls,
            None => match self.find_large(page_addr) {
                Some(li) => self.large[li].size,
                None => return None,
            },
        };
        if old_size >= new_size {
            return Some(ReallocStep::Kept);
        }
        match self.kmalloc(new_size, allocator, hhdm) {
            Some(p) => Some(ReallocStep::Moved { new_ptr: p, copy_len: old_size }),
            None => None,
        }
    }

    /// Finishes a move that `krealloc` decided (`ReallocStep::Moved`): copies
    /// the first `copy_len` bytes of the old block at `ptr` into the new one at
    /// `new_ptr`, then frees the old block as `kfree` does.
    pub fn krealloc_finish(&mut self, ptr: u64, new_ptr: u64, copy_len: usize, mem: &mut PhysMemory, allocator: &mut PhysMemAllocator)
        requires
            heap_wf(old(self)@),
            phys_wf(old(allocator)@),
            can_kfree(old(self)@, old(allocator)@, old(mem)@.hhdm, ptr),
            mem_ok(old(mem)@),
            ptr >= old(mem)@.hhdm,
            new_ptr >= old(mem)@.hhdm,
            ptr + copy_len <= old(mem)@.hhdm + 8 * old(mem)@.words.len(),
            new_ptr + copy_len <= old(mem)@.hhdm + 8 * old(mem)@.words.len(),
            ptr + copy_len <= new_ptr || new_ptr + copy_len <= ptr,
        ensures
            heap_wf(final(self)@),
            phys_wf(final(allocator)@),
            (final(self)@, final(allocator)@) == kfree_spec(old(self)@, old(allocator)@, old(mem)@.hhdm, ptr),
            heap_consistent(old(self)@, old(allocator)@, old(mem)@.hhdm) ==> heap_consistent(final(self)@, final(allocator)@, old(mem)@.hhdm),
            heap_slots_placed(old(self)@) && (slab_class_of(old(self)@, ptr) >= 0 ==> (ptr as int) % class_size(slab_class_of(old(self)@, ptr)) == 0)
                ==> heap_slots_placed(final(self)@),
            final(mem)@.hhdm == old(mem)@.hhdm,
            final(mem)@.words.len() == old(mem)@.words.len(),
            forall|a: int| 0 <= a < 8 * old(mem)@.words.len() ==> #[trigger] byte_at(final(mem)@.words, a)
                == if new_ptr - old(mem)@.hhdm <= a < new_ptr - old(mem)@.hhdm + copy_len {
                    byte_at(old(mem)@.words, a - new_ptr + ptr)
                } else {
                    byte_at(old(mem)@.words, a)
                },
    {
        mem.copy_bytes(ptr, new_ptr, copy_len as u64);
        let hhdm: u64 = mem.hhdm();
        self.kfree(ptr, allocator, hhdm);
    }

    /// Rust's global allocator: `size` bytes aligned to `align` from the
    /// class for the larger of the two, or a whole page above 2048 bytes.
    /// When memory runs out it gives nothing rather than panicking.
    pub fn kernel_alloc(&mut self, size: usize, align: usize, allocator: &mut PhysMemAllocator, hhdm: u64) -> (r: Option<u64>)
        requires
            heap_ready(old(self)@, old(allocator)@, hhdm),
            size <= 4096,
            align <= 4096,
        ensures
            heap_wf(final(self)@),
            phys_wf(final(allocator)@),
            (final(self)@, final(allocator)@, r) == kernel_alloc_spec(old(self)@, old(allocator)@, hhdm, size, align),
            heap_consistent(old(self)@, old(allocator)@, hhdm) ==> heap_consistent(final(self)@, final(allocator)@, hhdm),
            heap_slots_placed(old(self)@) && page_alignment(align) ==> heap_slots_placed(final(self)@)
                && (r matches Some(p) ==> (p as int) % (align as int) == 0 && block_in_page(p, size as int)),
            heap_consistent(old(self)@, old(allocator)@, hhdm) && page_alignment(align) ==> (r matches Some(p) ==>
                is_free_slot(old(self)@, p) || !is_heap_page(old(self)@, page_of(p))),
            heap_consistent(old(self)@, old(allocator)@, hhdm) && old(allocator)@.used_pages > 0 ==> (r matches Some(p) ==>
                kernel_dealloc_ok(final(self)@, final(allocator)@, hhdm, p, size, align)),
            heap_consistent(old(self)@, old(allocator)@, hhdm) && (if size < align { align } else { size }) <= 2048 ==> (r matches Some(p) ==>
                slab_class_of(final(self)@, p) >= 0 && old_size_of(final(self)@, p) >= size && old_size_of(final(self)@, p) >= align),
    {
        proof {
            if heap_consistent(self@, allocator@, hhdm) {
                lemma_kernel_alloc_block_holds(self@, allocator@, hhdm, size, align);
            }
            if heap_consistent(self@, allocator@, hhdm) && allocator@.used_pages > 0 {
                lemma_kernel_alloc_block_deallocable(self@, allocator@, hhdm, size, align);
            }
            if heap_consistent(self@, allocator@, hhdm) {
                lemma_kernel_alloc_keeps_consistent(self@, allocator@, hhdm, size, align);
                if page_alignment(align) {
                    lemma_kernel_alloc_block_was_free(self@, allocator@, hhdm, size, align);
                }
            }
            if heap_slots_placed(self@) && page_alignment(align) {
                lemma_kernel_alloc_block_placed(self@, allocator@, hhdm, size, align);
            }
        }
        let max_size: usize = if size < align { align } else { size };
        match size_to_class_index(max_size) {
            Some(k) => {
                proof {
                    lemma_class_for(max_size as int, k as int);
                    assert(heap_wf(self@) ==> class_wf(self@.classes[k as int]));
                }
                let ghost c0 = self@;
                let r = self.classes[k].alloc_slot(allocator, hhdm);
                proof {
                    assert(self@.classes =~= c0.classes.update(k as int, self@.classes[k as int]));
                    assert(self@ =~= with_class(c0, k as int, self@.classes[k as int]));
                }
                r
            },
            None => {
                let page = match allocator.alloc_page() {
                    Some(p) => p,
                    None => return None,
                };
                Some(page.0 + hhdm)
            },
        }
    }

    /// Whether Rust's global allocator may give back `ptr` of `size` bytes
    /// aligned to `align`: a slot of the class for the larger of the two
    /// (whose page the allocator can take back if it is the last slot in
    /// use), or above 2048 bytes a page the allocator can take back.
    pub fn kernel_dealloc_check(&self, ptr: u64, size: usize, align: usize, allocator: &PhysMemAllocator, hhdm: u64) -> (ok: bool)
        requires
            heap_wf(self@),
            phys_wf(allocator@),
        ensures
            ok == kernel_dealloc_ok(self@, allocator@, hhdm, ptr, size, align),
    {
        let m: usize = if size < align { align } else { size };
        match size_to_class_index(m) {
            Some(k) => {
                proof {
                    lemma_class_for(m as int, k as int);
                    assert(self@.classes[k as int] == self.classes@[k as int]@);
                }
                match self.classes[k].slab_use_on_page(ptr) {
                    Some((used, page)) => used != 1 || (page >= hhdm && allocator.can_free_check(page - hhdm)),
                    None => false,
                }
            },
            None => {
                let page: u64 = ptr & !0xFFF;
                page >= hhdm && allocator.can_free_check(page - hhdm)
            },
        }
    }

    /// Rust's global allocator giving back `ptr` of `size` bytes aligned to
    /// `align`: to the class for the larger of the two, or the whole page.
    pub fn kernel_dealloc(&mut self, ptr: u64, size: usize, align: usize, allocator: &mut PhysMemAllocator, hhdm: u64)
        requires
            heap_wf(old(self)@),
            phys_wf(old(allocator)@),
            size <= 4096,
            align <= 4096,
            kernel_dealloc_ok(old(self)@, old(allocator)@, hhdm, ptr, size, align),
        ensures
            heap_wf(final(self)@),
            phys_wf(final(allocator)@),
            (final(self)@, final(allocator)@) == kernel_dealloc_spec(old(self)@, old(allocator)@, hhdm, ptr, size, align),
            heap_consistent(old(self)@, old(allocator)@, hhdm)
                && ((if size < align { align } else { size }) > 2048 ==> !is_heap_page(old(self)@, page_of(ptr)))
                ==> heap_consistent(final(self)@, final(allocator)@, hhdm),
    {
        proof {
            if heap_consistent(self@, allocator@, hhdm)
                && ((if size < align { align } else { size }) > 2048 ==> !is_heap_page(self@, page_of(ptr))) {
                lemma_kernel_dealloc_keeps_consistent(self@, allocator@, hhdm, ptr, size, align);
            }
        }
        let page_addr: u64 = ptr & !0xFFF;
        let required_size: usize = if size < align { align } else { size };
        match size_to_class_index(required_size) {
            Some(k) => {
                proof {
                    lemma_class_for(required_size as int, k as int);
                }
                let ghost c0 = self@;
                self.classes[k].free(ptr, allocator, hhdm);
                proof {
                    assert(self@.classes =~= c0.classes.update(k as int, self@.classes[k as int]));
                    assert(self@ =~= with_class(c0, k as int, self@.classes[k as int]));
                }
            },
            None => {
                allocator.free_page(PhyAddr(page_addr - hhdm));
            },
        }
    }
}


/// Some slab of `l` is on page `page`.
pub open spec fn page_in(l: Seq<SlabView>, page: u64) -> bool {
    exists|i: int| 0 <= i < l.len() && (#[trigger] l[i]).page == page
}

/// Some slab of class `c` is on page `page`.
pub open spec fn class_has_page(c: SlabClassView, page: u64) -> bool {
    page_in(c.partial, page) || page_in(c.full, page)
}

/// No two slabs of `l` share a page.
pub open spec fn list_pages_distinct(l: Seq<SlabView>) -> bool {
    forall|i: int, j: int| 0 <= i < j < l.len() ==> (#[trigger] l[i]).page != (#[trigger] l[j]).page
}

proof fn lemma_page_in_remove(l: Seq<SlabView>, i: int, page: u64)
    requires
        0 <= i < l.len(),
    ensures
        page_in(l.remove(i), page) ==> page_in(l, page),
        page != l[i].page && page_in(l, page) ==> page_in(l.remove(i), page),
        list_pages_distinct(l) ==> !page_in(l.remove(i), l[i].page),
        list_pages_distinct(l) ==> list_pages_distinct(l.remove(i)),
{
    let r = l.remove(i);
    if page_in(r, page) {
        let j = choose|j: int| 0 <= j < r.len() && (#[trigger] r[j]).page == page;
        if j < i {
            assert(r[j] == l[j]);
        } else {
            assert(r[j] == l[j + 1]);
        }
    }
    if page != l[i].page && page_in(l, page) {
        let j = choose|j: int| 0 <= j < l.len() && (#[trigger] l[j]).page == page;
        if j < i {
            assert(r[j] == l[j]);
        } else {
            assert(r[j - 1] == l[j]);
        }
    }
    if list_pages_distinct(l) {
        if page_in(r, l[i].page) {
            let j = choose|j: int| 0 <= j < r.len() && (#[trigger] r[j]).page == l[i].page;
            if j < i {
                assert(r[j] == l[j]);
            } else {
                assert(r[j] == l[j + 1]);
            }
        }
        assert forall|x: int, y: int| 0 <= x < y < r.len() implies (#[trigger] r[x]).page != (#[trigger] r[y]).page by {
            let x2 = if x < i { x } else { x + 1 };
            let y2 = if y < i { y } else { y + 1 };
            assert(r[x] == l[x2]);
            assert(r[y] == l[y2]);
        }
    }
}

proof fn lemma_page_in_update(l: Seq<SlabView>, i: int, s: SlabView, page: u64)
    requires
        0 <= i < l.len(),
        s.page == l[i].page,
    ensures
        page_in(l.update(i, s), page) == page_in(l, page),
        list_pages_distinct(l) ==> list_pages_distinct(l.update(i, s)),
{
    let u = l.update(i, s);
    assert forall|j: int| 0 <= j < l.len() implies (#[trigger] u[j]).page == l[j].page by {}
    if page_in(u, page) {
        let j = choose|j: int| 0 <= j < u.len() && (#[trigger] u[j]).page == page;
        assert(l[j].page == page);
    }
    if page_in(l, page) {
        let j = choose|j: int| 0 <= j < l.len() && (#[trigger] l[j]).page == page;
        assert(u[j].page == page);
    }
    if list_pages_distinct(l) {
        assert forall|x: int, y: int| 0 <= x < y < u.len() implies (#[trigger] u[x]).page != (#[trigger] u[y]).page by {
            assert(u[x].page == l[x].page);
            assert(u[y].page == l[y].page);
        }
    }
}

proof fn lemma_page_in_prepend(l: Seq<SlabView>, s: SlabView, page: u64)
    ensures
        page_in(seq![s] + l, page) == (page == s.page || page_in(l, page)),
        list_pages_distinct(l) && !page_in(l, s.page) ==> list_pages_distinct(seq![s] + l),
{
    let p = seq![s] + l;
    assert(p[0] == s);
    if page_in(p, page) && page != s.page {
        let j = choose|j: int| 0 <= j < p.len() && (#[trigger] p[j]).page == page;
        assert(p[j] == l[j - 1]);
    }
    if page_in(l, page) {
        let j = choose|j: int| 0 <= j < l.len() && (#[trigger] l[j]).page == page;
        assert(p[j + 1] == l[j]);
    }
    if list_pages_distinct(l) && !page_in(l, s.page) {
        assert forall|x: int, y: int| 0 <= x < y < p.len() implies (#[trigger] p[x]).page != (#[trigger] p[y]).page by {
            assert(p[y] == l[y - 1]);
            if x > 0 {
                assert(p[x] == l[x - 1]);
            }
        }
    }
}

/// No slab of `p` shares a page with a slab of `f`.
pub open spec fn lists_apart(p: Seq<SlabView>, f: Seq<SlabView>) -> bool {
    forall|i: int| 0 <= i < p.len() ==> !page_in(f, (#[trigger] p[i]).page)
}

proof fn lemma_pages_distinct_parts(c: SlabClassView)
    ensures
        pages_distinct(c) == (list_pages_distinct(c.partial) && list_pages_distinct(c.full) && lists_apart(c.partial, c.full)),
{
    if pages_distinct(c) {
        assert forall|i: int| 0 <= i < c.partial.len() implies !page_in(c.full, (#[trigger] c.partial[i]).page) by {
            if page_in(c.full, c.partial[i].page) {
                let j = choose|j: int| 0 <= j < c.full.len() && (#[trigger] c.full[j]).page == c.partial[i].page;
                assert(c.partial[i].page != c.full[j].page);
            }
        }
    }
    if list_pages_distinct(c.partial) && list_pages_distinct(c.full) && lists_apart(c.partial, c.full) {
        assert forall|i: int, j: int| 0 <= i < c.partial.len() && 0 <= j < c.full.len() implies (#[trigger] c.partial[i]).page != (#[trigger] c.full[j]).page by {
            assert(!page_in(c.full, c.partial[i].page));
        }
    }
}

proof fn lemma_apart_remove(p: Seq<SlabView>, f: Seq<SlabView>, i: int, j: int)
    requires
        lists_apart(p, f),
    ensures
        0 <= i < p.len() ==> lists_apart(p.remove(i), f),
        0 <= j < f.len() ==> lists_apart(p, f.remove(j)),
{
    if 0 <= i < p.len() {
        assert forall|x: int| 0 <= x < p.remove(i).len() implies !page_in(f, (#[trigger] p.remove(i)[x]).page) by {
            if x < i {
                assert(p.remove(i)[x] == p[x]);
            } else {
                assert(p.remove(i)[x] == p[x + 1]);
            }
        }
    }
    if 0 <= j < f.len() {
        assert forall|x: int| 0 <= x < p.len() implies !page_in(f.remove(j), (#[trigger] p[x]).page) by {
            lemma_page_in_remove(f, j, p[x].page);
        }
    }
}

proof fn lemma_apart_update(p: Seq<SlabView>, f: Seq<SlabView>, i: int, s: SlabView)
    requires
        lists_apart(p, f),
        0 <= i < p.len(),
        s.page == p[i].page,
    ensures
        lists_apart(p.update(i, s), f),
{
    assert forall|x: int| 0 <= x < p.update(i, s).len() implies !page_in(f, (#[trigger] p.update(i, s)[x]).page) by {
        assert(p.update(i, s)[x].page == p[x].page);
    }
}

proof fn lemma_apart_prepend(p: Seq<SlabView>, f: Seq<SlabView>, s: SlabView)
    requires
        lists_apart(p, f),
        !page_in(f, s.page),
    ensures
        lists_apart(seq![s] + p, f),
{
    assert forall|x: int| 0 <= x < (seq![s] + p).len() implies !page_in(f, (#[trigger] (seq![s] + p)[x]).page) by {
        if x > 0 {
            assert((seq![s] + p)[x] == p[x - 1]);
        }
    }
}

proof fn lemma_apart_prepend_full(p: Seq<SlabView>, f: Seq<SlabView>, s: SlabView)
    requires
        lists_apart(p, f),
        !page_in(p, s.page),
    ensures
        lists_apart(p, seq![s] + f),
{
    assert forall|x: int| 0 <= x < p.len() implies !page_in(seq![s] + f, (#[trigger] p[x]).page) by {
        lemma_page_in_prepend(f, s, p[x].page);
        if p[x].page == s.page {
            assert(page_in(p, s.page));
        }
    }
}

/// Taking a slot keeps the pages of the class's slabs, and keeps them
/// distinct.
proof fn lemma_take_pages(c: SlabClassView)
    requires
        c.partial.len() > 0,
    ensures
        forall|page: u64| #[trigger] class_has_page(crate::mm::slab::class_after_take(c), page) == class_has_page(c, page),
        pages_distinct(c) ==> pages_distinct(crate::mm::slab::class_after_take(c)),
{
    let s = crate::mm::slab::with_slot_taken(c.partial[0]);
    let c1 = crate::mm::slab::class_after_take(c);
    lemma_pages_distinct_parts(c);
    lemma_pages_distinct_parts(c1);
    assert(c.partial[0].page == s.page);
    if s.used == c.total_slot {
        assert(c.partial.drop_first() =~= c.partial.remove(0));
        assert forall|page: u64| #[trigger] class_has_page(c1, page) == class_has_page(c, page) by {
            lemma_page_in_remove(c.partial, 0, page);
            lemma_page_in_prepend(c.full, s, page);
            if page == s.page {
                assert(page_in(c.partial, page));
            }
        }
        if pages_distinct(c) {
            lemma_page_in_remove(c.partial, 0, s.page);
            assert(!page_in(c.full, c.partial[0].page));
            lemma_page_in_prepend(c.full, s, s.page);
            lemma_apart_remove(c.partial, c.full, 0, 0);
            lemma_apart_prepend_full(c.partial.remove(0), c.full, s);
        }
    } else {
        assert forall|page: u64| #[trigger] class_has_page(c1, page) == class_has_page(c, page) by {
            lemma_page_in_update(c.partial, 0, s, page);
        }
        if pages_distinct(c) {
            lemma_page_in_update(c.partial, 0, s, s.page);
            lemma_apart_update(c.partial, c.full, 0, s);
        }
    }
}

/// Giving a slot back keeps the class's slab pages distinct and adds none;
/// when the slab empties, its page leaves the class and goes back to the
/// physical allocator, else the allocator is untouched.
proof fn lemma_free_slot_pages(c: SlabClassView, a: PhysMemView, hhdm: u64, ptr: u64)
    requires
        class_wf(c),
        pages_distinct(c),
        slab_of(c, ptr) is Some,
    ensures
        ({
            let (c1, a1) = slab_free_spec(c, a, hhdm, ptr);
            let s = slab_of(c, ptr).unwrap();
            let back = crate::mm::slab::with_slot_back(s, ptr);
            &&& pages_distinct(c1)
            &&& forall|page: u64| #[trigger] class_has_page(c1, page) ==> class_has_page(c, page)
            &&& class_has_page(c, s.page)
            &&& s.page % 4096 == 0
            &&& back.used == 0 ==> !class_has_page(c1, s.page) && a1 == free_page_spec(a, (s.page - hhdm) as u64)
            &&& back.used != 0 ==> a1 == a
        }),
{
    let (c1, a1) = slab_free_spec(c, a, hhdm, ptr);
    let page = page_of(ptr);
    let pi = first_on_page(c.partial, page);
    let fi = first_on_page(c.full, page);
    lemma_pages_distinct_parts(c);
    lemma_pages_distinct_parts(c1);
    if pi >= 0 {
        let w = choose|i: int| #[trigger] is_first_on_page(c.partial, page, i);
        assert(is_first_on_page(c.partial, page, pi));
        let s = c.partial[pi];
        assert(slab_ok(s, c));
        assert(page_in(c.partial, s.page));
        let back = crate::mm::slab::with_slot_back(s, ptr);
        if back.used == 0 {
            assert forall|pg: u64| #[trigger] class_has_page(c1, pg) implies class_has_page(c, pg) by {
                lemma_page_in_remove(c.partial, pi, pg);
            }
            lemma_page_in_remove(c.partial, pi, s.page);
            assert(!page_in(c.full, c.partial[pi].page));
            lemma_apart_remove(c.partial, c.full, pi, 0);
        } else {
            assert forall|pg: u64| #[trigger] class_has_page(c1, pg) implies class_has_page(c, pg) by {
                lemma_page_in_update(c.partial, pi, back, pg);
            }
            lemma_page_in_update(c.partial, pi, back, s.page);
            lemma_apart_update(c.partial, c.full, pi, back);
        }
    } else {
        let w = choose|i: int| #[trigger] is_first_on_page(c.full, page, i);
        assert(is_first_on_page(c.full, page, fi));
        let s = c.full[fi];
        assert(slab_ok(s, c));
        assert(page_in(c.full, s.page));
        let back = crate::mm::slab::with_slot_back(s, ptr);
        lemma_page_in_remove(c.full, fi, s.page);
        lemma_apart_remove(c.partial, c.full, 0, fi);
        if !page_in(c.partial, s.page) {
        } else {
            let j = choose|j: int| 0 <= j < c.partial.len() && (#[trigger] c.partial[j]).page == s.page;
            assert(!page_in(c.full, c.partial[j].page));
        }
        if back.used == 0 {
            assert forall|pg: u64| #[trigger] class_has_page(c1, pg) implies class_has_page(c, pg) by {
                lemma_page_in_remove(c.full, fi, pg);
            }
        } else {
            assert forall|pg: u64| #[trigger] class_has_page(c1, pg) implies class_has_page(c, pg) by {
                lemma_page_in_remove(c.full, fi, pg);
                lemma_page_in_prepend(c.partial, back, pg);
            }
            lemma_page_in_prepend(c.partial, back, s.page);
            assert forall|x: int| 0 <= x < (seq![back] + c.partial).len() implies !page_in(c.full.remove(fi), (#[trigger] (seq![back] + c.partial)[x]).page) by {
                if x > 0 {
                    assert((seq![back] + c.partial)[x] == c.partial[x - 1]);
                    assert(!page_in(c.full.remove(fi), c.partial[x - 1].page));
                }
            }
        }
    }
}

/// Distinct pages of the direct map, each on a page boundary, have distinct
/// bits in the physical allocator's bitmap.
proof fn lemma_pages_apart_bits(p: u64, q: u64, hhdm: u64)
    requires
        p % 4096 == 0,
        q % 4096 == 0,
        p >= hhdm,
        q >= hhdm,
        p != q,
    ensures
        (p - hhdm) / 4096 != (q - hhdm) / 4096,
{
    let x: int = p - hhdm;
    let y: int = q - hhdm;
    vstd::arithmetic::div_mod::lemma_fundamental_div_mod(x, 4096);
    vstd::arithmetic::div_mod::lemma_fundamental_div_mod(y, 4096);
    vstd::arithmetic::div_mod::lemma_fundamental_div_mod(p as int, 4096);
    vstd::arithmetic::div_mod::lemma_fundamental_div_mod(q as int, 4096);
    if x / 4096 == y / 4096 {
        assert(-4096 < p - q < 4096);
        let a = p as int / 4096;
        let b = q as int / 4096;
        assert(p - q == 4096 * (a - b)) by (nonlinear_arith)
            requires p as int == 4096 * a, q as int == 4096 * b;
        assert(a - b == 0) by (nonlinear_arith)
            requires -4096 < 4096 * (a - b) < 4096;
    }
}

/// No two slabs of the heap share a page.
pub open spec fn heap_pages_distinct(h: HeapView) -> bool {
    &&& forall|k: int| 0 <= k < h.classes.len() ==> pages_distinct(#[trigger] h.classes[k])
    &&& forall|k1: int, k2: int, page: u64| 0 <= k1 < h.classes.len() && 0 <= k2 < h.classes.len() && k1 != k2
        && #[trigger] class_has_page(h.classes[k1], page) ==> !#[trigger] class_has_page(h.classes[k2], page)
}

proof fn lemma_no_slab_on_page(c: SlabClassView, ptr: u64)
    requires
        !class_has_page(c, page_of(ptr)),
    ensures
        slab_of(c, ptr) is None,
{
    if exists|i: int| #[trigger] is_first_on_page(c.partial, page_of(ptr), i) {
        let i = choose|i: int| #[trigger] is_first_on_page(c.partial, page_of(ptr), i);
        assert(c.partial[i].page == page_of(ptr));
    }
    if exists|i: int| #[trigger] is_first_on_page(c.full, page_of(ptr), i) {
        let i = choose|i: int| #[trigger] is_first_on_page(c.full, page_of(ptr), i);
        assert(c.full[i].page == page_of(ptr));
    }
}

/// The page at `page` in the direct map is one the physical allocator counts
/// as used.
pub open spec fn page_in_use(a: PhysMemView, hhdm: u64, page: u64) -> bool {
    &&& page >= hhdm
    &&& a.bits is Some
    &&& (page - hhdm) / 4096 < a.bits.unwrap().len()
    &&& a.bits.unwrap()[(page - hhdm) / 4096]
}

/// Every page of the heap, slab or large allocation, is one the physical
/// allocator counts as used; large allocations start on a page boundary.
pub open spec fn heap_pages_used(h: HeapView, a: PhysMemView, hhdm: u64) -> bool {
    &&& forall|k: int, page: u64| 0 <= k < h.classes.len() && #[trigger] class_has_page(h.classes[k], page) ==> page_in_use(a, hhdm, page)
    &&& forall|i: int| 0 <= i < h.large.len() ==> page_in_use(a, hhdm, (#[trigger] h.large[i]).page) && h.large[i].page % 4096 == 0
}


/// large allocation, and lies page aligned in the direct map.
proof fn lemma_fresh_page_unused(h: HeapView, a: PhysMemView, hhdm: u64)
    requires
        heap_ready(h, a, hhdm),
        heap_pages_used(h, a, hhdm),
        alloc_page_spec(a).1 is Some,
    ensures
        ({
            let pa = alloc_page_spec(a).1.unwrap().0;
            let page = (pa + hhdm) as u64;
            &&& page % 4096 == 0
            &&& page + 4096 <= u64::MAX
            &&& page - hhdm == pa
            &&& forall|k: int| 0 <= k < h.classes.len() ==> !#[trigger] class_has_page(h.classes[k], page)
            &&& forall|i: int| 0 <= i < h.large.len() ==> (#[trigger] h.large[i]).page != page
        }),
{
    crate::mm::physical::lemma_alloc_takes_free_page(a);
    let pa = alloc_page_spec(a).1.unwrap().0;
    let page = (pa + hhdm) as u64;
    assert forall|k: int| 0 <= k < h.classes.len() implies !#[trigger] class_has_page(h.classes[k], page) by {
        if class_has_page(h.classes[k], page) {
            assert(page_in_use(a, hhdm, page));
        }
    }
    assert forall|i: int| 0 <= i < h.large.len() implies (#[trigger] h.large[i]).page != page by {
        assert(page_in_use(a, hhdm, h.large[i].page));
    }
}

/// The heap's pages are apart: no two slabs share a page, and a large
/// allocation shares its page with no slab and no other large allocation.
pub open spec fn heap_pages_apart(h: HeapView) -> bool {
    &&& heap_pages_distinct(h)
    &&& forall|i: int, j: int| 0 <= i < j < h.large.len() ==> (#[trigger] h.large[i]).page != (#[trigger] h.large[j]).page
    &&& forall|k: int, i: int| 0 <= k < h.classes.len() && 0 <= i < h.large.len() ==> !class_has_page(#[trigger] h.classes[k], (#[trigger] h.large[i]).page)
}

/// The heap and the physical allocator agree: the heap's pages are apart, and
/// each is one the allocator counts as used.
pub open spec fn heap_consistent(h: HeapView, a: PhysMemView, hhdm: u64) -> bool {
    heap_pages_apart(h) && heap_pages_used(h, a, hhdm)
}

/// The pages of a consistent class's slabs are page aligned.
proof fn lemma_class_pages_aligned(c: SlabClassView, page: u64)
    requires
        class_wf(c),
        class_has_page(c, page),
    ensures
        page % 4096 == 0,
{
    if page_in(c.partial, page) {
        let i = choose|i: int| 0 <= i < c.partial.len() && (#[trigger] c.partial[i]).page == page;
        assert(slab_ok(c.partial[i], c));
    } else {
        let i = choose|i: int| 0 <= i < c.full.len() && (#[trigger] c.full[i]).page == page;
        assert(slab_ok(c.full[i], c));
    }
}

/// Replacing class `k` by `c1`, whose pages are distinct and are those of
/// class `k` or a page `extra` that no slab or large allocation is on, keeps
/// the heap's pages apart.
proof fn lemma_class_change_apart(h: HeapView, k: int, c1: SlabClassView, extra: Option<u64>)
    requires
        heap_pages_apart(h),
        h.classes.len() == 9,
        0 <= k < 9,
        pages_distinct(c1),
        forall|pg: u64| #[trigger] class_has_page(c1, pg) ==> class_has_page(h.classes[k], pg) || extra == Some(pg),
        extra is Some ==> forall|j: int| 0 <= j < h.classes.len() ==> !#[trigger] class_has_page(h.classes[j], extra.unwrap()),
        extra is Some ==> forall|i: int| 0 <= i < h.large.len() ==> (#[trigger] h.large[i]).page != extra.unwrap(),
    ensures
        heap_pages_apart(with_class(h, k, c1)),
{
    let h1 = with_class(h, k, c1);
    assert forall|j: int| 0 <= j < h1.classes.len() implies pages_distinct(#[trigger] h1.classes[j]) by {
        if j != k {
            assert(h1.classes[j] == h.classes[j]);
        }
    }
    assert forall|k1: int, k2: int, page: u64| 0 <= k1 < h1.classes.len() && 0 <= k2 < h1.classes.len() && k1 != k2
        && #[trigger] class_has_page(h1.classes[k1], page) implies !#[trigger] class_has_page(h1.classes[k2], page) by {
        if k1 == k {
            assert(h1.classes[k2] == h.classes[k2]);
            if class_has_page(h.classes[k], page) {
                assert(!class_has_page(h.classes[k2], page));
            } else {
                assert(extra == Some(page));
                let np = extra.unwrap();
                assert(np == page);
                assert(0 <= k2 < h.classes.len());
                assert(!class_has_page(h.classes[k2], np));
            }
        } else if k2 == k {
            assert(h1.classes[k1] == h.classes[k1]);
            assert(class_has_page(h.classes[k1], page));
            if class_has_page(c1, page) {
                if class_has_page(h.classes[k], page) {
                    assert(!class_has_page(h.classes[k], page));
                } else {
                    assert(extra == Some(page));
                    let np = extra.unwrap();
                    assert(np == page);
                    assert(0 <= k1 < h.classes.len());
                    assert(!class_has_page(h.classes[k1], np));
                }
            }
        } else {
            assert(h1.classes[k1] == h.classes[k1]);
            assert(h1.classes[k2] == h.classes[k2]);
        }
    }
    assert forall|j: int, i: int| 0 <= j < h1.classes.len() && 0 <= i < h1.large.len()
        implies !class_has_page(#[trigger] h1.classes[j], (#[trigger] h1.large[i]).page) by {
        if j != k {
            assert(h1.classes[j] == h.classes[j]);
        } else {
            assert(!class_has_page(h.classes[k], h.large[i].page));
        }
    }
}

/// Giving a slot back to class `k` keeps the heap consistent with the
/// physical allocator: a slab that empties leaves the heap as its page goes
/// back, and no other heap page shares that page's bit.
proof fn lemma_slab_free_keeps_consistent(h: HeapView, a: PhysMemView, hhdm: u64, k: int, ptr: u64)
    requires
        heap_wf(h),
        heap_consistent(h, a, hhdm),
        0 <= k < 9,
        slab_of(h.classes[k], ptr) is Some,
    ensures
        ({
            let (c1, a1) = slab_free_spec(h.classes[k], a, hhdm, ptr);
            heap_consistent(with_class(h, k, c1), a1, hhdm)
        }),
{
    let c = h.classes[k];
    assert(class_wf(c));
    assert(pages_distinct(c));
    lemma_free_slot_pages(c, a, hhdm, ptr);
    let (c1, a1) = slab_free_spec(c, a, hhdm, ptr);
    let sl = slab_of(c, ptr).unwrap();
    let back = crate::mm::slab::with_slot_back(sl, ptr);
    let h1 = with_class(h, k, c1);
    lemma_class_change_apart(h, k, c1, None);
    assert(page_in_use(a, hhdm, sl.page));
    if back.used == 0 {
        let x = (sl.page - hhdm) as u64;
        assert(x as int == sl.page - hhdm);
        let b = a.bits.unwrap();
        assert(a1.bits == Some(b.update(x as int / 4096, false)));
        assert forall|j: int, pg: u64| 0 <= j < h1.classes.len() && #[trigger] class_has_page(h1.classes[j], pg)
            implies page_in_use(a1, hhdm, pg) by {
            if j == k {
                assert(class_has_page(c, pg));
                assert(pg != sl.page);
            } else {
                assert(h1.classes[j] == h.classes[j]);
                assert(!class_has_page(h.classes[j], sl.page));
            }
            assert(class_has_page(h.classes[j], pg));
            assert(class_wf(h.classes[j]));
            lemma_class_pages_aligned(h.classes[j], pg);
            lemma_pages_apart_bits(pg, sl.page, hhdm);
            assert(page_in_use(a, hhdm, pg));
        }
        assert forall|i: int| 0 <= i < h1.large.len() implies page_in_use(a1, hhdm, (#[trigger] h1.large[i]).page) && h1.large[i].page % 4096 == 0 by {
            let pg = h.large[i].page;
            assert(page_in_use(a, hhdm, pg));
            assert(!class_has_page(c, pg));
            lemma_pages_apart_bits(pg, sl.page, hhdm);
        }
    } else {
        assert forall|j: int, pg: u64| 0 <= j < h1.classes.len() && #[trigger] class_has_page(h1.classes[j], pg)
            implies page_in_use(a1, hhdm, pg) by {
            if j != k {
                assert(h1.classes[j] == h.classes[j]);
            }
        }
    }
}

/// Taking a slot from class `k`, with a new slab when it has no partial one,
/// keeps the heap consistent with the physical allocator.
proof fn lemma_slab_alloc_keeps_consistent(h: HeapView, a: PhysMemView, hhdm: u64, k: int)
    requires
        heap_ready(h, a, hhdm),
        heap_consistent(h, a, hhdm),
        0 <= k < 9,
    ensures
        ({
            let (c1, a1, r) = slab_alloc_spec(h.classes[k], a, hhdm);
            heap_consistent(with_class(h, k, c1), a1, hhdm)
        }),
{
    let c = h.classes[k];
    assert(class_wf(c));
    assert(pages_distinct(c));
    let (c1, a1, r) = slab_alloc_spec(c, a, hhdm);
    let h1 = with_class(h, k, c1);
    crate::mm::physical::lemma_alloc_marks_used(a);
    if c.partial.len() > 0 {
        lemma_take_pages(c);
        lemma_class_change_apart(h, k, c1, None);
        assert forall|j: int, pg: u64| 0 <= j < h1.classes.len() && #[trigger] class_has_page(h1.classes[j], pg)
            implies page_in_use(a1, hhdm, pg) by {
            if j != k {
                assert(h1.classes[j] == h.classes[j]);
            }
        }
    } else if alloc_page_spec(a).1 is Some {
        lemma_fresh_page_unused(h, a, hhdm);
        let pa = alloc_page_spec(a).1.unwrap().0;
        let np = (pa + hhdm) as u64;
        let f = crate::mm::slab::fresh_slab(np, c.class_size, c.total_slot);
        let c0 = SlabClassView { partial: seq![f], ..c };
        assert(c0.partial =~= seq![f] + c.partial);
        assert forall|pg: u64| #[trigger] class_has_page(c0, pg) == (pg == np || class_has_page(c, pg)) by {
            lemma_page_in_prepend(c.partial, f, pg);
        }
        lemma_pages_distinct_parts(c);
        lemma_pages_distinct_parts(c0);
        lemma_page_in_prepend(c.partial, f, np);
        assert(!class_has_page(c, np));
        lemma_apart_prepend(c.partial, c.full, f);
        lemma_take_pages(c0);
        assert(c1 == crate::mm::slab::class_after_take(c0));
        lemma_class_change_apart(h, k, c1, Some(np));
        assert forall|j: int, pg: u64| 0 <= j < h1.classes.len() && #[trigger] class_has_page(h1.classes[j], pg)
            implies page_in_use(a1, hhdm, pg) by {
            if j != k {
                assert(h1.classes[j] == h.classes[j]);
            } else if pg != np {
                assert(class_has_page(c, pg));
            }
        }
    } else {
        assert(c1 == c);
        assert(h1.classes =~= h.classes);
        assert forall|j: int, pg: u64| 0 <= j < h1.classes.len() && #[trigger] class_has_page(h1.classes[j], pg)
            implies page_in_use(a1, hhdm, pg) by {
        }
    }
}

/// The heap stays consistent with a physical allocator that only marks more
/// pages used, as allocating for page tables or for the heap does.
pub proof fn lemma_heap_consistent_more_used(h: HeapView, a: PhysMemView, a1: PhysMemView, hhdm: u64)
    requires
        heap_consistent(h, a, hhdm),
        a.bits is Some ==> {
            &&& a1.bits is Some
            &&& a1.bits.unwrap().len() == a.bits.unwrap().len()
            &&& forall|x: int| 0 <= x < a.bits.unwrap().len() && a.bits.unwrap()[x] ==> #[trigger] a1.bits.unwrap()[x]
        },
    ensures
        heap_consistent(h, a1, hhdm),
{
    assert forall|k: int, pg: u64| 0 <= k < h.classes.len() && #[trigger] class_has_page(h.classes[k], pg)
        implies page_in_use(a1, hhdm, pg) by {
        assert(page_in_use(a, hhdm, pg));
    }
    assert forall|i: int| 0 <= i < h.large.len() implies page_in_use(a1, hhdm, (#[trigger] h.large[i]).page) && h.large[i].page % 4096 == 0 by {
        assert(page_in_use(a, hhdm, h.large[i].page));
    }
}

/// Some slab or large allocation of the heap is on page `page`.
pub open spec fn is_heap_page(h: HeapView, page: u64) -> bool {
    ||| exists|k: int| 0 <= k < h.classes.len() && #[trigger] class_has_page(h.classes[k], page)
    ||| exists|i: int| 0 <= i < h.large.len() && (#[trigger] h.large[i]).page == page
}

/// Freeing a page on no slab and under no large allocation keeps the heap
/// consistent with the physical allocator.
proof fn lemma_free_other_page_keeps_consistent(h: HeapView, a: PhysMemView, hhdm: u64, page: u64)
    requires
        heap_wf(h),
        heap_consistent(h, a, hhdm),
        !is_heap_page(h, page),
        page % 4096 == 0,
        page >= hhdm,
        a.bits is Some,
        (page - hhdm) / 4096 < a.bits.unwrap().len(),
    ensures
        heap_consistent(h, free_page_spec(a, (page - hhdm) as u64), hhdm),
{
    let a1 = free_page_spec(a, (page - hhdm) as u64);
    let x = (page - hhdm) as u64;
    assert(x as int == page - hhdm);
    let b = a.bits.unwrap();
    assert(a1.bits == Some(b.update(x as int / 4096, false)));
    assert forall|k: int, pg: u64| 0 <= k < h.classes.len() && #[trigger] class_has_page(h.classes[k], pg)
        implies page_in_use(a1, hhdm, pg) by {
        assert(page_in_use(a, hhdm, pg));
        assert(class_wf(h.classes[k]));
        lemma_class_pages_aligned(h.classes[k], pg);
        assert(pg != page);
        lemma_pages_apart_bits(pg, page, hhdm);
    }
    assert forall|i: int| 0 <= i < h.large.len() implies page_in_use(a1, hhdm, (#[trigger] h.large[i]).page) && h.large[i].page % 4096 == 0 by {
        let pg = h.large[i].page;
        assert(page_in_use(a, hhdm, pg));
        assert(pg != page);
        lemma_pages_apart_bits(pg, page, hhdm);
    }
}

/// A large allocation from `kmalloc` keeps the heap consistent with the
/// physical allocator: its page is a new one, now used.
proof fn lemma_large_kmalloc_keeps_consistent(h: HeapView, a: PhysMemView, hhdm: u64, size: usize)
    requires
        heap_ready(h, a, hhdm),
        heap_consistent(h, a, hhdm),
        2048 < size,
    ensures
        heap_consistent(kmalloc_spec(h, a, hhdm, size).0, kmalloc_spec(h, a, hhdm, size).1, hhdm),
{
    crate::mm::physical::lemma_alloc_marks_used(a);
    let (h1, a1, r) = kmalloc_spec(h, a, hhdm, size);
    if alloc_page_spec(a).1 is Some {
        lemma_fresh_page_unused(h, a, hhdm);
        let pa = alloc_page_spec(a).1.unwrap().0;
        let np = (pa + hhdm) as u64;
        let n = h.large.len() as int;
        assert(h1.classes == h.classes);
        assert(h1.large[n].page == np);
        assert forall|i: int| 0 <= i < n implies h1.large[i] == h.large[i] by {}
        assert forall|i: int, j: int| 0 <= i < j < h1.large.len() implies (#[trigger] h1.large[i]).page != (#[trigger] h1.large[j]).page by {
            if j == n {
                assert(h.large[i].page != np);
            }
        }
        assert forall|k: int, i: int| 0 <= k < h1.classes.len() && 0 <= i < h1.large.len()
            implies !class_has_page(#[trigger] h1.classes[k], (#[trigger] h1.large[i]).page) by {
            if i == n {
                assert(!class_has_page(h.classes[k], np));
            } else {
                assert(!class_has_page(h.classes[k], h.large[i].page));
            }
        }
        assert forall|k: int, pg: u64| 0 <= k < h1.classes.len() && #[trigger] class_has_page(h1.classes[k], pg)
            implies page_in_use(a1, hhdm, pg) by {
            assert(page_in_use(a, hhdm, pg));
        }
        assert forall|i: int| 0 <= i < h1.large.len() implies page_in_use(a1, hhdm, (#[trigger] h1.large[i]).page) && h1.large[i].page % 4096 == 0 by {
            if i < n {
                assert(page_in_use(a, hhdm, h.large[i].page));
            }
        }
    } else {
        lemma_heap_consistent_more_used(h, a, a1, hhdm);
    }
}

/// Freeing large allocation `li` keeps the heap consistent with the physical
/// allocator: its page leaves the heap as it goes back.
proof fn lemma_large_free_keeps_consistent(h: HeapView, a: PhysMemView, hhdm: u64, li: int)
    requires
        heap_wf(h),
        heap_consistent(h, a, hhdm),
        0 <= li < h.large.len(),
    ensures
        heap_consistent(
            HeapView { large: h.large.remove(li), ..h },
            free_page_spec(a, (h.large[li].page - hhdm) as u64),
            hhdm,
        ),
{
    let page = h.large[li].page;
    let h1 = HeapView { large: h.large.remove(li), ..h };
    assert(page_in_use(a, hhdm, page));
    let a1 = free_page_spec(a, (page - hhdm) as u64);
    assert(((page - hhdm) as u64) as int == page - hhdm);
    assert forall|i: int| 0 <= i < h1.large.len() implies (#[trigger] h1.large[i]) == h.large[if i < li { i } else { i + 1 }] by {}
    assert forall|i: int, j: int| 0 <= i < j < h1.large.len() implies (#[trigger] h1.large[i]).page != (#[trigger] h1.large[j]).page by {
        assert(h1.large[i] == h.large[if i < li { i } else { i + 1 }]);
        assert(h1.large[j] == h.large[if j < li { j } else { j + 1 }]);
    }
    assert forall|k: int, i: int| 0 <= k < h1.classes.len() && 0 <= i < h1.large.len()
        implies !class_has_page(#[trigger] h1.classes[k], (#[trigger] h1.large[i]).page) by {
        assert(h1.large[i] == h.large[if i < li { i } else { i + 1 }]);
        assert(!class_has_page(h.classes[k], h.large[if i < li { i } else { i + 1 }].page));
    }
    assert forall|k: int, pg: u64| 0 <= k < h1.classes.len() && #[trigger] class_has_page(h1.classes[k], pg)
        implies page_in_use(a1, hhdm, pg) by {
        assert(page_in_use(a, hhdm, pg));
        assert(class_wf(h.classes[k]));
        lemma_class_pages_aligned(h.classes[k], pg);
        assert(!class_has_page(h.classes[k], page));
        lemma_pages_apart_bits(pg, page, hhdm);
    }
    assert forall|i: int| 0 <= i < h1.large.len() implies page_in_use(a1, hhdm, (#[trigger] h1.large[i]).page) && h1.large[i].page % 4096 == 0 by {
        let j = if i < li { i } else { i + 1 };
        assert(h1.large[i] == h.large[j]);
        assert(page_in_use(a, hhdm, h.large[j].page));
        if j < li {
            assert(h.large[j].page != h.large[li].page);
        } else {
            assert(h.large[li].page != h.large[j].page);
        }
        lemma_pages_apart_bits(h.large[j].page, page, hhdm);
    }
}

/// `kmalloc` keeps the heap consistent with the physical allocator.
pub proof fn lemma_kmalloc_keeps_consistent(h: HeapView, a: PhysMemView, hhdm: u64, size: usize)
    requires
        heap_ready(h, a, hhdm),
        heap_consistent(h, a, hhdm),
    ensures
        heap_consistent(kmalloc_spec(h, a, hhdm, size).0, kmalloc_spec(h, a, hhdm, size).1, hhdm),
{
    let m = if size < 16 { 16 } else { size as int };
    if size > 0 {
        if m <= 2048 {
            let k = class_for(m);
            let w = size_to_class_spec_witness(m);
            lemma_class_for(m, w);
            lemma_slab_alloc_keeps_consistent(h, a, hhdm, k);
        } else {
            lemma_large_kmalloc_keeps_consistent(h, a, hhdm, size);
        }
    }
}

/// `kfree` keeps the heap consistent with the physical allocator.
pub proof fn lemma_kfree_keeps_consistent(h: HeapView, a: PhysMemView, hhdm: u64, ptr: u64)
    requires
        heap_wf(h),
        phys_wf(a),
        can_kfree(h, a, hhdm, ptr),
        heap_consistent(h, a, hhdm),
    ensures
        heap_consistent(kfree_spec(h, a, hhdm, ptr).0, kfree_spec(h, a, hhdm, ptr).1, hhdm),
{
    if ptr != 0 {
        let k = slab_class_of(h, ptr);
        if k >= 0 {
            lemma_slab_free_keeps_consistent(h, a, hhdm, k, ptr);
        } else {
            let li = large_on_page(h.large, page_of(ptr));
            lemma_large_free_keeps_consistent(h, a, hhdm, li);
        }
    }
}

/// Rust's global allocator keeps the heap consistent with the physical
/// allocator when it allocates.
pub proof fn lemma_kernel_alloc_keeps_consistent(h: HeapView, a: PhysMemView, hhdm: u64, size: usize, align: usize)
    requires
        heap_ready(h, a, hhdm),
        heap_consistent(h, a, hhdm),
    ensures
        heap_consistent(kernel_alloc_spec(h, a, hhdm, size, align).0, kernel_alloc_spec(h, a, hhdm, size, align).1, hhdm),
{
    let m = if size < align { align as int } else { size as int };
    if m <= 2048 {
        let k = class_for(m);
        let w = size_to_class_spec_witness(m);
        lemma_class_for(m, w);
        lemma_slab_alloc_keeps_consistent(h, a, hhdm, k);
    } else {
        crate::mm::physical::lemma_alloc_marks_used(a);
        lemma_heap_consistent_more_used(h, a, alloc_page_spec(a).0, hhdm);
    }
}

/// Rust's global allocator keeps the heap consistent with the physical
/// allocator when it frees, provided a whole page it gives back is no page
/// of the heap.
pub proof fn lemma_kernel_dealloc_keeps_consistent(h: HeapView, a: PhysMemView, hhdm: u64, ptr: u64, size: usize, align: usize)
    requires
        heap_wf(h),
        phys_wf(a),
        heap_consistent(h, a, hhdm),
        ({
            let m = if size < align { align as int } else { size as int };
            if m <= 2048 {
                can_free_slot(h.classes[class_for(m)], a, hhdm, ptr)
            } else {
                &&& page_of(ptr) >= hhdm
                &&& can_free(a, (page_of(ptr) - hhdm) as u64)
                &&& !is_heap_page(h, page_of(ptr))
            }
        }),
    ensures
        heap_consistent(kernel_dealloc_spec(h, a, hhdm, ptr, size, align).0, kernel_dealloc_spec(h, a, hhdm, ptr, size, align).1, hhdm),
{
    let m = if size < align { align as int } else { size as int };
    if m <= 2048 {
        let k = class_for(m);
        let w = size_to_class_spec_witness(m);
        lemma_class_for(m, w);
        lemma_slab_free_keeps_consistent(h, a, hhdm, k, ptr);
    } else {
        assert(page_of(ptr) % 4096 == 0) by {
            assert((ptr & !0xFFFu64) % 4096 == 0) by (bit_vector);
        }
        lemma_free_other_page_keeps_consistent(h, a, hhdm, page_of(ptr));
    }
}

/// The first class with a slab on the page of `ptr` is class `k` when class
/// `k` has one there and no other class has a slab on that page.
proof fn lemma_only_class_on_page(h: HeapView, ptr: u64, k: int)
    requires
        h.classes.len() == 9,
        0 <= k < 9,
        slab_of(h.classes[k], ptr) is Some,
        forall|j: int| 0 <= j < k ==> !#[trigger] class_has_page(h.classes[j], page_of(ptr)),
    ensures
        slab_class_of(h, ptr) == k,
{
    assert forall|j: int| 0 <= j < k implies slab_of(#[trigger] h.classes[j], ptr) is None by {
        lemma_no_slab_on_page(h.classes[j], ptr);
    }
    lemma_slab_class_of(h, ptr, k);
}

/// `kfree` undoes `kmalloc` when the slot comes from a slab that already had
/// a free one: heap and physical allocator are back as they were.
proof fn lemma_kfree_undoes_kmalloc_partial(h: HeapView, a: PhysMemView, hhdm: u64, size: usize, k: int)
    requires
        heap_wf(h),
        heap_pages_distinct(h),
        0 < size,
        (if size < 16 { 16 } else { size as int }) <= 2048,
        k == class_for(if size < 16 { 16 } else { size as int }),
        0 <= k < 9,
        h.classes[k].partial.len() > 0,
    ensures
        ({
            let (h1, a1, r) = kmalloc_spec(h, a, hhdm, size);
            &&& r is Some
            &&& r.unwrap() != 0 ==> kfree_spec(h1, a1, hhdm, r.unwrap()) == (h, a)
        }),
{
    let c = h.classes[k];
    assert(class_wf(c));
    lemma_slab_free_undoes_alloc(c, a, hhdm);
    let (c1, a1, r) = slab_alloc_spec(c, a, hhdm);
    let ptr = r.unwrap();
    let s0 = c.partial[0];
    assert(slab_ok(s0, c));
    assert(page_of(ptr) == s0.page);
    let h1 = with_class(h, k, c1);
    assert(class_has_page(c, s0.page));
    assert forall|j: int| 0 <= j < k implies !#[trigger] class_has_page(h1.classes[j], page_of(ptr)) by {
        assert(h1.classes[j] == h.classes[j]);
    }
    assert(slab_of(h1.classes[k], ptr) is Some) by {
        let s = crate::mm::slab::with_slot_taken(s0);
        if s.used == c.total_slot {
            assert(is_first_on_page(c1.full, s0.page, 0));
        } else {
            assert(is_first_on_page(c1.partial, s0.page, 0));
        }
    }
    lemma_only_class_on_page(h1, ptr, k);
    if ptr != 0 {
        assert(kfree_spec(h1, a1, hhdm, ptr) == (with_class(h1, k, c), a));
        assert(with_class(h1, k, c).classes =~= h.classes);
        assert(with_class(h1, k, c) == h);
    }
}

/// `kfree` undoes `kmalloc` when the slot comes from a new slab: the class is
/// back as it was and the slab's page goes back to the physical allocator.
proof fn lemma_kfree_undoes_kmalloc_refill(h: HeapView, a: PhysMemView, hhdm: u64, size: usize, k: int)
    requires
        heap_ready(h, a, hhdm),
        heap_pages_used(h, a, hhdm),
        0 < size,
        (if size < 16 { 16 } else { size as int }) <= 2048,
        k == class_for(if size < 16 { 16 } else { size as int }),
        0 <= k < 9,
        h.classes[k].partial.len() == 0,
        alloc_page_spec(a).1 is Some,
    ensures
        ({
            let (h1, a1, r) = kmalloc_spec(h, a, hhdm, size);
            let pa = alloc_page_spec(a).1.unwrap().0;
            &&& r is Some
            &&& r.unwrap() != 0
            &&& kfree_spec(h1, a1, hhdm, r.unwrap()) == (h, free_page_spec(alloc_page_spec(a).0, pa))
        }),
{
    let c = h.classes[k];
    assert(class_wf(c));
    lemma_fresh_page_unused(h, a, hhdm);
    let (a1, ra) = alloc_page_spec(a);
    let pa = ra.unwrap().0;
    let page = (pa + hhdm) as u64;
    let f = crate::mm::slab::fresh_slab(page, c.class_size, c.total_slot);
    let c0 = SlabClassView { partial: seq![f], ..c };
    let (c1, a2, r) = slab_alloc_spec(c, a, hhdm);
    assert(c1 == crate::mm::slab::class_after_take(c0));
    let ptr = r.unwrap();
    assert(ptr == f.free[0]);
    assert(c.class_size * c.total_slot <= 4096) by (nonlinear_arith)
        requires c.class_size * c.total_slot <= 4096 - SLAB_HEADER_SIZE;
    assert(c.class_size * 1 <= c.class_size * c.total_slot) by (nonlinear_arith)
        requires c.total_slot >= 1, c.class_size >= 0;
    assert(ptr == page + 4096 - c.class_size);
    crate::mm::slab::lemma_page_of_within(page, ptr);
    assert(ptr != 0);
    let s = crate::mm::slab::with_slot_taken(f);
    let h1 = with_class(h, k, c1);
    assert forall|j: int| 0 <= j < k implies !#[trigger] class_has_page(h1.classes[j], page_of(ptr)) by {
        assert(h1.classes[j] == h.classes[j]);
    }
    assert(slab_of(h1.classes[k], ptr) is Some) by {
        if s.used == c.total_slot {
            assert(is_first_on_page(c1.full, page, 0));
        } else {
            assert(is_first_on_page(c1.partial, page, 0));
        }
    }
    lemma_only_class_on_page(h1, ptr, k);
    assert(crate::mm::slab::with_slot_back(s, ptr).used == 0);
    if s.used == c.total_slot {
        assert(c1.partial.len() == 0);
        assert(first_on_page(c1.partial, page) == -1);
        assert(is_first_on_page(c1.full, page, 0));
        let fi = choose|i: int| #[trigger] is_first_on_page(c1.full, page, i);
        assert(fi == 0);
        assert(c1.full.remove(0) =~= c.full);
        assert(c.partial =~= c1.partial);
    } else {
        assert(is_first_on_page(c1.partial, page, 0));
        let pi = choose|i: int| #[trigger] is_first_on_page(c1.partial, page, i);
        assert(pi == 0);
        assert(c1.partial.remove(0) =~= c.partial);
    }
    let c2 = slab_free_spec(c1, a1, hhdm, ptr).0;
    assert(c2 == c);
    assert(with_class(h1, k, c).classes =~= h.classes);
    assert(with_class(h1, k, c) == h);
}

/// `kfree` undoes `kmalloc` for a large allocation: the heap is back as it was
/// and the page goes back to the physical allocator.
proof fn lemma_kfree_undoes_kmalloc_large(h: HeapView, a: PhysMemView, hhdm: u64, size: usize)
    requires
        heap_ready(h, a, hhdm),
        heap_pages_used(h, a, hhdm),
        2048 < size,
        alloc_page_spec(a).1 is Some,
    ensures
        ({
            let (h1, a1, r) = kmalloc_spec(h, a, hhdm, size);
            let pa = alloc_page_spec(a).1.unwrap().0;
            &&& r is Some
            &&& r.unwrap() != 0
            &&& kfree_spec(h1, a1, hhdm, r.unwrap()) == (h, free_page_spec(alloc_page_spec(a).0, pa))
        }),
{
    lemma_fresh_page_unused(h, a, hhdm);
    let (a1, ra) = alloc_page_spec(a);
    let pa = ra.unwrap().0;
    let page = (pa + hhdm) as u64;
    let (h1, a2, r) = kmalloc_spec(h, a, hhdm, size);
    let ptr = r.unwrap();
    assert(ptr == page + LARGE_HEADER_SIZE);
    crate::mm::slab::lemma_page_of_within(page, ptr);
    assert(h1.classes == h.classes);
    assert forall|j: int| 0 <= j < 9 implies slab_of(#[trigger] h1.classes[j], ptr) is None by {
        lemma_no_slab_on_page(h.classes[j], ptr);
    }
    assert(slab_class_of(h1, ptr) == -1);
    assert forall|j: int| 0 <= j < h.large.len() implies (#[trigger] h1.large[j]).page != page by {
        assert(h1.large[j] == h.large[j]);
    }
    lemma_large_on_page(h1.large, page, h.large.len() as int);
    assert(h1.large.remove(h.large.len() as int) =~= h.large);
    let h2 = kfree_spec(h1, a2, hhdm, ptr).0;
    assert(h2.large =~= h.large);
    assert(h2 == h);
}

/// `kfree` undoes `kmalloc`, for every size `kmalloc` takes, on a heap
/// consistent with the physical allocator: the heap is back as it was;
/// the physical allocator's bitmap and counters are too, and so is the whole
/// allocator when the heap took no page or took the page at the head of a free
/// list that had it free. A request served by a slab with a free slot is
/// always served. The one exception is a slot at address zero, which `kfree`
/// takes for the null pointer.
pub proof fn lemma_kfree_undoes_kmalloc(h: HeapView, a: PhysMemView, hhdm: u64, size: usize)
    requires
        heap_ready(h, a, hhdm),
        heap_consistent(h, a, hhdm),
        size <= 4096 - LARGE_HEADER_SIZE,
    ensures
        ({
            let (h1, a1, r) = kmalloc_spec(h, a, hhdm, size);
            let m = if size < 16 { 16 } else { size as int };
            let served_by_slab = 0 < size && m <= 2048 && h.classes[class_for(m)].partial.len() > 0;
            &&& served_by_slab ==> r is Some
            &&& r is Some && (size == 0 || r.unwrap() != 0) ==> {
                let (h2, a2) = kfree_spec(h1, a1, hhdm, r.unwrap());
                &&& h2 == h
                &&& a2.bits == a.bits
                &&& a2.total_pages == a.total_pages
                &&& a2.free_pages == a.free_pages
                &&& a2.used_pages == a.used_pages
                &&& (served_by_slab || (a.list matches Some(l) && l.len() > 0 && !a.bits.unwrap()[l[0] as int / 4096])) ==> a2 == a
            }
        }),
{
    let (h1, a1, r) = kmalloc_spec(h, a, hhdm, size);
    let m = if size < 16 { 16 } else { size as int };
    if size > 0 {
        if m <= 2048 {
            let k = class_for(m);
            let w = size_to_class_spec_witness(m);
            lemma_class_for(m, w);
            if h.classes[k].partial.len() > 0 {
                lemma_kfree_undoes_kmalloc_partial(h, a, hhdm, size, k);
            } else if alloc_page_spec(a).1 is Some {
                lemma_kfree_undoes_kmalloc_refill(h, a, hhdm, size, k);
                crate::mm::physical::lemma_free_undoes_alloc(a);
            }
        } else if alloc_page_spec(a).1 is Some {
            lemma_kfree_undoes_kmalloc_large(h, a, hhdm, size);
            crate::mm::physical::lemma_free_undoes_alloc(a);
        }
    }
}

/// Some class serves each request of at most 2048 bytes.
proof fn size_to_class_spec_witness(m: int) -> (k: int)
    requires
        m <= 2048,
    ensures
        0 <= k <= 8 && m <= class_size(k) && (k == 0 || class_size(k - 1) < m),
{
    reveal_with_fuel(class_size, 9);
    if m <= 8 { 0 } else if m <= 16 { 1 } else if m <= 32 { 2 } else if m <= 64 { 3 } else if m <= 128 { 4 }
    else if m <= 256 { 5 } else if m <= 512 { 6 } else if m <= 1024 { 7 } else { 8 }
}

/// `kmalloc` keeps the heap consistent in itself.
pub proof fn lemma_kmalloc_keeps_wf(h: HeapView, a: PhysMemView, hhdm: u64, size: usize)
    requires
        heap_wf(h),
        next_slab_page_fits(a, hhdm),
    ensures
        heap_wf(kmalloc_spec(h, a, hhdm, size).0),
{
    let (h1, a1, r) = kmalloc_spec(h, a, hhdm, size);
    let m = if size < 16 { 16 } else { size as int };
    if size > 0 {
        if m <= 2048 {
            let k = class_for(m);
            let w = size_to_class_spec_witness(m);
            lemma_class_for(m, w);
            lemma_slab_alloc_keeps_wf(h.classes[k], a, hhdm);
            assert forall|j: int| 0 <= j < 9 implies {
                &&& class_wf(#[trigger] h1.classes[j])
                &&& h1.classes[j].class_size == class_size(j)
                &&& h1.classes[j].total_slot == (4096 - SLAB_HEADER_SIZE) / class_size(j)
            } by {
                if j != k {
                    assert(h1.classes[j] == h.classes[j]);
                }
            }
        } else if alloc_page_spec(a).1 is Some {
            assert forall|i: int| 0 <= i < h1.large.len() implies (#[trigger] h1.large[i]).magic == LARGE_MAGIC && h1.large[i].num_pages == 1 by {
                if i < h.large.len() {
                    assert(h1.large[i] == h.large[i]);
                }
            }
        }
    }
}

/// Slot `x` is free in some slab of `l`.
pub open spec fn slot_in(l: Seq<SlabView>, x: u64) -> bool {
    exists|i: int| 0 <= i < l.len() && (#[trigger] l[i]).free.contains(x)
}

/// Slot `x` is free in some slab of class `c`.
pub open spec fn class_free_slot(c: SlabClassView, x: u64) -> bool {
    slot_in(c.partial, x) || slot_in(c.full, x)
}

/// Slot `x` is free in some slab of the heap.
pub open spec fn is_free_slot(h: HeapView, x: u64) -> bool {
    exists|k: int| 0 <= k < h.classes.len() && #[trigger] class_free_slot(h.classes[k], x)
}

/// No slab of the heap lists a free slot twice.
pub open spec fn free_slots_unique(h: HeapView) -> bool {
    forall|k: int, i: int| 0 <= k < h.classes.len() && 0 <= i < h.classes[k].partial.len()
        ==> (#[trigger] h.classes[k].partial[i]).free.no_duplicates()
}

/// A free slot of a consistent class lies on the page of one of its slabs.
proof fn lemma_free_slot_on_page(c: SlabClassView, x: u64)
    requires
        class_wf(c),
        class_free_slot(c, x),
    ensures
        class_has_page(c, page_of(x)),
{
    if slot_in(c.partial, x) {
        let i = choose|i: int| 0 <= i < c.partial.len() && (#[trigger] c.partial[i]).free.contains(x);
        assert(slab_ok(c.partial[i], c));
        let j = choose|j: int| 0 <= j < c.partial[i].free.len() && c.partial[i].free[j] == x;
        assert(page_of(c.partial[i].free[j]) == c.partial[i].page);
        assert(page_in(c.partial, page_of(x)));
    } else {
        let i = choose|i: int| 0 <= i < c.full.len() && (#[trigger] c.full[i]).free.contains(x);
        assert(slab_ok(c.full[i], c));
        let j = choose|j: int| 0 <= j < c.full[i].free.len() && c.full[i].free[j] == x;
        assert(page_of(c.full[i].free[j]) == c.full[i].page);
        assert(page_in(c.full, page_of(x)));
    }
}

/// The block `kmalloc` hands out was free: a free slot of the heap, or on a
/// page that no slab or large allocation of the heap is on.
pub proof fn lemma_kmalloc_block_was_free(h: HeapView, a: PhysMemView, hhdm: u64, size: usize)
    requires
        heap_ready(h, a, hhdm),
        heap_consistent(h, a, hhdm),
        0 < size <= 4096 - LARGE_HEADER_SIZE,
    ensures
        kmalloc_spec(h, a, hhdm, size).2 matches Some(p) ==> is_free_slot(h, p) || !is_heap_page(h, page_of(p)),
{
    let (h1, a1, r) = kmalloc_spec(h, a, hhdm, size);
    let m = if size < 16 { 16 } else { size as int };
    if r is Some {
        let p = r.unwrap();
        if m <= 2048 {
            let k = class_for(m);
            let w = size_to_class_spec_witness(m);
            lemma_class_for(m, w);
            let c = h.classes[k];
            assert(class_wf(c));
            if c.partial.len() > 0 {
                assert(slab_ok(c.partial[0], c));
                assert(c.partial[0].free.contains(p)) by {
                    assert(c.partial[0].free[0] == p);
                }
                assert(slot_in(c.partial, p));
                assert(class_free_slot(h.classes[k], p));
            } else {
                lemma_fresh_page_unused(h, a, hhdm);
                let page = (alloc_page_spec(a).1.unwrap().0 + hhdm) as u64;
                assert(c.class_size * c.total_slot <= 4096) by (nonlinear_arith)
                    requires c.class_size * c.total_slot <= 4096 - SLAB_HEADER_SIZE;
                assert(c.class_size * 1 <= c.class_size * c.total_slot) by (nonlinear_arith)
                    requires c.total_slot >= 1, c.class_size >= 0;
                assert(p == page + 4096 - c.class_size);
                crate::mm::slab::lemma_page_of_within(page, p);
            }
        } else {
            lemma_fresh_page_unused(h, a, hhdm);
            let page = (alloc_page_spec(a).1.unwrap().0 + hhdm) as u64;
            crate::mm::slab::lemma_page_of_within(page, p);
        }
    }
}

/// The block Rust's global allocator hands out for `size` bytes aligned to
/// `align` was free: a free slot of the heap, or on a page that no slab or
/// large allocation of the heap is on, so it overlaps no block in use.
pub proof fn lemma_kernel_alloc_block_was_free(h: HeapView, a: PhysMemView, hhdm: u64, size: usize, align: usize)
    requires
        heap_ready(h, a, hhdm),
        heap_consistent(h, a, hhdm),
        size <= 4096,
        page_alignment(align),
    ensures
        kernel_alloc_spec(h, a, hhdm, size, align).2 matches Some(p) ==> is_free_slot(h, p) || !is_heap_page(h, page_of(p)),
{
    let (h1, a1, r) = kernel_alloc_spec(h, a, hhdm, size, align);
    let m = if size < align { align as int } else { size as int };
    if r is Some {
        let p = r.unwrap();
        if m <= 2048 {
            let k = class_for(m);
            let w = size_to_class_spec_witness(m);
            lemma_class_for(m, w);
            let c = h.classes[k];
            assert(class_wf(c));
            if c.partial.len() > 0 {
                assert(slab_ok(c.partial[0], c));
                assert(c.partial[0].free.contains(p)) by {
                    assert(c.partial[0].free[0] == p);
                }
                assert(slot_in(c.partial, p));
                assert(class_free_slot(h.classes[k], p));
            } else {
                lemma_fresh_page_unused(h, a, hhdm);
                let page = (alloc_page_spec(a).1.unwrap().0 + hhdm) as u64;
                assert(c.class_size * c.total_slot <= 4096) by (nonlinear_arith)
                    requires c.class_size * c.total_slot <= 4096 - SLAB_HEADER_SIZE;
                assert(c.class_size * 1 <= c.class_size * c.total_slot) by (nonlinear_arith)
                    requires c.total_slot >= 1, c.class_size >= 0;
                assert(p == page + 4096 - c.class_size);
                crate::mm::slab::lemma_page_of_within(page, p);
            }
        } else {
            lemma_fresh_page_unused(h, a, hhdm);
            let page = (alloc_page_spec(a).1.unwrap().0 + hhdm) as u64;
            crate::mm::slab::lemma_page_of_within(page, p);
        }
    }
}

/// The block `kmalloc` hands out for some bytes is taken afterwards: it lies
/// on a page of the heap and is no free slot of it.
pub proof fn lemma_kmalloc_block_taken(h: HeapView, a: PhysMemView, hhdm: u64, size: usize)
    requires
        heap_ready(h, a, hhdm),
        heap_consistent(h, a, hhdm),
        free_slots_unique(h),
        0 < size <= 4096 - LARGE_HEADER_SIZE,
    ensures
        kmalloc_spec(h, a, hhdm, size).2 matches Some(p) ==> {
            &&& is_heap_page(kmalloc_spec(h, a, hhdm, size).0, page_of(p))
            &&& !is_free_slot(kmalloc_spec(h, a, hhdm, size).0, p)
        },
{
    let (h1, a1, r) = kmalloc_spec(h, a, hhdm, size);
    let m = if size < 16 { 16 } else { size as int };
    lemma_kmalloc_keeps_wf(h, a, hhdm, size);
    if r is Some {
        let p = r.unwrap();
        if m <= 2048 {
            let k = class_for(m);
            let w = size_to_class_spec_witness(m);
            lemma_class_for(m, w);
            let c = h.classes[k];
            assert(class_wf(c));
            assert(pages_distinct(c));
            let c1 = h1.classes[k];
            lemma_pages_distinct_parts(c);
            // the slab the slot came from, its page, and what is left of its free slots
            let (s, page) = if c.partial.len() > 0 {
                (crate::mm::slab::with_slot_taken(c.partial[0]), c.partial[0].page)
            } else {
                let pg = (alloc_page_spec(a).1.unwrap().0 + hhdm) as u64;
                (crate::mm::slab::with_slot_taken(crate::mm::slab::fresh_slab(pg, c.class_size, c.total_slot)), pg)
            };
            let c0 = if c.partial.len() > 0 { c } else { SlabClassView { partial: seq![crate::mm::slab::fresh_slab(page, c.class_size, c.total_slot)], ..c } };
            assert(c1 == crate::mm::slab::class_after_take(c0));
            assert(c.class_size * c.total_slot <= 4096) by (nonlinear_arith)
                requires c.class_size * c.total_slot <= 4096 - SLAB_HEADER_SIZE;
            if c.partial.len() > 0 {
                assert(slab_ok(c.partial[0], c));
                assert(page_of(p) == page);
                assert(c.partial[0].free.no_duplicates());
                assert(!s.free.contains(p)) by {
                    if s.free.contains(p) {
                        let j = choose|j: int| 0 <= j < s.free.len() && s.free[j] == p;
                        assert(c.partial[0].free[j + 1] == c.partial[0].free[0]);
                    }
                }
                assert(class_has_page(c, page)) by {
                    assert(page_in(c.partial, page));
                }
            } else {
                lemma_fresh_page_unused(h, a, hhdm);
                assert(c.class_size * 1 <= c.class_size * c.total_slot) by (nonlinear_arith)
                    requires c.total_slot >= 1, c.class_size >= 0;
                assert(p == page + 4096 - c.class_size);
                crate::mm::slab::lemma_page_of_within(page, p);
                let f = crate::mm::slab::fresh_slab(page, c.class_size, c.total_slot);
                assert(!s.free.contains(p)) by {
                    if s.free.contains(p) {
                        let j = choose|j: int| 0 <= j < s.free.len() && s.free[j] == p;
                        assert(s.free[j] == f.free[j + 1]);
                        assert(j + 2 <= c.total_slot);
                        assert(c.class_size * (j + 2) <= c.class_size * c.total_slot) by (nonlinear_arith)
                            requires j + 2 <= c.total_slot, c.class_size >= 0;
                        assert(c.class_size * (j + 2) > c.class_size * 1) by (nonlinear_arith)
                            requires j >= 0, c.class_size >= 8;
                        assert(f.free[j + 1] == (page + 4096 - c.class_size * (j + 2)) as u64);
                    }
                }
            }
            // every other slab of class k is on another page
            assert(s.page == page);
            assert(page_in(c1.partial, page) || page_in(c1.full, page)) by {
                if s.used == c.total_slot {
                    assert(c1.full[0] == s);
                } else {
                    assert(c1.partial[0] == s);
                }
            }
            assert(class_has_page(h1.classes[k], page));
            assert(is_heap_page(h1, page_of(p)));
            assert forall|j: int| 0 <= j < h1.classes.len() implies !#[trigger] class_free_slot(h1.classes[j], p) by {
                if j != k {
                    assert(h1.classes[j] == h.classes[j]);
                    if class_free_slot(h.classes[j], p) {
                        lemma_free_slot_on_page(h.classes[j], p);
                        if c.partial.len() > 0 {
                            assert(!class_has_page(h.classes[j], page));
                        }
                    }
                } else {
                    if slot_in(c1.partial, p) {
                        let i = choose|i: int| 0 <= i < c1.partial.len() && (#[trigger] c1.partial[i]).free.contains(p);
                        let t = c1.partial[i];
                        if t != s {
                            assert(slab_ok(t, c1));
                            let jj = choose|jj: int| 0 <= jj < t.free.len() && t.free[jj] == p;
                            assert(page_of(t.free[jj]) == t.page);
                            if s.used == c.total_slot {
                                assert(t == c.partial[i + 1]);
                                assert(c.partial[0].page != c.partial[i + 1].page);
                            } else {
                                assert(i != 0);
                                assert(t == c0.partial[i]);
                                assert(c.partial[0].page != c.partial[i].page);
                            }
                        }
                    }
                    if slot_in(c1.full, p) {
                        let i = choose|i: int| 0 <= i < c1.full.len() && (#[trigger] c1.full[i]).free.contains(p);
                        let t = c1.full[i];
                        if t != s {
                            assert(slab_ok(t, c1));
                            let jj = choose|jj: int| 0 <= jj < t.free.len() && t.free[jj] == p;
                            assert(page_of(t.free[jj]) == t.page);
                            if s.used == c.total_slot {
                                assert(i > 0);
                                assert(t == c.full[i - 1]);
                            } else {
                                assert(t == c.full[i]);
                            }
                            assert(page_in(c.full, t.page));
                            if c.partial.len() > 0 {
                                assert(!page_in(c.full, c.partial[0].page));
                            } else {
                                assert(!class_has_page(h.classes[k], page));
                            }
                        }
                    }
                }
            }
        } else {
            lemma_fresh_page_unused(h, a, hhdm);
            let page = (alloc_page_spec(a).1.unwrap().0 + hhdm) as u64;
            crate::mm::slab::lemma_page_of_within(page, p);
            assert(h1.large[h.large.len() as int].page == page);
            assert(is_heap_page(h1, page_of(p)));
            assert forall|j: int| 0 <= j < h1.classes.len() implies !#[trigger] class_free_slot(h1.classes[j], p) by {
                assert(h1.classes[j] == h.classes[j]);
                if class_free_slot(h.classes[j], p) {
                    lemma_free_slot_on_page(h.classes[j], p);
                }
            }
        }
    }
}

/// Two `kmalloc` calls in a row, each for some bytes, hand out different
/// blocks (when both succeed), on a heap consistent with the physical
/// allocator whose slabs list no free slot twice.
pub proof fn lemma_kmalloc_twice_distinct(h: HeapView, a: PhysMemView, hhdm: u64, size1: usize, size2: usize)
    requires
        heap_ready(h, a, hhdm),
        heap_consistent(h, a, hhdm),
        free_slots_unique(h),
        0 < size1 <= 4096 - LARGE_HEADER_SIZE,
        0 < size2 <= 4096 - LARGE_HEADER_SIZE,
        next_slab_page_fits(kmalloc_spec(h, a, hhdm, size1).1, hhdm),
    ensures
        ({
            let (h1, a1, r1) = kmalloc_spec(h, a, hhdm, size1);
            let r2 = kmalloc_spec(h1, a1, hhdm, size2).2;
            r1 is Some && r2 is Some ==> r1.unwrap() != r2.unwrap()
        }),
{
    let (h1, a1, r1) = kmalloc_spec(h, a, hhdm, size1);
    lemma_kmalloc_block_taken(h, a, hhdm, size1);
    lemma_kmalloc_keeps_wf(h, a, hhdm, size1);
    lemma_kmalloc_keeps_consistent(h, a, hhdm, size1);
    crate::mm::physical::lemma_alloc_preserves_wf(a);
    assert(phys_wf(a1));
    lemma_kmalloc_block_was_free(h1, a1, hhdm, size2);
}

/// The free slots of a new slab are all different.
proof fn lemma_fresh_slots_unique(page: u64, class: usize, total_slot: usize)
    requires
        page + 4096 <= u64::MAX,
        class >= 8,
        class * total_slot <= 4096,
    ensures
        crate::mm::slab::fresh_slab(page, class, total_slot).free.no_duplicates(),
{
    let f = crate::mm::slab::fresh_slab(page, class, total_slot).free;
    assert forall|i: int, j: int| 0 <= i < f.len() && 0 <= j < f.len() && i != j implies f[i] != f[j] by {
        assert(class * (i + 1) <= class * total_slot) by (nonlinear_arith)
            requires i + 1 <= total_slot, class >= 0;
        assert(class * (j + 1) <= class * total_slot) by (nonlinear_arith)
            requires j + 1 <= total_slot, class >= 0;
        assert(class * (i + 1) != class * (j + 1)) by (nonlinear_arith)
            requires i != j, class >= 8;
    }
}

/// `kmalloc` keeps every slab's free slots different.
pub proof fn lemma_kmalloc_keeps_slots_unique(h: HeapView, a: PhysMemView, hhdm: u64, size: usize)
    requires
        heap_wf(h),
        next_slab_page_fits(a, hhdm),
        free_slots_unique(h),
    ensures
        free_slots_unique(kmalloc_spec(h, a, hhdm, size).0),
{
    let (h1, a1, r) = kmalloc_spec(h, a, hhdm, size);
    let m = if size < 16 { 16 } else { size as int };
    if size > 0 && m <= 2048 {
        let k = class_for(m);
        let w = size_to_class_spec_witness(m);
        lemma_class_for(m, w);
        let c = h.classes[k];
        assert(class_wf(c));
        let c1 = h1.classes[k];
        if c.partial.len() > 0 || alloc_page_spec(a).1 is Some {
            let c0 = if c.partial.len() > 0 {
                c
            } else {
                let page = (alloc_page_spec(a).1.unwrap().0 + hhdm) as u64;
                SlabClassView { partial: seq![crate::mm::slab::fresh_slab(page, c.class_size, c.total_slot)], ..c }
            };
            assert(c1 == crate::mm::slab::class_after_take(c0));
            assert(c0.partial[0].free.no_duplicates()) by {
                if c.partial.len() == 0 {
                    assert(c.class_size * c.total_slot <= 4096) by (nonlinear_arith)
                        requires c.class_size * c.total_slot <= 4096 - SLAB_HEADER_SIZE;
                    lemma_fresh_slots_unique((alloc_page_spec(a).1.unwrap().0 + hhdm) as u64, c.class_size, c.total_slot);
                }
            }
            let s = crate::mm::slab::with_slot_taken(c0.partial[0]);
            assert(s.free.no_duplicates()) by {
                assert forall|i: int, j: int| 0 <= i < s.free.len() && 0 <= j < s.free.len() && i != j implies s.free[i] != s.free[j] by {
                    assert(s.free[i] == c0.partial[0].free[i + 1]);
                    assert(s.free[j] == c0.partial[0].free[j + 1]);
                }
            }
            assert forall|kk: int, i: int| 0 <= kk < h1.classes.len() && 0 <= i < h1.classes[kk].partial.len()
                implies (#[trigger] h1.classes[kk].partial[i]).free.no_duplicates() by {
                if kk != k {
                    assert(h1.classes[kk] == h.classes[kk]);
                } else if s.used == c.total_slot {
                    assert(c1.partial[i] == c0.partial[i + 1]);
                    assert(c0.partial[i + 1] == c.partial[i + 1]);
                } else if i > 0 {
                    assert(c1.partial[i] == c0.partial[i]);
                    assert(c0.partial[i] == c.partial[i]);
                }
            }
        } else {
            assert(h1.classes =~= h.classes);
        }
    }
}

/// `kfree` keeps every slab's free slots different, unless the slot it gives
/// back is free already.
pub proof fn lemma_kfree_keeps_slots_unique(h: HeapView, a: PhysMemView, hhdm: u64, ptr: u64)
    requires
        heap_wf(h),
        can_kfree(h, a, hhdm, ptr),
        free_slots_unique(h),
        !is_free_slot(h, ptr),
    ensures
        free_slots_unique(kfree_spec(h, a, hhdm, ptr).0),
{
    if ptr != 0 {
        let k = slab_class_of(h, ptr);
        if k >= 0 {
            let c = h.classes[k];
            assert(class_wf(c));
            let (c1, a1) = slab_free_spec(c, a, hhdm, ptr);
            let h1 = kfree_spec(h, a, hhdm, ptr).0;
            assert(h1 == with_class(h, k, c1));
            let page = page_of(ptr);
            let pi = first_on_page(c.partial, page);
            let fi = first_on_page(c.full, page);
            assert(!class_free_slot(h.classes[k], ptr));
            let sl = if pi >= 0 { c.partial[pi] } else { c.full[fi] };
            if pi >= 0 {
                let w = choose|i: int| #[trigger] is_first_on_page(c.partial, page, i);
                assert(is_first_on_page(c.partial, page, pi));
                assert(!sl.free.contains(ptr)) by {
                    if sl.free.contains(ptr) {
                        assert(slot_in(c.partial, ptr));
                    }
                }
            } else {
                let w = choose|i: int| #[trigger] is_first_on_page(c.full, page, i);
                assert(is_first_on_page(c.full, page, fi));
                assert(slab_ok(sl, c));
                assert(sl.free.len() == 0);
            }
            let back = crate::mm::slab::with_slot_back(sl, ptr);
            assert(back.free.no_duplicates()) by {
                assert forall|i: int, j: int| 0 <= i < back.free.len() && 0 <= j < back.free.len() && i != j implies back.free[i] != back.free[j] by {
                    if i > 0 {
                        assert(back.free[i] == sl.free[i - 1]);
                    }
                    if j > 0 {
                        assert(back.free[j] == sl.free[j - 1]);
                    }
                    if i == 0 && j > 0 {
                        assert(sl.free.contains(sl.free[j - 1]));
                    }
                    if j == 0 && i > 0 {
                        assert(sl.free.contains(sl.free[i - 1]));
                    }
                }
            }
            assert forall|kk: int, i: int| 0 <= kk < h1.classes.len() && 0 <= i < h1.classes[kk].partial.len()
                implies (#[trigger] h1.classes[kk].partial[i]).free.no_duplicates() by {
                if kk != k {
                    assert(h1.classes[kk] == h.classes[kk]);
                } else if pi >= 0 {
                    if back.used == 0 {
                        assert(c1.partial[i] == c.partial[if i < pi { i } else { i + 1 }]);
                    } else if i != pi {
                        assert(c1.partial[i] == c.partial[i]);
                    }
                } else if back.used != 0 && i > 0 {
                    assert(c1.partial[i] == c.partial[i - 1]);
                }
            }
        }
    }
}

/// Every free slot of every class sits at a slot position of its slab.
pub open spec fn heap_slots_placed(h: HeapView) -> bool {
    forall|k: int| 0 <= k < h.classes.len() ==> slots_placed(#[trigger] h.classes[k])
}

/// The page-aligned page at `page` holds, whole, the block of `size` bytes
/// at `p`.
pub open spec fn page_holds(page: u64, p: u64, size: int) -> bool {
    page % 4096 == 0 && page <= p && p + size <= page + 4096
}

/// The block of `size` bytes at `p` lies, whole, in one page.
pub open spec fn block_in_page(p: u64, size: int) -> bool {
    exists|page: u64| #[trigger] page_holds(page, p, size)
}

/// An alignment a `Layout` can have, up to a page: a power of two.
pub open spec fn page_alignment(align: usize) -> bool {
    align == 1 || align == 2 || align == 4 || align == 8 || align == 16 || align == 32 || align == 64
        || align == 128 || align == 256 || align == 512 || align == 1024 || align == 2048 || align == 4096
}

/// The slot size of each class divides the page size, and every alignment
/// up to it.
proof fn lemma_class_size_divides(k: int, align: usize)
    requires
        0 <= k < 9,
    ensures
        4096int % class_size(k) == 0,
        class_size(k) >= 8,
        page_alignment(align) && align <= class_size(k) ==> class_size(k) % (align as int) == 0,
        k >= 1 ==> class_size(k) % 16 == 0,
{
    reveal_with_fuel(class_size, 9);
    let c = class_size(k);
    if k == 0 { assert(c == 8); }
    else if k == 1 { assert(c == 16); }
    else if k == 2 { assert(c == 32); }
    else if k == 3 { assert(c == 64); }
    else if k == 4 { assert(c == 128); }
    else if k == 5 { assert(c == 256); }
    else if k == 6 { assert(c == 512); }
    else if k == 7 { assert(c == 1024); }
    else { assert(c == 2048); }
    let d = align as int;
    assert(4096int % c == 0 && (c >= 16 ==> c % 16 == 0)) by (nonlinear_arith)
        requires c == 8 || c == 16 || c == 32 || c == 64 || c == 128 || c == 256 || c == 512 || c == 1024 || c == 2048;
    assert(page_alignment(align) && d <= c ==> c % d == 0) by (nonlinear_arith)
        requires
            c == 8 || c == 16 || c == 32 || c == 64 || c == 128 || c == 256 || c == 512 || c == 1024 || c == 2048,
            page_alignment(align) ==> (d == 1 || d == 2 || d == 4 || d == 8 || d == 16 || d == 32 || d == 64
                || d == 128 || d == 256 || d == 512 || d == 1024 || d == 2048 || d == 4096);
}

/// A multiple of `c` is a multiple of every divisor `d` of `c`.
proof fn lemma_mod_divisor(p: int, c: int, d: int)
    requires
        p >= 0,
        c > 0,
        d > 0,
        p % c == 0,
        c % d == 0,
    ensures
        p % d == 0,
{
    vstd::arithmetic::div_mod::lemma_fundamental_div_mod(p, c);
    vstd::arithmetic::div_mod::lemma_fundamental_div_mod(c, d);
    let q = p / c;
    let r = c / d;
    assert(p == d * (r * q)) by (nonlinear_arith)
        requires p == c * q, c == d * r;
    vstd::arithmetic::div_mod::lemma_mod_multiples_basic(r * q, d);
    vstd::arithmetic::mul::lemma_mul_is_commutative(d, r * q);
}

/// Taking a slot from class `k` keeps the heap's free slots at slot
/// positions, and hands out a slot aligned to the class's slot size that lies,
/// whole, in one page.
proof fn lemma_heap_slot_alloc_placed(h: HeapView, a: PhysMemView, hhdm: u64, k: int)
    requires
        heap_ready(h, a, hhdm),
        heap_slots_placed(h),
        0 <= k < 9,
    ensures
        ({
            let (c1, a1, r) = slab_alloc_spec(h.classes[k], a, hhdm);
            &&& heap_slots_placed(with_class(h, k, c1))
            &&& r matches Some(p) ==> {
                &&& (p as int) % class_size(k) == 0
                &&& block_in_page(p, class_size(k))
            }
        }),
{
    let c = h.classes[k];
    assert(class_wf(c));
    lemma_class_size_divides(k, 1);
    lemma_slab_alloc_keeps_placed(c, a, hhdm);
    let (c1, a1, r) = slab_alloc_spec(c, a, hhdm);
    let h1 = with_class(h, k, c1);
    assert forall|j: int| 0 <= j < h1.classes.len() implies slots_placed(#[trigger] h1.classes[j]) by {
        if j != k {
            assert(h1.classes[j] == h.classes[j]);
        }
    }
    if r is Some {
        let p = r.unwrap();
        assert(slot_placed(c.class_size, p));
        let page = choose|page: u64| page % 4096 == 0 && #[trigger] slot_in_page(page, c.class_size, p);
        assert(page_holds(page, p, class_size(k)));
    }
}

/// The block `kmalloc` hands out for some bytes is aligned to 16 bytes and
/// lies, whole, in one page; `kmalloc` keeps the free slots at slot
/// positions.
pub proof fn lemma_kmalloc_block_placed(h: HeapView, a: PhysMemView, hhdm: u64, size: usize)
    requires
        heap_ready(h, a, hhdm),
        heap_slots_placed(h),
        0 < size <= 4096 - LARGE_HEADER_SIZE,
    ensures
        heap_slots_placed(kmalloc_spec(h, a, hhdm, size).0),
        kmalloc_spec(h, a, hhdm, size).2 matches Some(p) ==> (p as int) % 16 == 0 && block_in_page(p, size as int),
        ({
            let m = if size < 16 { 16 } else { size as int };
            m <= 2048 && kmalloc_spec(h, a, hhdm, size).2 is Some ==> {
                let p = kmalloc_spec(h, a, hhdm, size).2.unwrap();
                &&& size <= class_size(class_for(m))
                &&& (p as int) % class_size(class_for(m)) == 0
                &&& block_in_page(p, class_size(class_for(m)))
            }
        }),
{
    let (h1, a1, r) = kmalloc_spec(h, a, hhdm, size);
    let m = if size < 16 { 16 } else { size as int };
    if m <= 2048 {
        let k = class_for(m);
        let w = size_to_class_spec_witness(m);
        lemma_class_for(m, w);
        lemma_heap_slot_alloc_placed(h, a, hhdm, k);
        lemma_class_size_divides(k, 16);
        if r is Some {
            let p = r.unwrap();
            if k == 0 {
                assert(class_size(0) == 8);
            }
            lemma_mod_divisor(p as int, class_size(k), 16);
            let page = choose|page: u64| #[trigger] page_holds(page, p, class_size(k));
            assert(page_holds(page, p, size as int));
            assert(block_in_page(p, class_size(k)));
        }
    } else if r is Some {
        let page = (alloc_page_spec(a).1.unwrap().0 + hhdm) as u64;
        let p = r.unwrap();
        assert(p == page + 32);
        lemma_mod_divisor(page as int, 4096, 16);
        assert(page_holds(page, p, size as int));
    }
}

/// The block Rust's global allocator hands out for `size` bytes aligned to a
/// power of two `align` (both at most a page) is aligned to `align` and
/// lies, whole, in one page; the free slots stay at slot positions.
pub proof fn lemma_kernel_alloc_block_placed(h: HeapView, a: PhysMemView, hhdm: u64, size: usize, align: usize)
    requires
        heap_ready(h, a, hhdm),
        heap_slots_placed(h),
        size <= 4096,
        page_alignment(align),
    ensures
        heap_slots_placed(kernel_alloc_spec(h, a, hhdm, size, align).0),
        kernel_alloc_spec(h, a, hhdm, size, align).2 matches Some(p) ==> (p as int) % (align as int) == 0 && block_in_page(p, size as int),
{
    let (h1, a1, r) = kernel_alloc_spec(h, a, hhdm, size, align);
    let m = if size < align { align as int } else { size as int };
    if m <= 2048 {
        let k = class_for(m);
        let w = size_to_class_spec_witness(m);
        lemma_class_for(m, w);
        lemma_heap_slot_alloc_placed(h, a, hhdm, k);
        lemma_class_size_divides(k, align);
        if r is Some {
            let p = r.unwrap();
            lemma_mod_divisor(p as int, class_size(k), align as int);
            let page = choose|page: u64| #[trigger] page_holds(page, p, class_size(k));
            assert(page_holds(page, p, size as int));
        }
    } else if r is Some {
        let page = (alloc_page_spec(a).1.unwrap().0 + hhdm) as u64;
        let p = r.unwrap();
        assert(p == page);
        assert(4096int % (align as int) == 0);
        lemma_mod_divisor(page as int, 4096, align as int);
        assert(page_holds(page, p, size as int));
    }
}

/// A page-aligned address at or below `x`, within 4096 bytes of it, holds
/// a slot of `c` bytes at `x` that is aligned to `c`, for `c` dividing the
/// page size.
proof fn lemma_slot_fits(x: int, page: int, c: int)
    requires
        c > 0,
        4096int % c == 0,
        x % c == 0,
        page >= 0,
        page % 4096 == 0,
        page <= x < page + 4096,
    ensures
        x + c <= page + 4096,
{
    lemma_mod_divisor(page, 4096, c);
    vstd::arithmetic::div_mod::lemma_fundamental_div_mod(x, c);
    vstd::arithmetic::div_mod::lemma_fundamental_div_mod(page, c);
    vstd::arithmetic::div_mod::lemma_fundamental_div_mod(4096int, c);
    let q = x / c;
    let q0 = page / c;
    let b = 4096int / c;
    assert(c * (q0 + b) == c * q0 + c * b) by (nonlinear_arith);
    assert(c * (q + 1) == c * q + c) by (nonlinear_arith);
    assert(q < q0 + b) by (nonlinear_arith)
        requires c * q < c * (q0 + b), c > 0;
    assert(c * (q + 1) <= c * (q0 + b)) by (nonlinear_arith)
        requires q + 1 <= q0 + b, c > 0;
}

/// `kfree` keeps the free slots at slot positions when the slot it gives
/// back is aligned to its slab's slot size.
pub proof fn lemma_kfree_keeps_placed(h: HeapView, a: PhysMemView, hhdm: u64, ptr: u64)
    requires
        heap_wf(h),
        can_kfree(h, a, hhdm, ptr),
        heap_slots_placed(h),
        slab_class_of(h, ptr) >= 0 ==> (ptr as int) % class_size(slab_class_of(h, ptr)) == 0,
    ensures
        heap_slots_placed(kfree_spec(h, a, hhdm, ptr).0),
{
    if ptr != 0 {
        let k = slab_class_of(h, ptr);
        if k >= 0 {
            let c = h.classes[k];
            assert(class_wf(c));
            assert(slots_placed(c));
            let (c1, a1) = slab_free_spec(c, a, hhdm, ptr);
            let h1 = kfree_spec(h, a, hhdm, ptr).0;
            assert(h1 == with_class(h, k, c1));
            let page = page_of(ptr);
            let pi = first_on_page(c.partial, page);
            let fi = first_on_page(c.full, page);
            let sl = if pi >= 0 { c.partial[pi] } else { c.full[fi] };
            if pi >= 0 {
                let w = choose|i: int| #[trigger] is_first_on_page(c.partial, page, i);
                assert(is_first_on_page(c.partial, page, pi));
            } else {
                let w = choose|i: int| #[trigger] is_first_on_page(c.full, page, i);
                assert(is_first_on_page(c.full, page, fi));
            }
            assert(sl.page == page);
            crate::mm::slab::lemma_page_of_bounds(ptr);
            lemma_class_size_divides(k, 1);
            lemma_slot_fits(ptr as int, page as int, class_size(k));
            assert(slot_in_page(sl.page, c.class_size, ptr));
            let back = crate::mm::slab::with_slot_back(sl, ptr);
            assert forall|j: int| 0 <= j < back.free.len() implies slot_in_page(back.page, c.class_size, #[trigger] back.free[j]) by {
                if j > 0 {
                    assert(back.free[j] == sl.free[j - 1]);
                    if pi >= 0 {
                        assert(slot_in_page(c.partial[pi].page, c.class_size, c.partial[pi].free[j - 1]));
                    } else {
                        assert(slab_ok(sl, c));
                        assert(sl.free.len() == 0);
                    }
                }
            }
            assert forall|i: int, j: int| 0 <= i < c1.partial.len() && 0 <= j < c1.partial[i].free.len()
                implies slot_in_page(c1.partial[i].page, c1.class_size, #[trigger] c1.partial[i].free[j]) by {
                if pi >= 0 {
                    if back.used == 0 {
                        let i2 = if i < pi { i } else { i + 1 };
                        assert(c1.partial[i] == c.partial[i2]);
                    } else if i != pi {
                        assert(c1.partial[i] == c.partial[i]);
                    } else {
                        assert(c1.partial[i] == back);
                    }
                } else if back.used != 0 {
                    if i > 0 {
                        assert(c1.partial[i] == c.partial[i - 1]);
                    } else {
                        assert(c1.partial[0] == back);
                    }
                } else {
                    assert(c1.partial[i] == c.partial[i]);
                }
            }
            assert forall|kk: int| 0 <= kk < h1.classes.len() implies slots_placed(#[trigger] h1.classes[kk]) by {
                if kk != k {
                    assert(h1.classes[kk] == h.classes[kk]);
                }
            }
        }
    }
}

/// Giving back the slot just taken from a new slab restores the class and
/// hands the slab's page back to the physical allocator.
proof fn lemma_slab_free_undoes_refill(c: SlabClassView, a: PhysMemView, hhdm: u64)
    requires
        class_wf(c),
        c.partial.len() == 0,
        alloc_page_spec(a).1 is Some,
        next_slab_page_fits(a, hhdm),
    ensures
        ({
            let (c1, a1, r) = slab_alloc_spec(c, a, hhdm);
            let pa = alloc_page_spec(a).1.unwrap().0;
            &&& r is Some
            &&& slab_free_spec(c1, a1, hhdm, r.unwrap()) == (c, free_page_spec(alloc_page_spec(a).0, pa))
        }),
{
    let pa = alloc_page_spec(a).1.unwrap().0;
    let page = (pa + hhdm) as u64;
    let f = crate::mm::slab::fresh_slab(page, c.class_size, c.total_slot);
    let c0 = SlabClassView { partial: seq![f], ..c };
    let (c1, a1, r) = slab_alloc_spec(c, a, hhdm);
    assert(c1 == crate::mm::slab::class_after_take(c0));
    let ptr = r.unwrap();
    assert(c.class_size * c.total_slot <= 4096) by (nonlinear_arith)
        requires c.class_size * c.total_slot <= 4096 - SLAB_HEADER_SIZE;
    assert(c.class_size * 1 <= c.class_size * c.total_slot) by (nonlinear_arith)
        requires c.total_slot >= 1, c.class_size >= 0;
    assert(ptr == page + 4096 - c.class_size);
    crate::mm::slab::lemma_page_of_within(page, ptr);
    let s = crate::mm::slab::with_slot_taken(f);
    assert(crate::mm::slab::with_slot_back(s, ptr).used == 0);
    if s.used == c.total_slot {
        assert(first_on_page(c1.partial, page) == -1);
        assert(is_first_on_page(c1.full, page, 0));
        let fi = choose|i: int| #[trigger] is_first_on_page(c1.full, page, i);
        assert(fi == 0);
        assert(c1.full.remove(0) =~= c.full);
        assert(c.partial =~= c1.partial);
    } else {
        assert(is_first_on_page(c1.partial, page, 0));
        let pi = choose|i: int| #[trigger] is_first_on_page(c1.partial, page, i);
        assert(pi == 0);
        assert(c1.partial.remove(0) =~= c.partial);
    }
    assert(slab_free_spec(c1, a1, hhdm, ptr).0 == c);
}

/// The block `kmalloc` hands out for some bytes can hold them: it is a block
/// of the heap afterwards, and its slab's slot size, or its large
/// allocation's recorded size, is at least the size asked for (exactly that
/// size for a large allocation).
pub proof fn lemma_kmalloc_block_holds(h: HeapView, a: PhysMemView, hhdm: u64, size: usize)
    requires
        heap_ready(h, a, hhdm),
        heap_consistent(h, a, hhdm),
        0 < size <= 4096 - LARGE_HEADER_SIZE,
    ensures
        ({
            let (h1, a1, r) = kmalloc_spec(h, a, hhdm, size);
            r matches Some(p) ==> {
                &&& is_heap_block(h1, p)
                &&& old_size_of(h1, p) >= size
                &&& slab_class_of(h1, p) < 0 ==> old_size_of(h1, p) == size
            }
        }),
{
    let (h1, a1, r) = kmalloc_spec(h, a, hhdm, size);
    let m = if size < 16 { 16 } else { size as int };
    if r is Some {
        let p = r.unwrap();
        let page = page_of(p);
        if m <= 2048 {
            let k = class_for(m);
            let w = size_to_class_spec_witness(m);
            lemma_class_for(m, w);
            let c = h.classes[k];
            assert(class_wf(c));
            crate::mm::slab::lemma_slab_alloc_slot_on_slab(c, a, hhdm);
            crate::mm::slab::lemma_slab_alloc_keeps_wf(c, a, hhdm);
            let c1 = slab_alloc_spec(c, a, hhdm).0;
            assert(h1.classes[k] == c1);
            if c.partial.len() > 0 {
                assert(c.partial[0].page == page);
                assert(class_has_page(c, page));
                assert forall|j: int| 0 <= j < k implies !#[trigger] class_has_page(h1.classes[j], page_of(p)) by {
                    assert(h1.classes[j] == h.classes[j]);
                }
            } else {
                lemma_fresh_page_unused(h, a, hhdm);
                assert forall|j: int| 0 <= j < k implies !#[trigger] class_has_page(h1.classes[j], page_of(p)) by {
                    assert(h1.classes[j] == h.classes[j]);
                }
            }
            lemma_only_class_on_page(h1, p, k);
            crate::mm::slab::lemma_slab_of_class(c1, p);
            assert(c.class_size == class_size(k));
        } else {
            let pa = alloc_page_spec(a).1.unwrap();
            let pg = (pa.0 + hhdm) as u64;
            crate::mm::physical::lemma_alloc_takes_free_page(a);
            lemma_fresh_page_unused(h, a, hhdm);
            assert(p == pg + LARGE_HEADER_SIZE);
            crate::mm::slab::lemma_page_of_within(pg, p);
            assert(page == pg);
            assert forall|j: int| 0 <= j < 9 implies slab_of(#[trigger] h1.classes[j], p) is None by {
                assert(h1.classes[j] == h.classes[j]);
                lemma_no_slab_on_page(h1.classes[j], p);
            }
            assert(slab_class_of(h1, p) == -1);
            assert forall|j: int| 0 <= j < h.large.len() implies (#[trigger] h1.large[j]).page != pg by {
                assert(h1.large[j] == h.large[j]);
                assert(page_in_use(a, hhdm, h.large[j].page));
            }
            lemma_large_on_page(h1.large, pg, h.large.len() as int);
        }
    }
}

/// When `krealloc` moves a block, the new block can hold the new size (it is
/// a block of the heap whose slot size, or recorded large size, is at least
/// `new_size`), the old block was smaller than that, and the bytes to copy
/// are the old block's size. A block handed out for a null pointer holds the
/// size asked for too.
pub proof fn lemma_krealloc_block_holds(h: HeapView, a: PhysMemView, hhdm: u64, ptr: u64, new_size: usize)
    requires
        heap_ready(h, a, hhdm),
        heap_consistent(h, a, hhdm),
        can_krealloc(h, a, hhdm, ptr, new_size),
    ensures
        ({
            let (h1, a1, r) = krealloc_spec(h, a, hhdm, ptr, new_size);
            &&& r matches Some(ReallocStep::Moved { new_ptr, copy_len }) ==> {
                &&& is_heap_block(h1, new_ptr)
                &&& old_size_of(h1, new_ptr) >= new_size
                &&& copy_len == old_size_of(h, ptr)
                &&& old_size_of(h, ptr) < new_size
            }
            &&& new_size > 0 ==> (r matches Some(ReallocStep::Allocated(p)) ==> is_heap_block(h1, p) && old_size_of(h1, p) >= new_size)
            &&& r matches Some(ReallocStep::Kept) ==> old_size_of(h, ptr) >= new_size && h1 == h && a1 == a
        }),
{
    if ptr == 0 {
        if new_size > 0 {
            lemma_kmalloc_block_holds(h, a, hhdm, new_size);
        }
    } else if new_size > 0 && old_size_of(h, ptr) < new_size {
        lemma_kmalloc_block_holds(h, a, hhdm, new_size);
    }
}

/// The block Rust's global allocator hands out for `size` bytes aligned to
/// `align` can hold them: up to 2048 bytes it is a slot of the heap whose
/// slot size is at least both `size` and `align`; above, it is a whole page
/// taken from the physical allocator, at the page's start.
pub proof fn lemma_kernel_alloc_block_holds(h: HeapView, a: PhysMemView, hhdm: u64, size: usize, align: usize)
    requires
        heap_ready(h, a, hhdm),
        heap_consistent(h, a, hhdm),
        size <= 4096,
        align <= 4096,
    ensures
        ({
            let (h1, a1, r) = kernel_alloc_spec(h, a, hhdm, size, align);
            let m = if size < align { align as int } else { size as int };
            r matches Some(p) ==> {
                &&& m <= 2048 ==> slab_class_of(h1, p) >= 0 && old_size_of(h1, p) >= size && old_size_of(h1, p) >= align
                &&& m > 2048 ==> p == (alloc_page_spec(a).1.unwrap().0 + hhdm) as u64 && page_of(p) == p
            }
        }),
{
    let (h1, a1, r) = kernel_alloc_spec(h, a, hhdm, size, align);
    let m = if size < align { align as int } else { size as int };
    if r is Some {
        let p = r.unwrap();
        let page = page_of(p);
        if m <= 2048 {
            let k = class_for(m);
            let w = size_to_class_spec_witness(m);
            lemma_class_for(m, w);
            let c = h.classes[k];
            assert(class_wf(c));
            crate::mm::slab::lemma_slab_alloc_slot_on_slab(c, a, hhdm);
            crate::mm::slab::lemma_slab_alloc_keeps_wf(c, a, hhdm);
            let c1 = slab_alloc_spec(c, a, hhdm).0;
            assert(h1.classes[k] == c1);
            if c.partial.len() > 0 {
                assert(c.partial[0].page == page);
                assert(class_has_page(c, page));
                assert forall|j: int| 0 <= j < k implies !#[trigger] class_has_page(h1.classes[j], page_of(p)) by {
                    assert(h1.classes[j] == h.classes[j]);
                }
            } else {
                lemma_fresh_page_unused(h, a, hhdm);
                assert forall|j: int| 0 <= j < k implies !#[trigger] class_has_page(h1.classes[j], page_of(p)) by {
                    assert(h1.classes[j] == h.classes[j]);
                }
            }
            lemma_only_class_on_page(h1, p, k);
            crate::mm::slab::lemma_slab_of_class(c1, p);
        } else {
            let pa = alloc_page_spec(a).1.unwrap();
            let pg = (pa.0 + hhdm) as u64;
            assert(p == pg);
            crate::mm::slab::lemma_page_of_within(pg, p);
        }
    }
}

/// `kfree` can take back what `kmalloc` hands out: on a consistent heap whose
/// physical allocator counts some page used, the block meets `can_kfree`.
pub proof fn lemma_kmalloc_block_freeable(h: HeapView, a: PhysMemView, hhdm: u64, size: usize)
    requires
        heap_ready(h, a, hhdm),
        heap_consistent(h, a, hhdm),
        size <= 4096 - LARGE_HEADER_SIZE,
        a.used_pages > 0,
    ensures
        ({
            let (h1, a1, r) = kmalloc_spec(h, a, hhdm, size);
            r matches Some(p) ==> can_kfree(h1, a1, hhdm, p)
        }),
{
    let (h1, a1, r) = kmalloc_spec(h, a, hhdm, size);
    let m = if size < 16 { 16 } else { size as int };
    if r is Some && size > 0 {
        let p = r.unwrap();
        let page = page_of(p);
        if m <= 2048 {
            let k = class_for(m);
            let w = size_to_class_spec_witness(m);
            lemma_class_for(m, w);
            let c = h.classes[k];
            assert(class_wf(c));
            crate::mm::slab::lemma_slab_alloc_slot_on_slab(c, a, hhdm);
            let c1 = slab_alloc_spec(c, a, hhdm).0;
            assert(h1.classes[k] == c1);
            if c.partial.len() > 0 {
                assert(a1 == a);
                assert(c.partial[0].page == page);
                assert(class_has_page(c, page));
                assert(page_in_use(a, hhdm, page));
                assert forall|j: int| 0 <= j < k implies !#[trigger] class_has_page(h1.classes[j], page_of(p)) by {
                    assert(h1.classes[j] == h.classes[j]);
                }
            } else {
                let pa = alloc_page_spec(a).1.unwrap();
                crate::mm::physical::lemma_alloc_takes_free_page(a);
                lemma_fresh_page_unused(h, a, hhdm);
                assert(page == (pa.0 + hhdm) as u64);
                assert((page - hhdm) as u64 == pa.0);
                assert forall|j: int| 0 <= j < k implies !#[trigger] class_has_page(h1.classes[j], page_of(p)) by {
                    assert(h1.classes[j] == h.classes[j]);
                }
            }
            lemma_only_class_on_page(h1, p, k);
        } else {
            let pa = alloc_page_spec(a).1.unwrap();
            let pg = (pa.0 + hhdm) as u64;
            crate::mm::physical::lemma_alloc_takes_free_page(a);
            lemma_fresh_page_unused(h, a, hhdm);
            assert(p == pg + LARGE_HEADER_SIZE);
            crate::mm::slab::lemma_page_of_within(pg, p);
            assert(page == pg);
            assert forall|j: int| 0 <= j < 9 implies slab_of(#[trigger] h1.classes[j], p) is None by {
                assert(h1.classes[j] == h.classes[j]);
                lemma_no_slab_on_page(h1.classes[j], p);
            }
            assert(slab_class_of(h1, p) == -1);
            assert forall|j: int| 0 <= j < h.large.len() implies (#[trigger] h1.large[j]).page != pg by {
                assert(h1.large[j] == h.large[j]);
                assert(page_in_use(a, hhdm, h.large[j].page));
            }
            lemma_large_on_page(h1.large, pg, h.large.len() as int);
            assert((pg - hhdm) as u64 == pa.0);
        }
    }
}

/// Rust's global allocator can take back what it hands out: on a consistent
/// heap whose physical allocator counts some page used, the block it hands
/// out meets what `kernel_dealloc` needs to give it back.
pub proof fn lemma_kernel_alloc_block_deallocable(h: HeapView, a: PhysMemView, hhdm: u64, size: usize, align: usize)
    requires
        heap_ready(h, a, hhdm),
        heap_consistent(h, a, hhdm),
        size <= 4096,
        align <= 4096,
        a.used_pages > 0,
    ensures
        ({
            let (h1, a1, r) = kernel_alloc_spec(h, a, hhdm, size, align);
            r matches Some(p) ==> kernel_dealloc_ok(h1, a1, hhdm, p, size, align)
        }),
{
    let (h1, a1, r) = kernel_alloc_spec(h, a, hhdm, size, align);
    let m = if size < align { align as int } else { size as int };
    if r is Some {
        let p = r.unwrap();
        if m <= 2048 {
            let k = class_for(m);
            let w = size_to_class_spec_witness(m);
            lemma_class_for(m, w);
            let c = h.classes[k];
            assert(class_wf(c));
            crate::mm::slab::lemma_slab_alloc_slot_on_slab(c, a, hhdm);
            let c1 = slab_alloc_spec(c, a, hhdm).0;
            assert(h1.classes[k] == c1);
            let page = page_of(p);
            if c.partial.len() > 0 {
                assert(a1 == a);
                assert(c.partial[0].page == page);
                assert(class_has_page(c, page));
                assert(page_in_use(a, hhdm, page));
            } else {
                let pa = alloc_page_spec(a).1.unwrap();
                crate::mm::physical::lemma_alloc_takes_free_page(a);
                assert(page == (pa.0 + hhdm) as u64);
                assert((page - hhdm) as u64 == pa.0);
            }
        } else {
            let pa = alloc_page_spec(a).1.unwrap();
            crate::mm::physical::lemma_alloc_takes_free_page(a);
            assert(p == (pa.0 + hhdm) as u64);
            crate::mm::slab::lemma_page_of_within(p, p);
            assert((p - hhdm) as u64 == pa.0);
        }
    }
}

/// Rust's global allocator gives back what it hands out: freeing the block
/// just allocated, with the same size and alignment, leaves the heap as it
/// was, and the physical allocator's bitmap and counters too; the whole
/// allocator when the heap took no page or took the page at the head of a
/// free list that had it free. A request served by a slab with a free slot is
/// always served.
pub proof fn lemma_kernel_dealloc_undoes_kernel_alloc(h: HeapView, a: PhysMemView, hhdm: u64, size: usize, align: usize)
    requires
        heap_ready(h, a, hhdm),
        heap_consistent(h, a, hhdm),
        size <= 4096,
        align <= 4096,
    ensures
        ({
            let (h1, a1, r) = kernel_alloc_spec(h, a, hhdm, size, align);
            let m = if size < align { align as int } else { size as int };
            let served_by_slab = m <= 2048 && h.classes[class_for(m)].partial.len() > 0;
            &&& served_by_slab ==> r is Some
            &&& r is Some ==> {
                let (h2, a2) = kernel_dealloc_spec(h1, a1, hhdm, r.unwrap(), size, align);
                &&& h2 == h
                &&& a2.bits == a.bits
                &&& a2.total_pages == a.total_pages
                &&& a2.free_pages == a.free_pages
                &&& a2.used_pages == a.used_pages
                &&& (served_by_slab || (a.list matches Some(l) && l.len() > 0 && !a.bits.unwrap()[l[0] as int / 4096])) ==> a2 == a
            }
        }),
{
    let (h1, a1, r) = kernel_alloc_spec(h, a, hhdm, size, align);
    let m = if size < align { align as int } else { size as int };
    if m <= 2048 {
        let k = class_for(m);
        let w = size_to_class_spec_witness(m);
        lemma_class_for(m, w);
        let c = h.classes[k];
        assert(class_wf(c));
        assert(pages_distinct(c));
        let c1 = slab_alloc_spec(c, a, hhdm).0;
        if c.partial.len() > 0 {
            lemma_slab_free_undoes_alloc(c, a, hhdm);
        } else if alloc_page_spec(a).1 is Some {
            lemma_slab_free_undoes_refill(c, a, hhdm);
            crate::mm::physical::lemma_free_undoes_alloc(a);
        }
        if r is Some {
            assert(with_class(with_class(h, k, c1), k, c).classes =~= h.classes);
            assert(with_class(with_class(h, k, c1), k, c) == h);
        }
    } else if r is Some {
        let pa = alloc_page_spec(a).1.unwrap().0;
        let page = (pa + hhdm) as u64;
        crate::mm::slab::lemma_page_of_within(page, page);
        crate::mm::physical::lemma_free_undoes_alloc(a);
    }
}

} // verus!
