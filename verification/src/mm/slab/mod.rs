//! The slab heap: nine size classes from 8 to 2048 bytes, each carving pages
//! into equal slots, with a header at the start of each page.
use vstd::prelude::*;
use crate::mm::VirtAddr;
use crate::mm::physical::{PhysMemAllocator, PhysMemView, alloc_page_spec, free_page_spec, phys_wf, can_free};

pub mod ffi;

verus! {

/// Marks a page as a slab.
pub const HEADER_MAGIC: u64 = 0xBADA55_C0DE_BABE;

/// Bytes taken by the header at the start of each slab page: six 8-byte
/// fields.
pub const SLAB_HEADER_SIZE: usize = 48;

/// The slot size of class `k`: 8 bytes doubled `k` times.
pub open spec fn class_size(k: int) -> int
    decreases k,
{
    if k <= 0 {
        8
    } else {
        2 * class_size(k - 1)
    }
}

/// The class for a request of `size` bytes: the smallest whose slots hold
/// it, for sizes up to 2048.
pub fn size_to_class_index(size: usize) -> (r: Option<usize>)
    ensures
        r is None <==> size > 2048,
        r matches Some(k) ==> {
            &&& k <= 8
            &&& size <= class_size(k as int)
            &&& k == 0 || class_size(k - 1) < size
        },
{
    if size > 2048 {
        return None;
    }
    let s: usize = if size < 8 { 8 } else { size };
    let mut k: usize = 0;
    let mut power: usize = 8;
    while power < s
        invariant
            8 <= s <= 2048,
            s == if size < 8 { 8 } else { size },
            k <= 8,
            power == class_size(k as int),
            8 <= power,
            size < 8 ==> k == 0,
            k == 0 || class_size(k - 1) < s,
        decreases 2048 - power,
    {
        proof {
            assert(class_size(0) == 8);
            assert(class_size(1) == 16);
            assert(class_size(2) == 32);
            assert(class_size(3) == 64);
            assert(class_size(4) == 128);
            assert(class_size(5) == 256);
            assert(class_size(6) == 512);
            assert(class_size(7) == 1024);
            reveal_with_fuel(class_size, 9);
        }
        power = power * 2;
        k = k + 1;
    }
    Some(k)
}

/// The address of slot `k` of a slab page at `page` with `class`-byte slots:
/// slots are taken from the end of the page downwards.
pub open spec fn slot_addr(page: u64, class: usize, k: int) -> int {
    page + 4096 - class * (k + 1)
}

/// A slab page header: its address, its free slots (head first), how many
/// slots are in use, its slot size and its magic number.
pub struct SlabHeader {
    page: u64,
    free_list: Vec<u64>,
    used_slots: usize,
    slab_class: usize,
    header_magic: u64,
}

/// What a slab header holds.
pub struct SlabView {
    pub page: u64,
    pub free: Seq<u64>,
    pub used: usize,
    pub class: usize,
    pub magic: u64,
}

impl View for SlabHeader {
    type V = SlabView;

    closed spec fn view(&self) -> SlabView {
        SlabView {
            page: self.page,
            free: self.free_list@,
            used: self.used_slots,
            class: self.slab_class,
            magic: self.header_magic,
        }
    }
}

/// A new slab page at `page`: every slot free, from the top of the page
/// down.
pub open spec fn fresh_slab(page: u64, class: usize, total_slot: usize) -> SlabView {
    SlabView {
        page,
        free: Seq::new(total_slot as nat, |k: int| slot_addr(page, class, k) as u64),
        used: 0,
        class,
        magic: HEADER_MAGIC,
    }
}

impl SlabHeader {
    /// Lays out a slab on the page at `page`: `total_slot` slots of `class`
    /// bytes, threaded from the top of the page down.
    pub fn from_page(page: VirtAddr, class: usize, total_slot: usize) -> (h: SlabHeader)
        requires
            total_slot >= 1,
            class * total_slot <= 4096,
            page.0 + 4096 <= u64::MAX,
        ensures
            h@ == fresh_slab(page.0, class, total_slot),
    {
        assert(class <= 4096) by (nonlinear_arith)
            requires class * total_slot <= 4096, total_slot >= 1;
        let mut free_list: Vec<u64> = Vec::new();
        let mut tail: u64 = page.0 + 0x1000 - class as u64;
        free_list.push(tail);
        let mut k: usize = 1;
        while k < total_slot
            invariant
                1 <= k <= total_slot,
                class * total_slot <= 4096,
                page.0 + 4096 <= u64::MAX,
                tail == slot_addr(page.0, class, k - 1),
                free_list@.len() == k,
                forall|j: int| 0 <= j < k ==> #[trigger] free_list@[j] == slot_addr(page.0, class, j) as u64,
            decreases total_slot - k,
        {
            proof {
                assert(class * (k + 1) <= class * total_slot) by (nonlinear_arith)
                    requires k + 1 <= total_slot;
                assert(class * (k + 1) == class * k + class) by (nonlinear_arith);
            }
            tail = tail - class as u64;
            free_list.push(tail);
            k = k + 1;
        }
        assert(free_list@ =~= fresh_slab(page.0, class, total_slot).free);
        SlabHeader { page: page.0, free_list, used_slots: 0, slab_class: class, header_magic: HEADER_MAGIC }
    }

    /// Takes the first free slot.
    pub fn pop_slot(&mut self) -> (r: Option<u64>)
        requires
            old(self)@.used < usize::MAX,
        ensures
            old(self)@.free.len() == 0 ==> r is None && final(self)@ == old(self)@,
            old(self)@.free.len() > 0 ==> r == Some(old(self)@.free[0]) && final(self)@ == (SlabView {
                free: old(self)@.free.drop_first(),
                used: (old(self)@.used + 1) as usize,
                ..old(self)@
            }),
    {
        if self.free_list.len() == 0 {
            None
        } else {
            let ret: u64 = self.free_list.remove(0);
            self.used_slots = self.used_slots + 1;
            assert(self.free_list@ =~= old(self)@.free.drop_first());
            Some(ret)
        }
    }

    /// Gives a slot back: it becomes the first free slot.
    pub fn push_slot(&mut self, slot: u64)
        requires
            old(self)@.used > 0,
        ensures
            final(self)@ == (SlabView {
                free: seq![slot] + old(self)@.free,
                used: (old(self)@.used - 1) as usize,
                ..old(self)@
            }),
    {
        self.free_list.insert(0, slot);
        self.used_slots = self.used_slots - 1;
        assert(self.free_list@ =~= seq![slot] + old(self)@.free);
    }

    /// The address of the slab page.
    pub fn page(&self) -> (p: u64)
        ensures
            p == self@.page,
    {
        self.page
    }

    /// How many slots are in use.
    pub fn used_slots(&self) -> (n: usize)
        ensures
            n == self@.used,
    {
        self.used_slots
    }

    /// The slot size.
    pub fn slab_class(&self) -> (c: usize)
        ensures
            c == self@.class,
    {
        self.slab_class
    }

    /// The magic number.
    pub fn header_magic(&self) -> (m: u64)
        ensures
            m == self@.magic,
    {
        self.header_magic
    }
}


/// What a size class holds: its full and partial slabs (head first), its
/// slot size and the number of slots per slab.
pub struct SlabClassView {
    pub full: Seq<SlabView>,
    pub partial: Seq<SlabView>,
    pub class_size: usize,
    pub total_slot: usize,
}

/// A slab of a class is consistent: every slot is free or used, at least one
/// is used, and it carries the class's slot size and the magic number.
pub open spec fn slab_ok(s: SlabView, c: SlabClassView) -> bool {
    &&& s.page % 4096 == 0
    &&& forall|j: int| 0 <= j < s.free.len() ==> page_of(#[trigger] s.free[j]) == s.page
    &&& s.free.len() + s.used == c.total_slot
    &&& s.used >= 1
    &&& s.class == c.class_size
    &&& s.magic == HEADER_MAGIC
}

/// A size class is consistent: its slots fit a page after the header, its
/// partial slabs have a free slot, its full slabs have none.
pub open spec fn class_wf(c: SlabClassView) -> bool {
    &&& c.total_slot >= 1
    &&& c.class_size >= 8
    &&& c.class_size * c.total_slot <= 4096 - SLAB_HEADER_SIZE
    &&& forall|i: int| 0 <= i < c.partial.len() ==> slab_ok(#[trigger] c.partial[i], c) && c.partial[i].used < c.total_slot
    &&& forall|i: int| 0 <= i < c.full.len() ==> slab_ok(#[trigger] c.full[i], c) && c.full[i].used == c.total_slot
}

/// `i` is the first slab of `list` on page `page`.
pub open spec fn is_first_on_page(list: Seq<SlabView>, page: u64, i: int) -> bool {
    &&& 0 <= i < list.len()
    &&& list[i].page == page
    &&& forall|j: int| 0 <= j < i ==> (#[trigger] list[j]).page != page
}

/// The position of the first slab of `list` on page `page`, or -1.
pub open spec fn first_on_page(list: Seq<SlabView>, page: u64) -> int {
    if exists|i: int| #[trigger] is_first_on_page(list, page, i) {
        choose|i: int| #[trigger] is_first_on_page(list, page, i)
    } else {
        -1
    }
}

/// The page holding address `ptr`.
pub open spec fn page_of(ptr: u64) -> u64 {
    ptr & !0xFFFu64
}

/// A slab with one slot given back.
pub open spec fn with_slot_back(s: SlabView, ptr: u64) -> SlabView {
    SlabView { free: seq![ptr] + s.free, used: (s.used - 1) as usize, ..s }
}

/// A slab with its first free slot taken.
pub open spec fn with_slot_taken(s: SlabView) -> SlabView {
    SlabView { free: s.free.drop_first(), used: (s.used + 1) as usize, ..s }
}

/// Giving a slot back to a slab and then taking one returns that slot and
/// leaves the slab as it was (see `SlabHeader::push_slot` and
/// `SlabHeader::pop_slot`).
pub proof fn lemma_push_then_pop_slot(s: SlabView, slot: u64)
    requires
        s.used > 0,
    ensures
        with_slot_back(s, slot).free.len() > 0,
        with_slot_back(s, slot).free[0] == slot,
        with_slot_taken(with_slot_back(s, slot)) == s,
{
    assert((seq![slot] + s.free).drop_first() =~= s.free);
}

/// A size class: its full and partial slabs, its slot size and slots per
/// slab.
pub struct SlabClass {
    full_list: Vec<SlabHeader>,
    partial_list: Vec<SlabHeader>,
    class_size: usize,
    total_slot: usize,
}

impl View for SlabClass {
    type V = SlabClassView;

    closed spec fn view(&self) -> SlabClassView {
        SlabClassView {
            full: self.full_list@.map_values(|h: SlabHeader| h@),
            partial: self.partial_list@.map_values(|h: SlabHeader| h@),
            class_size: self.class_size,
            total_slot: self.total_slot,
        }
    }
}

proof fn lemma_first_on_page_unique(list: Seq<SlabView>, page: u64, a: int, b: int)
    requires
        is_first_on_page(list, page, a),
        is_first_on_page(list, page, b),
    ensures
        a == b,
{
}

/// The first slab of `list` on page `page`.
fn find_on_page(list: &Vec<SlabHeader>, page: u64) -> (r: Option<usize>)
    ensures
        r is None ==> first_on_page(list@.map_values(|h: SlabHeader| h@), page) == -1,
        r matches Some(i) ==> first_on_page(list@.map_values(|h: SlabHeader| h@), page) == i,
{
    let ghost l = list@.map_values(|h: SlabHeader| h@);
    let mut i: usize = 0;
    while i < list.len()
        invariant
            l == list@.map_values(|h: SlabHeader| h@),
            i <= list.len(),
            forall|j: int| 0 <= j < i ==> (#[trigger] l[j]).page != page,
        decreases list.len() - i,
    {
        if list[i].page() == page {
            proof {
                assert(is_first_on_page(l, page, i as int));
                let c = choose|c: int| #[trigger] is_first_on_page(l, page, c);
                lemma_first_on_page_unique(l, page, c, i as int);
            }
            return Some(i);
        }
        i = i + 1;
    }
    None
}

impl SlabClass {
    /// Class `class_index` of the nine: slots of 8 bytes doubled
    /// `class_index` times, as many per page as fit after the header.
    pub fn new(class_index: usize) -> (c: SlabClass)
        requires
            class_index <= 60,
            class_index + 3 < usize::BITS,
        ensures
            c@.full.len() == 0,
            c@.partial.len() == 0,
            class_index <= 8 ==> {
                &&& c@.class_size == class_size(class_index as int)
                &&& c@.total_slot == (4096 - SLAB_HEADER_SIZE) / class_size(class_index as int)
                &&& class_wf(c@)
                &&& slots_placed(c@)
                &&& 4096int % (c@.class_size as int) == 0
            },
            class_index > 8 ==> c@.class_size >= 4096 && c@.total_slot == 0,
    {
        if class_index > 8 {
            let size: usize = 1usize << (class_index + 3);
            assert(size >= 4096) by (bit_vector)
                requires size == 1usize << (class_index + 3), class_index > 8, class_index + 3 < usize::BITS;
            let usable: usize = 4096 - SLAB_HEADER_SIZE;
            let slots: usize = usable / size;
            assert(slots == 0) by (nonlinear_arith)
                requires slots == usable / size, size >= 4096, usable < 4096;
            let c = SlabClass { full_list: Vec::new(), partial_list: Vec::new(), class_size: size, total_slot: slots };
            assert(c@.full =~= Seq::<SlabView>::empty());
            assert(c@.partial =~= Seq::<SlabView>::empty());
            return c;
        }
        proof {
            assert(1usize << 3usize == 8usize && 1usize << 4usize == 16usize && 1usize << 5usize == 32usize
                && 1usize << 6usize == 64usize && 1usize << 7usize == 128usize && 1usize << 8usize == 256usize
                && 1usize << 9usize == 512usize && 1usize << 10usize == 1024usize && 1usize << 11usize == 2048usize) by (bit_vector);
            reveal_with_fuel(class_size, 9);
        }
        let size: usize = 1usize << (class_index + 3);
        let usable: usize = 4096 - SLAB_HEADER_SIZE;
        let slots: usize = usable / size;
        let c = SlabClass { full_list: Vec::new(), partial_list: Vec::new(), class_size: size, total_slot: slots };
        proof {
            reveal_with_fuel(class_size, 9);
            if class_index == 0 { assert(size == 8); }
            else if class_index == 1 { assert(size == 16); }
            else if class_index == 2 { assert(size == 32); }
            else if class_index == 3 { assert(size == 64); }
            else if class_index == 4 { assert(size == 128); }
            else if class_index == 5 { assert(size == 256); }
            else if class_index == 6 { assert(size == 512); }
            else if class_index == 7 { assert(size == 1024); }
            else { assert(size == 2048); }
            assert(c@.full =~= Seq::<SlabView>::empty());
            assert(c@.partial =~= Seq::<SlabView>::empty());
            assert(size * slots <= usable) by (nonlinear_arith)
                requires slots == usable / size, size > 0;
            assert(4096int % (size as int) == 0) by {
                if size == 8 { assert(4096int % 8int == 0); } else if size == 16 { assert(4096int % 16int == 0); } else if size == 32 { assert(4096int % 32int == 0); } else if size == 64 { assert(4096int % 64int == 0); } else if size == 128 { assert(4096int % 128int == 0); } else if size == 256 { assert(4096int % 256int == 0); } else if size == 512 { assert(4096int % 512int == 0); } else if size == 1024 { assert(4096int % 1024int == 0); } else { assert(4096int % 2048int == 0); }
            }
            assert(slots >= 1) by (nonlinear_arith)
                requires slots == usable / size, size <= 2048, usable == 4048, size > 0;
            assert(class_wf(c@));
            assert(slots_placed(c@));
        }
        c
    }

    /// The slot size of the class.
    pub fn class_size(&self) -> (n: usize)
        ensures
            n == self@.class_size,
    {
        self.class_size
    }

    /// The number of partial slabs.
    pub fn partial_len(&self) -> (n: usize)
        ensures
            n == self@.partial.len(),
    {
        self.partial_list.len()
    }

    /// The number of full slabs.
    pub fn full_len(&self) -> (n: usize)
        ensures
            n == self@.full.len(),
    {
        self.full_list.len()
    }

    /// The number of slots per slab.
    pub fn total_slot(&self) -> (n: usize)
        ensures
            n == self@.total_slot,
    {
        self.total_slot
    }

    /// Puts `node` at the head of `list`.
    fn push_to_list(list: &mut Vec<SlabHeader>, node: SlabHeader)
        ensures
            final(list)@.map_values(|h: SlabHeader| h@) == seq![node@] + old(list)@.map_values(|h: SlabHeader| h@),
    {
        list.insert(0, node);
        assert(list@.map_values(|h: SlabHeader| h@) =~= seq![node@] + old(list)@.map_values(|h: SlabHeader| h@));
    }

    /// Unlinks the slab at position `index` of `list`.
    fn remove_from_list(list: &mut Vec<SlabHeader>, index: usize) -> (node: SlabHeader)
        requires
            index < old(list)@.len(),
        ensures
            node@ == old(list)@.map_values(|h: SlabHeader| h@)[index as int],
            final(list)@.map_values(|h: SlabHeader| h@) == old(list)@.map_values(|h: SlabHeader| h@).remove(index as int),
            final(list)@.len() == old(list)@.len() - 1,
    {
        let node = list.remove(index);
        assert(list@.map_values(|h: SlabHeader| h@) =~= old(list)@.map_values(|h: SlabHeader| h@).remove(index as int));
        node
    }

    /// Takes a page from the physical allocator and makes it a partial slab.
    /// When no page is left it reports `false` rather than panicking.
    fn refill(&mut self, allocator: &mut PhysMemAllocator, hhdm: u64) -> (ok: bool)
        requires
            class_wf(old(self)@),
            phys_wf(old(allocator)@),
            next_slab_page_fits(old(allocator)@, hhdm),
        ensures
            phys_wf(final(allocator)@),
            final(allocator)@ == alloc_page_spec(old(allocator)@).0,
            ok == alloc_page_spec(old(allocator)@).1 is Some,
            !ok ==> final(self)@ == old(self)@,
            ok ==> final(self)@ == (SlabClassView {
                partial: seq![fresh_slab((alloc_page_spec(old(allocator)@).1.unwrap().0 + hhdm) as u64, old(self)@.class_size, old(self)@.total_slot)]
                    + old(self)@.partial,
                ..old(self)@
            }),
    {
        let page = match allocator.alloc_page() {
            Some(p) => p,
            None => return false,
        };
        proof {
            assert(self.class_size * self.total_slot <= 4096) by (nonlinear_arith)
                requires self.class_size * self.total_slot <= 4096 - SLAB_HEADER_SIZE;
        }
        let header = SlabHeader::from_page(VirtAddr(page.0 + hhdm), self.class_size, self.total_slot);
        SlabClass::push_to_list(&mut self.partial_list, header);
        assert(self@ =~= (SlabClassView {
            partial: seq![fresh_slab((page.0 + hhdm) as u64, old(self)@.class_size, old(self)@.total_slot)] + old(self)@.partial,
            ..old(self)@
        }));
        true
    }
}


/// A class after a slot is taken from its head partial slab: the slab
/// moves to the head of the full list once all its slots are used.
pub open spec fn class_after_take(c: SlabClassView) -> SlabClassView {
    let s = with_slot_taken(c.partial[0]);
    if s.used == c.total_slot {
        SlabClassView { partial: c.partial.drop_first(), full: seq![s] + c.full, ..c }
    } else {
        SlabClassView { partial: c.partial.update(0, s), ..c }
    }
}

/// What allocating a slot from a class does, given the physical allocator:
/// the first free slot of the head partial slab is taken; with no partial
/// slab, a page is allocated and laid out as a new slab first (when there is
/// none, nothing happens).
pub open spec fn slab_alloc_spec(c: SlabClassView, a: PhysMemView, hhdm: u64) -> (SlabClassView, PhysMemView, Option<u64>) {
    if c.partial.len() > 0 {
        (class_after_take(c), a, Some(c.partial[0].free[0]))
    } else {
        let (a1, r) = alloc_page_spec(a);
        match r {
            None => (c, a1, None),
            Some(pa) => {
                let c1 = SlabClassView { partial: seq![fresh_slab((pa.0 + hhdm) as u64, c.class_size, c.total_slot)], ..c };
                (class_after_take(c1), a1, Some(c1.partial[0].free[0]))
            },
        }
    }
}

/// What freeing slot `ptr` does to a class and the physical allocator: the
/// slot goes back to its slab (found by its page, among the partial slabs
/// first); a full slab becomes partial again, at the head of the partial
/// list; a slab with no used slot left is dropped and its page freed.
pub open spec fn slab_free_spec(c: SlabClassView, a: PhysMemView, hhdm: u64, ptr: u64) -> (SlabClassView, PhysMemView) {
    let page = page_of(ptr);
    let pi = first_on_page(c.partial, page);
    if pi >= 0 {
        let s = with_slot_back(c.partial[pi], ptr);
        if s.used == 0 {
            (SlabClassView { partial: c.partial.remove(pi), ..c }, free_page_spec(a, (s.page - hhdm) as u64))
        } else {
            (SlabClassView { partial: c.partial.update(pi, s), ..c }, a)
        }
    } else {
        let fi = first_on_page(c.full, page);
        let s = with_slot_back(c.full[fi], ptr);
        if s.used == 0 {
            (SlabClassView { full: c.full.remove(fi), ..c }, free_page_spec(a, (s.page - hhdm) as u64))
        } else {
            (SlabClassView { full: c.full.remove(fi), partial: seq![s] + c.partial, ..c }, a)
        }
    }
}

/// The slab that freeing slot `ptr` gives back to: the first partial slab on
/// its page, else the first full one.
pub open spec fn slab_of(c: SlabClassView, ptr: u64) -> Option<SlabView> {
    let pi = first_on_page(c.partial, page_of(ptr));
    let fi = first_on_page(c.full, page_of(ptr));
    if pi >= 0 {
        Some(c.partial[pi])
    } else if fi >= 0 {
        Some(c.full[fi])
    } else {
        None
    }
}

/// Slot `ptr` may be given back to the class: it lies on a page of one of
/// the class's slabs, and if it is that slab's last used slot, its page may
/// be freed.
pub open spec fn can_free_slot(c: SlabClassView, a: PhysMemView, hhdm: u64, ptr: u64) -> bool {
    &&& slab_of(c, ptr) is Some
    &&& slab_of(c, ptr).unwrap().used == 1 ==> {
        &&& slab_of(c, ptr).unwrap().page >= hhdm
        &&& can_free(a, (slab_of(c, ptr).unwrap().page - hhdm) as u64)
    }
}

/// A fresh page for a slab is page aligned in the direct map and fits it.
pub open spec fn next_slab_page_fits(a: PhysMemView, hhdm: u64) -> bool {
    alloc_page_spec(a).1 matches Some(pa) ==> pa.0 + hhdm + 4096 <= u64::MAX && (pa.0 + hhdm) % 4096 == 0
}

/// Whether the next page the physical allocator hands out would lie page
/// aligned in the direct map at `hhdm`, as a new slab needs.
pub fn next_slab_page_fits_check(allocator: &PhysMemAllocator, hhdm: u64) -> (ok: bool)
    requires
        phys_wf(allocator@),
    ensures
        ok == next_slab_page_fits(allocator@, hhdm),
{
    match allocator.next_page() {
        None => true,
        Some(pa) => hhdm <= u64::MAX - 4096 && pa.0 <= u64::MAX - 4096 - hhdm && (pa.0 + hhdm) % 4096 == 0,
    }
}

/// The page holding an address starts at or below it, within 4096 bytes,
/// on a page boundary.
pub proof fn lemma_page_of_bounds(x: u64)
    ensures
        page_of(x) <= x,
        x < page_of(x) + 4096,
        page_of(x) % 4096 == 0,
{
    assert((x & !0xFFFu64) <= x && x < (x & !0xFFFu64) + 4096 && (x & !0xFFFu64) % 4096 == 0) by (bit_vector);
}

/// An address within a page-aligned page lies on that page.
pub proof fn lemma_page_of_within(page: u64, x: u64)
    requires
        page % 4096 == 0,
        page <= x < page + 4096,
        page + 4096 <= u64::MAX,
    ensures
        page_of(x) == page,
{
    assert(x & !0xFFFu64 == page) by (bit_vector)
        requires
            page % 4096 == 0,
            x >= page,
            x < page + 4096,
            page + 4096 <= 0xFFFF_FFFF_FFFF_FFFFu64;
}

/// The slots of a slab on an aligned page lie in that page.
proof fn lemma_fresh_slots_in_page(page: u64, class: usize, total_slot: usize)
    requires
        page % 4096 == 0,
        page + 4096 <= u64::MAX,
        class * total_slot <= 4096,
        total_slot >= 1,
        class >= 1,
    ensures
        forall|j: int| 0 <= j < fresh_slab(page, class, total_slot).free.len() ==> page_of(#[trigger] fresh_slab(page, class, total_slot).free[j]) == page,
{
    assert forall|j: int| 0 <= j < fresh_slab(page, class, total_slot).free.len() implies page_of(#[trigger] fresh_slab(page, class, total_slot).free[j]) == page by {
        assert(class * (j + 1) <= class * total_slot) by (nonlinear_arith)
            requires j + 1 <= total_slot;
        assert(class * (j + 1) >= 1) by (nonlinear_arith)
            requires j >= 0, class >= 1;
        let x = (page + 4096 - class * (j + 1)) as u64;
        lemma_page_of_within(page, x);
    }
}

/// Taking the first free slot of the head partial slab keeps the class
/// consistent, also when that slab had no used slot yet.
proof fn lemma_take_keeps_wf(c: SlabClassView)
    requires
        c.partial.len() > 0,
        c.total_slot >= 1,
        c.class_size >= 8,
        c.class_size * c.total_slot <= 4096 - SLAB_HEADER_SIZE,
        c.partial[0].page % 4096 == 0,
        forall|j: int| 0 <= j < c.partial[0].free.len() ==> page_of(#[trigger] c.partial[0].free[j]) == c.partial[0].page,
        c.partial[0].free.len() + c.partial[0].used == c.total_slot,
        c.partial[0].used < c.total_slot,
        c.partial[0].class == c.class_size,
        c.partial[0].magic == HEADER_MAGIC,
        forall|i: int| 1 <= i < c.partial.len() ==> slab_ok(#[trigger] c.partial[i], c) && c.partial[i].used < c.total_slot,
        forall|i: int| 0 <= i < c.full.len() ==> slab_ok(#[trigger] c.full[i], c) && c.full[i].used == c.total_slot,
    ensures
        class_wf(class_after_take(c)),
{
    let c1 = class_after_take(c);
    let s = with_slot_taken(c.partial[0]);
    assert forall|j: int| 0 <= j < s.free.len() implies page_of(#[trigger] s.free[j]) == s.page by {
        assert(s.free[j] == c.partial[0].free[j + 1]);
    }
    assert(slab_ok(s, c1));
    if s.used == c.total_slot {
        assert forall|i: int| 0 <= i < c1.partial.len() implies slab_ok(#[trigger] c1.partial[i], c1) && c1.partial[i].used < c1.total_slot by {
            assert(c1.partial[i] == c.partial[i + 1]);
        }
        assert forall|i: int| 0 <= i < c1.full.len() implies slab_ok(#[trigger] c1.full[i], c1) && c1.full[i].used == c1.total_slot by {
            if i > 0 {
                assert(c1.full[i] == c.full[i - 1]);
            }
        }
    } else {
        assert forall|i: int| 0 <= i < c1.partial.len() implies slab_ok(#[trigger] c1.partial[i], c1) && c1.partial[i].used < c1.total_slot by {
            if i > 0 {
                assert(c1.partial[i] == c.partial[i]);
            }
        }
    }
}

/// Allocating a slot keeps the class consistent.
pub proof fn lemma_slab_alloc_keeps_wf(c: SlabClassView, a: PhysMemView, hhdm: u64)
    requires
        class_wf(c),
        next_slab_page_fits(a, hhdm),
    ensures
        class_wf(slab_alloc_spec(c, a, hhdm).0),
        slab_alloc_spec(c, a, hhdm).0.class_size == c.class_size,
        slab_alloc_spec(c, a, hhdm).0.total_slot == c.total_slot,
{
    assert(c.class_size * c.total_slot <= 4096) by (nonlinear_arith)
        requires c.class_size * c.total_slot <= 4096 - SLAB_HEADER_SIZE;
    if c.partial.len() > 0 {
        assert(slab_ok(c.partial[0], c));
        lemma_take_keeps_wf(c);
    } else if alloc_page_spec(a).1 is Some {
        let page = (alloc_page_spec(a).1.unwrap().0 + hhdm) as u64;
        lemma_fresh_slots_in_page(page, c.class_size, c.total_slot);
        let c0 = SlabClassView { partial: seq![fresh_slab(page, c.class_size, c.total_slot)], ..c };
        lemma_take_keeps_wf(c0);
    }
}

impl SlabClass {
    /// Allocates a slot of the class; nothing when memory runs out.
    pub fn alloc_slot(&mut self, allocator: &mut PhysMemAllocator, hhdm: u64) -> (r: Option<u64>)
        requires
            class_wf(old(self)@),
            phys_wf(old(allocator)@),
            next_slab_page_fits(old(allocator)@, hhdm),
        ensures
            class_wf(final(self)@),
            phys_wf(final(allocator)@),
            (final(self)@, final(allocator)@, r) == slab_alloc_spec(old(self)@, old(allocator)@, hhdm),
            slots_placed(old(self)@) && 4096int % (old(self)@.class_size as int) == 0 ==> slots_placed(final(self)@)
                && (r matches Some(p) ==> slot_placed(old(self)@.class_size, p)),
    {
        proof {
            if slots_placed(self@) && 4096int % (self@.class_size as int) == 0 {
                lemma_slab_alloc_keeps_placed(self@, allocator@, hhdm);
            }
        }
        if self.partial_list.len() == 0 {
            if !self.refill(allocator, hhdm) {
                return None;
            }
        }
        let ghost c1 = self@;
        proof {
            if old(self)@.partial.len() == 0 {
                assert(c1.partial[0].free.len() == self.total_slot);
            } else {
                assert(slab_ok(c1.partial[0], c1));
            }
        }
        let mut head = SlabClass::remove_from_list(&mut self.partial_list, 0);
        let ptr = head.pop_slot();
        if head.used_slots() == self.total_slot {
            SlabClass::push_to_list(&mut self.full_list, head);
        } else {
            SlabClass::push_to_list(&mut self.partial_list, head);
        }
        proof {
            let s = with_slot_taken(c1.partial[0]);
            if s.used == c1.total_slot {
                assert(self@ =~= class_after_take(c1));
            } else {
                assert(self@.partial =~= c1.partial.update(0, s));
                assert(self@ =~= class_after_take(c1));
            }
            lemma_slab_alloc_keeps_wf(old(self)@, old(allocator)@, hhdm);
        }
        ptr
    }

    /// The slot size recorded in the slab that holds `ptr`, if any.
    pub fn slab_on_page(&self, ptr: u64) -> (r: Option<usize>)
        ensures
            match slab_of(self@, ptr) {
                Some(sl) => r == Some(sl.class),
                None => r is None,
            },
    {
        let page: u64 = ptr & !0xFFF;
        match find_on_page(&self.partial_list, page) {
            Some(i) => Some(self.partial_list[i].slab_class()),
            None => match find_on_page(&self.full_list, page) {
                Some(i) => Some(self.full_list[i].slab_class()),
                None => None,
            },
        }
    }

    /// How many slots are in use in the slab that holds `ptr`, and its page,
    /// if any.
    pub fn slab_use_on_page(&self, ptr: u64) -> (r: Option<(usize, u64)>)
        ensures
            match slab_of(self@, ptr) {
                Some(sl) => r == Some((sl.used, sl.page)),
                None => r is None,
            },
    {
        let page: u64 = ptr & !0xFFF;
        match find_on_page(&self.partial_list, page) {
            Some(i) => Some((self.partial_list[i].used_slots(), self.partial_list[i].page())),
            None => match find_on_page(&self.full_list, page) {
                Some(i) => Some((self.full_list[i].used_slots(), self.full_list[i].page())),
                None => None,
            },
        }
    }

    /// Gives slot `ptr` back to its slab.
    pub fn free(&mut self, ptr: u64, allocator: &mut PhysMemAllocator, hhdm: u64)
        requires
            class_wf(old(self)@),
            phys_wf(old(allocator)@),
            can_free_slot(old(self)@, old(allocator)@, hhdm, ptr),
        ensures
            class_wf(final(self)@),
            phys_wf(final(allocator)@),
            (final(self)@, final(allocator)@) == slab_free_spec(old(self)@, old(allocator)@, hhdm, ptr),
    {
        let page: u64 = ptr & !0xFFF;
        let ghost c0 = self@;
        match find_on_page(&self.partial_list, page) {
            Some(i) => {
                let mut header = SlabClass::remove_from_list(&mut self.partial_list, i);
                proof {
                    assert(slab_ok(c0.partial[i as int], c0));
                }
                header.push_slot(ptr);
                if header.used_slots() == 0 {
                    let slab_page: u64 = header.page();
                    allocator.free_page(crate::mm::PhyAddr(slab_page - hhdm));
                    assert(self@ =~= slab_free_spec(c0, old(allocator)@, hhdm, ptr).0);
                } else {
                    self.partial_list.insert(i, header);
                    proof {
                        assert(self.partial_list@.map_values(|h: SlabHeader| h@) =~= old(self).partial_list@.map_values(|h: SlabHeader| h@).remove(i as int).insert(i as int, header@));
                        assert(self@.partial =~= c0.partial.update(i as int, with_slot_back(c0.partial[i as int], ptr)));
                        assert(self@ =~= slab_free_spec(c0, old(allocator)@, hhdm, ptr).0);
                        assert forall|j: int| 0 <= j < self@.partial.len() implies slab_ok(#[trigger] self@.partial[j], self@) && self@.partial[j].used < self@.total_slot by {
                            if j != i {
                                assert(self@.partial[j] == c0.partial[j]);
                            }
                        }
                    }
                }
                proof {
                    assert forall|j: int| 0 <= j < self@.partial.len() implies slab_ok(#[trigger] self@.partial[j], self@) && self@.partial[j].used < self@.total_slot by {
                        if header@.used == 0 {
                            if j < i {
                                assert(self@.partial[j] == c0.partial[j]);
                            } else {
                                assert(self@.partial[j] == c0.partial[j + 1]);
                            }
                        } else if j != i {
                            assert(self@.partial[j] == c0.partial[j]);
                        }
                    }
                }
            },
            None => {
                let i: usize = match find_on_page(&self.full_list, page) {
                    Some(i) => i,
                    None => {
                        proof {
                            assert(false);
                        }
                        return;
                    },
                };
                let mut header = SlabClass::remove_from_list(&mut self.full_list, i);
                proof {
                    assert(slab_ok(c0.full[i as int], c0));
                }
                header.push_slot(ptr);
                if header.used_slots() == 0 {
                    let slab_page: u64 = header.page();
                    allocator.free_page(crate::mm::PhyAddr(slab_page - hhdm));
                } else {
                    SlabClass::push_to_list(&mut self.partial_list, header);
                }
                proof {
                    assert(self@ =~= slab_free_spec(c0, old(allocator)@, hhdm, ptr).0);
                    assert forall|j: int| 0 <= j < self@.full.len() implies slab_ok(#[trigger] self@.full[j], self@) && self@.full[j].used == self@.total_slot by {
                        if j < i {
                            assert(self@.full[j] == c0.full[j]);
                        } else {
                            assert(self@.full[j] == c0.full[j + 1]);
                        }
                    }
                    assert forall|j: int| 0 <= j < self@.partial.len() implies slab_ok(#[trigger] self@.partial[j], self@) && self@.partial[j].used < self@.total_slot by {
                        if header@.used != 0 && j > 0 {
                            assert(self@.partial[j] == c0.partial[j - 1]);
                        }
                    }
                }
            },
        }
    }
}


/// A slot given back to a slab that was full, or that heads the partial
/// list, is the next slot handed out, as long as its slab keeps a used slot.
pub proof fn lemma_slab_alloc_after_free_returns_it(c: SlabClassView, a: PhysMemView, hhdm: u64, ptr: u64)
    requires
        class_wf(c),
        slab_of(c, ptr) is Some,
        slab_of(c, ptr).unwrap().used > 1,
        first_on_page(c.partial, page_of(ptr)) == -1 || first_on_page(c.partial, page_of(ptr)) == 0,
    ensures
        slab_alloc_spec(slab_free_spec(c, a, hhdm, ptr).0, slab_free_spec(c, a, hhdm, ptr).1, hhdm).2 == Some(ptr),
{
    let page = page_of(ptr);
    let pi = first_on_page(c.partial, page);
    if pi == 0 {
        let w = choose|i: int| #[trigger] is_first_on_page(c.partial, page, i);
        assert(is_first_on_page(c.partial, page, 0));
    } else {
        let fi = first_on_page(c.full, page);
        let w = choose|i: int| #[trigger] is_first_on_page(c.full, page, i);
        assert(is_first_on_page(c.full, page, fi));
    }
}

/// Slot `x` of a slab at `page` with `class`-byte slots is aligned to the
/// slot size and lies, whole, in the page.
pub open spec fn slot_in_page(page: u64, class: usize, x: u64) -> bool {
    &&& (x as int) % (class as int) == 0
    &&& page <= x
    &&& x + class <= page + 4096
}

/// Slot `x` is aligned to the slot size `class` and lies, whole, in some
/// page-aligned page.
pub open spec fn slot_placed(class: usize, x: u64) -> bool {
    exists|page: u64| page % 4096 == 0 && #[trigger] slot_in_page(page, class, x)
}

/// Every free slot of the class's partial slabs sits at a slot position of
/// its slab.
pub open spec fn slots_placed(c: SlabClassView) -> bool {
    forall|i: int, j: int| 0 <= i < c.partial.len() && 0 <= j < c.partial[i].free.len()
        ==> slot_in_page(c.partial[i].page, c.class_size, #[trigger] c.partial[i].free[j])
}

/// The slots of a new slab sit at slot positions.
proof fn lemma_fresh_slots_placed(page: u64, class: usize, total_slot: usize)
    requires
        page % 4096 == 0,
        page + 4096 <= u64::MAX,
        class >= 1,
        4096int % (class as int) == 0,
        class * total_slot <= 4096,
    ensures
        forall|j: int| 0 <= j < total_slot ==> slot_in_page(page, class, #[trigger] fresh_slab(page, class, total_slot).free[j]),
{
    assert forall|j: int| 0 <= j < total_slot implies slot_in_page(page, class, #[trigger] fresh_slab(page, class, total_slot).free[j]) by {
        let c = class as int;
        assert(c * (j + 1) <= c * total_slot) by (nonlinear_arith)
            requires j + 1 <= total_slot, c >= 0;
        assert(c * (j + 1) >= c) by (nonlinear_arith)
            requires j >= 0, c >= 0;
        let x = page + 4096 - c * (j + 1);
        let a = page as int / 4096;
        let b = 4096int / c;
        assert(page as int == 4096 * a);
        vstd::arithmetic::div_mod::lemma_fundamental_div_mod(4096int, c);
        assert(4096 == c * b);
        assert(x == c * (a * b + b - (j + 1))) by (nonlinear_arith)
            requires x == 4096 * a + 4096 - c * (j + 1), 4096 == c * b;
        vstd::arithmetic::div_mod::lemma_mod_multiples_basic(a * b + b - (j + 1), c);
        assert((c * (a * b + b - (j + 1))) % c == 0) by {
            vstd::arithmetic::mul::lemma_mul_is_commutative(c, a * b + b - (j + 1));
        }
    }
}

/// Taking a slot keeps the free slots at slot positions, and the slot taken
/// is at one of its slab's.
proof fn lemma_take_keeps_placed(c: SlabClassView)
    requires
        c.partial.len() > 0,
        c.partial[0].free.len() > 0,
        slots_placed(c),
    ensures
        slots_placed(class_after_take(c)),
        slot_in_page(c.partial[0].page, c.class_size, c.partial[0].free[0]),
{
    let c1 = class_after_take(c);
    let s = with_slot_taken(c.partial[0]);
    assert(slot_in_page(c.partial[0].page, c.class_size, c.partial[0].free[0]));
    assert forall|i: int, j: int| 0 <= i < c1.partial.len() && 0 <= j < c1.partial[i].free.len()
        implies slot_in_page(c1.partial[i].page, c1.class_size, #[trigger] c1.partial[i].free[j]) by {
        if s.used == c.total_slot {
            assert(c1.partial[i] == c.partial[i + 1]);
        } else if i == 0 {
            assert(c1.partial[0].free[j] == c.partial[0].free[j + 1]);
        } else {
            assert(c1.partial[i] == c.partial[i]);
        }
    }
}

/// Allocating a slot keeps the free slots at slot positions, and hands out a
/// slot aligned to the slot size that lies, whole, in a page-aligned page.
pub proof fn lemma_slab_alloc_keeps_placed(c: SlabClassView, a: PhysMemView, hhdm: u64)
    requires
        class_wf(c),
        slots_placed(c),
        next_slab_page_fits(a, hhdm),
        4096int % (c.class_size as int) == 0,
    ensures
        slots_placed(slab_alloc_spec(c, a, hhdm).0),
        slab_alloc_spec(c, a, hhdm).2 is Some ==> slot_placed(c.class_size, slab_alloc_spec(c, a, hhdm).2.unwrap()),
{
    assert(c.class_size * c.total_slot <= 4096) by (nonlinear_arith)
        requires c.class_size * c.total_slot <= 4096 - SLAB_HEADER_SIZE;
    if c.partial.len() > 0 {
        assert(slab_ok(c.partial[0], c));
        lemma_take_keeps_placed(c);
        assert(slab_alloc_spec(c, a, hhdm).2 == Some(c.partial[0].free[0]));
        assert(c.partial[0].page % 4096 == 0);
        assert(slot_in_page(c.partial[0].page, c.class_size, c.partial[0].free[0]));
        assert(slot_placed(c.class_size, c.partial[0].free[0]));
    } else if alloc_page_spec(a).1 is Some {
        let page = (alloc_page_spec(a).1.unwrap().0 + hhdm) as u64;
        let f = fresh_slab(page, c.class_size, c.total_slot);
        lemma_fresh_slots_placed(page, c.class_size, c.total_slot);
        let c0 = SlabClassView { partial: seq![f], ..c };
        assert(c0.partial[0] == f);
        lemma_take_keeps_placed(c0);
        assert(slab_alloc_spec(c, a, hhdm).2 == Some(f.free[0]));
        assert(page % 4096 == 0);
        assert(slot_in_page(page, c.class_size, f.free[0]));
        assert(slot_placed(c.class_size, f.free[0]));
    }
}

/// No two slabs of the class share a page.
pub open spec fn pages_distinct(c: SlabClassView) -> bool {
    &&& forall|i: int, j: int| 0 <= i < j < c.partial.len() ==> (#[trigger] c.partial[i]).page != (#[trigger] c.partial[j]).page
    &&& forall|i: int, j: int| 0 <= i < j < c.full.len() ==> (#[trigger] c.full[i]).page != (#[trigger] c.full[j]).page
    &&& forall|i: int, j: int| 0 <= i < c.partial.len() && 0 <= j < c.full.len() ==> (#[trigger] c.partial[i]).page != (#[trigger] c.full[j]).page
}

/// The slab that holds a slot of a consistent class has the class's slot size.
pub proof fn lemma_slab_of_class(c: SlabClassView, ptr: u64)
    requires
        class_wf(c),
        slab_of(c, ptr) is Some,
    ensures
        slab_of(c, ptr).unwrap().class == c.class_size,
{
    let page = page_of(ptr);
    if first_on_page(c.partial, page) >= 0 {
        let i = choose|i: int| #[trigger] is_first_on_page(c.partial, page, i);
        assert(is_first_on_page(c.partial, page, i));
        assert(slab_ok(c.partial[i], c));
    } else {
        let i = choose|i: int| #[trigger] is_first_on_page(c.full, page, i);
        assert(is_first_on_page(c.full, page, i));
        assert(slab_ok(c.full[i], c));
    }
}

/// The slot a class hands out lies on a slab of the class that is on the
/// slot's page: the head partial slab's page, or the page just allocated.
pub proof fn lemma_slab_alloc_slot_on_slab(c: SlabClassView, a: PhysMemView, hhdm: u64)
    requires
        class_wf(c),
        c.partial.len() > 0 || next_slab_page_fits(a, hhdm),
    ensures
        ({
            let (c1, a1, r) = slab_alloc_spec(c, a, hhdm);
            r is Some ==> {
                &&& slab_of(c1, r.unwrap()) is Some
                &&& slab_of(c1, r.unwrap()).unwrap().page == page_of(r.unwrap())
                &&& c.partial.len() > 0 ==> page_of(r.unwrap()) == c.partial[0].page
                &&& c.partial.len() == 0 ==> page_of(r.unwrap()) == (alloc_page_spec(a).1.unwrap().0 + hhdm) as u64
            }
        }),
{
    let (c1, a1, r) = slab_alloc_spec(c, a, hhdm);
    if r is Some {
        let c0 = if c.partial.len() > 0 {
            c
        } else {
            let pa = alloc_page_spec(a).1.unwrap();
            SlabClassView { partial: seq![fresh_slab((pa.0 + hhdm) as u64, c.class_size, c.total_slot)], ..c }
        };
        let s0 = c0.partial[0];
        if c.partial.len() > 0 {
            assert(slab_ok(s0, c));
        } else {
            assert(c.class_size * c.total_slot <= 4096) by (nonlinear_arith)
                requires c.class_size * c.total_slot <= 4096 - SLAB_HEADER_SIZE;
            lemma_fresh_slots_in_page(s0.page, c.class_size, c.total_slot);
        }
        let ptr = s0.free[0];
        assert(r.unwrap() == ptr);
        assert(page_of(ptr) == s0.page);
        let page = s0.page;
        assert(c1 == class_after_take(c0));
        let s = with_slot_taken(s0);
        if s.used == c0.total_slot {
            assert(is_first_on_page(c1.full, page, 0));
            if first_on_page(c1.partial, page) >= 0 {
                let pi = choose|i: int| #[trigger] is_first_on_page(c1.partial, page, i);
                assert(is_first_on_page(c1.partial, page, pi));
            } else {
                let fi = choose|i: int| #[trigger] is_first_on_page(c1.full, page, i);
                assert(is_first_on_page(c1.full, page, fi));
            }
        } else {
            assert(is_first_on_page(c1.partial, page, 0));
            let pi = choose|i: int| #[trigger] is_first_on_page(c1.partial, page, i);
            assert(is_first_on_page(c1.partial, page, pi));
        }
    }
}

/// Giving back the slot just allocated from a partial slab restores the
/// class: the slot is again the slab's first free slot, and the slab is back
/// at the head of the partial list.
pub proof fn lemma_slab_free_undoes_alloc(c: SlabClassView, a: PhysMemView, hhdm: u64)
    requires
        class_wf(c),
        pages_distinct(c),
        c.partial.len() > 0,
    ensures
        ({
            let (c1, a1, r) = slab_alloc_spec(c, a, hhdm);
            &&& r is Some
            &&& slab_free_spec(c1, a1, hhdm, r.unwrap()) == (c, a)
        }),
{
    let (c1, a1, r) = slab_alloc_spec(c, a, hhdm);
    let s0 = c.partial[0];
    assert(slab_ok(s0, c));
    let ptr = s0.free[0];
    let page = page_of(ptr);
    assert(page == s0.page);
    let s = with_slot_taken(s0);
    assert(with_slot_back(s, ptr) == s0) by {
        assert(seq![ptr] + s0.free.drop_first() =~= s0.free);
    }
    if s.used == c.total_slot {
        assert forall|i: int| 0 <= i < c1.partial.len() implies (#[trigger] c1.partial[i]).page != page by {
            assert(c1.partial[i] == c.partial[i + 1]);
        }
        assert(first_on_page(c1.partial, page) == -1);
        assert(is_first_on_page(c1.full, page, 0));
        let fi = choose|i: int| #[trigger] is_first_on_page(c1.full, page, i);
        assert(fi == 0);
        assert(c1.full.remove(0) =~= c.full);
        assert(seq![s0] + c1.partial =~= c.partial);
    } else {
        assert(is_first_on_page(c1.partial, page, 0));
        let pi = choose|i: int| #[trigger] is_first_on_page(c1.partial, page, i);
        assert(pi == 0);
        assert(c1.partial.update(0, s0) =~= c.partial);
    }
}

} // verus!
