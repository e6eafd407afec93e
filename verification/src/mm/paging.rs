//! Four-level x86_64 page tables, kept in physical memory and reached
//! through the higher-half direct map.
use vstd::prelude::*;
use crate::mm::{PhyAddr, VirtAddr, LimineMemMapEntry, LimineExecutableAddr, LIMINE_MEMMAP_USABLE,
    LIMINE_MEMMAP_BOOTLOADER_RECLAIMABLE, LIMINE_MEMMAP_EXECUTABLE_AND_MODULES, LIMINE_MEMMAP_FRAMEBUFFER,
    LIMINE_MEMMAP_ACPI_RECLAIMABLE};
use crate::mm::physical::{PhysMemAllocator, PhysMemView, alloc_page_spec, phys_wf, out_of_pages, lemma_alloc_failure, can_alloc, lemma_can_alloc_fewer, counts_exact, lemma_free_pages_can_alloc};

verus! {

/// Flag: the mapping is present.
pub const PAGE_PRESENT: u8 = 1;
/// Flag: the page may be written.
pub const PAGE_WRITABLE: u8 = 2;
/// Flag: user mode may access the page.
pub const PAGE_USER: u8 = 4;
/// Flag: write-through caching.
pub const PAGE_WRITE_THROUGH_CACHE: u8 = 8;
/// Flag: caching disabled.
pub const PAGE_DISABLE_CACHE: u8 = 16;
/// Flag: the mapping is global.
pub const PAGE_GLOBAL: u8 = 32;
/// Flag: no instruction fetch from the page.
pub const PAGE_NO_EXECUTE: u8 = 64;

/// The physical address bits of a page table entry.
pub const ADDRESS_MASK: u64 = 0x000F_FFFF_FFFF_F000;

/// The attribute bits of an entry for `flags`: present, writable, user,
/// write-through and cache-disable in bits 0 to 4, global in bit 8,
/// no-execute in bit 63.
pub open spec fn attr_of(flags: u8) -> u64 {
    (if flags & PAGE_PRESENT != 0 { 1u64 } else { 0u64 })
    | (if flags & PAGE_WRITABLE != 0 { 2u64 } else { 0u64 })
    | (if flags & PAGE_USER != 0 { 4u64 } else { 0u64 })
    | (if flags & PAGE_WRITE_THROUGH_CACHE != 0 { 8u64 } else { 0u64 })
    | (if flags & PAGE_DISABLE_CACHE != 0 { 16u64 } else { 0u64 })
    | (if flags & PAGE_GLOBAL != 0 { 0x100u64 } else { 0u64 })
    | (if flags & PAGE_NO_EXECUTE != 0 { 0x8000_0000_0000_0000u64 } else { 0u64 })
}

/// The entry that maps physical address `phys` with `flags`.
pub open spec fn entry_value(phys: u64, flags: u8) -> u64 {
    attr_of(flags) | (phys & ADDRESS_MASK)
}

/// The entry is present.
pub open spec fn present(e: u64) -> bool {
    e & 1u64 != 0
}

/// The physical address that the entry points to.
pub open spec fn frame_of(e: u64) -> int {
    (e & ADDRESS_MASK) as int
}

/// Entry `i` of the table at physical address `t`.
pub open spec fn entry_at(words: Seq<u64>, t: int, i: int) -> u64 {
    words[t / 8 + i]
}

/// The table reached from the top-level table at `p` by following the entries
/// at the indices of `path`, one level at a time.
pub open spec fn table_at(w: Seq<u64>, p: int, path: Seq<int>) -> int
    decreases path.len(),
{
    if path.len() == 0 {
        p
    } else {
        frame_of(entry_at(w, table_at(w, p, path.drop_last()), path.last()))
    }
}

/// Every entry followed along `path` is present.
pub open spec fn valid_path(w: Seq<u64>, p: int, path: Seq<int>) -> bool
    decreases path.len(),
{
    if path.len() == 0 {
        true
    } else {
        valid_path(w, p, path.drop_last()) && present(entry_at(w, table_at(w, p, path.drop_last()), path.last()))
    }
}

/// A path to a table: at most three indices, each below 512.
pub open spec fn index_path(path: Seq<int>) -> bool {
    &&& path.len() <= 3
    &&& forall|j: int| 0 <= j < path.len() ==> 0 <= #[trigger] path[j] < 512
}

/// The page at physical address `t` is page aligned, has a bit, and the bit
/// says it is used.
pub open spec fn tbl_ok(bits: Seq<bool>, t: int) -> bool {
    &&& t % 4096 == 0
    &&& 0 <= t / 4096 < bits.len()
    &&& bits[t / 4096]
}

/// The page tables under the top-level table at `p` form a tree: every table
/// is a page that the allocator counts as used, and no two paths reach the
/// same table.
pub open spec fn pt_wf(w: Seq<u64>, p: int, bits: Seq<bool>) -> bool {
    &&& tbl_ok(bits, p)
    &&& forall|path: Seq<int>| index_path(path) && #[trigger] valid_path(w, p, path) ==> tbl_ok(bits, table_at(w, p, path))
    &&& forall|a: Seq<int>, b: Seq<int>|
        index_path(a) && index_path(b) && #[trigger] valid_path(w, p, a) && #[trigger] valid_path(w, p, b)
            && table_at(w, p, a) == table_at(w, p, b) ==> a == b
}

/// Index into the top-level table for virtual address `va`.
pub open spec fn pml4_index(va: u64) -> int {
    ((va >> 39u64) & 0x1FFu64) as int
}

/// Index into the second-level table for `va`.
pub open spec fn pml3_index(va: u64) -> int {
    ((va >> 30u64) & 0x1FFu64) as int
}

/// Index into the third-level table for `va`.
pub open spec fn pml2_index(va: u64) -> int {
    ((va >> 21u64) & 0x1FFu64) as int
}

/// Index into the last-level table for `va`.
pub open spec fn pml1_index(va: u64) -> int {
    ((va >> 12u64) & 0x1FFu64) as int
}

/// The path to the last-level table for `va`.
pub open spec fn va_path(va: u64) -> Seq<int> {
    seq![pml4_index(va), pml3_index(va), pml2_index(va)]
}

/// The last-level entry for `va`, when the tables above it are present.
pub open spec fn leaf_entry(w: Seq<u64>, p: int, va: u64) -> Option<u64> {
    if valid_path(w, p, va_path(va)) {
        Some(entry_at(w, table_at(w, p, va_path(va)), pml1_index(va)))
    } else {
        None
    }
}

/// The entry that maps `va`, when `va` is mapped.
pub open spec fn mapping(w: Seq<u64>, p: int, va: u64) -> Option<u64> {
    match leaf_entry(w, p, va) {
        Some(e) => if present(e) { Some(e) } else { None },
        None => None,
    }
}

/// The page number of `va` within the 48-bit address space the tables
/// translate.
pub open spec fn page_number(va: u64) -> int {
    ((va >> 12u64) & 0xF_FFFF_FFFFu64) as int
}

/// How many pages `va` lies above `base`, counting round the 48-bit address
/// space.
pub open spec fn page_offset(va: u64, base: u64) -> int {
    (page_number(va) - page_number(base) + 0x10_0000_0000) % 0x10_0000_0000
}

/// The allocator can hand out page table frames: it is consistent, its pages
/// lie in memory, and its free list holds page-aligned addresses.
pub open spec fn frames_ok(a: PhysMemView, m: MemView) -> bool {
    &&& phys_wf(a)
    &&& a.bits is Some
    &&& a.bits.unwrap().len() * 512 <= m.words.len()
    &&& a.list matches Some(l) ==> forall|j: int| 0 <= j < l.len() ==> #[trigger] l[j] % 4096 == 0
}

/// Memory fits in the 52-bit physical address space, and its direct map
/// fits in the virtual address space.
pub open spec fn mem_ok(m: MemView) -> bool {
    &&& 8 * m.words.len() <= 0x10_0000_0000_0000
    &&& m.hhdm + 8 * m.words.len() <= u64::MAX
}

/// Physical memory as 64-bit words (word `j` at physical address `8 * j`),
/// mapped in the virtual address space at offset `hhdm`.
pub struct PhysMemory {
    words: Vec<u64>,
    hhdm: u64,
}

/// The contents of physical memory and the offset of its direct map.
pub struct MemView {
    pub words: Seq<u64>,
    pub hhdm: u64,
}

impl View for PhysMemory {
    type V = MemView;

    closed spec fn view(&self) -> MemView {
        MemView { words: self.words@, hhdm: self.hhdm }
    }
}

/// The page at physical address `t` lies in memory, page aligned.
pub open spec fn frame_in(m: MemView, t: int) -> bool {
    &&& 0 <= t
    &&& t % 4096 == 0
    &&& t / 8 + 512 <= m.words.len()
}

/// The virtual address `v`, in the direct map, is that of a page in memory.
pub open spec fn holds_table(m: MemView, v: u64) -> bool {
    &&& v >= m.hhdm
    &&& frame_in(m, v - m.hhdm)
}

/// Memory with the page at physical address `t` filled with zeros.
pub open spec fn zero_frame(words: Seq<u64>, t: int) -> Seq<u64> {
    Seq::new(words.len(), |j: int| if t / 8 <= j < t / 8 + 512 { 0u64 } else { words[j] })
}

impl PhysMemory {
    /// `size_words` words of zeroed memory, mapped at `hhdm`.
    pub fn new(size_words: usize, hhdm: u64) -> (m: PhysMemory)
        ensures
            m@.hhdm == hhdm,
            m@.words == Seq::new(size_words as nat, |j: int| 0u64),
    {
        let mut words: Vec<u64> = Vec::new();
        while words.len() < size_words
            invariant
                words@.len() <= size_words,
                forall|j: int| 0 <= j < words@.len() ==> words@[j] == 0u64,
            decreases size_words - words@.len(),
        {
            words.push(0u64);
        }
        assert(words@ =~= Seq::new(size_words as nat, |j: int| 0u64));
        PhysMemory { words, hhdm }
    }

    /// The offset at which physical memory is mapped.
    pub fn hhdm(&self) -> (h: u64)
        ensures
            h == self@.hhdm,
    {
        self.hhdm
    }

    /// The number of words of memory.
    pub fn words_len(&self) -> (n: usize)
        ensures
            n == self@.words.len(),
    {
        self.words.len()
    }

    /// The word at physical address `8 * index`.
    pub fn read_word(&self, index: usize) -> (w: u64)
        requires
            index < self@.words.len(),
        ensures
            w == self@.words[index as int],
    {
        self.words[index]
    }
}

/// The byte at physical address `a` (little endian within each word).
pub open spec fn byte_at(words: Seq<u64>, a: int) -> u8 {
    ((words[a / 8] >> ((8 * (a % 8)) as u64)) & 0xFFu64) as u8
}

proof fn lemma_write_byte(w: u64, j: u64, b: u8)
    requires
        j < 8,
    ensures
        forall|k: u64| k < 8 ==> #[trigger] ((((w & !(0xFFu64 << (8 * j))) | ((b as u64) << (8 * j))) >> (8 * k)) & 0xFFu64)
            == if k == j { b as u64 } else { (w >> (8 * k)) & 0xFFu64 },
{
    assert(forall|k: u64| k < 8 ==> #[trigger] ((((w & !(0xFFu64 << (8 * j))) | ((b as u64) << (8 * j))) >> (8 * k)) & 0xFFu64)
        == if k == j { b as u64 } else { (w >> (8 * k)) & 0xFFu64 }) by (bit_vector)
        requires j < 8;
}

impl PhysMemory {
    /// The byte at virtual address `va` in the direct map.
    pub fn read_byte(&self, va: u64) -> (b: u8)
        requires
            va >= self@.hhdm,
            (va - self@.hhdm) / 8 < self@.words.len(),
        ensures
            b == byte_at(self@.words, va - self@.hhdm),
    {
        // Reading the length tells the verifier that word indices fit a usize.
        let _len: usize = self.words.len();
        let a: u64 = va - self.hhdm;
        let w: u64 = self.words[(a / 8) as usize];
        let shift: u64 = 8 * (a % 8);
        ((w >> shift) & 0xFF) as u8
    }

    /// Writes byte `b` at virtual address `va` in the direct map.
    pub fn write_byte(&mut self, va: u64, b: u8)
        requires
            va >= old(self)@.hhdm,
            (va - old(self)@.hhdm) / 8 < old(self)@.words.len(),
        ensures
            final(self)@.hhdm == old(self)@.hhdm,
            final(self)@.words.len() == old(self)@.words.len(),
            forall|a: int| 0 <= a < 8 * old(self)@.words.len() ==> #[trigger] byte_at(final(self)@.words, a)
                == if a == va - old(self)@.hhdm { b } else { byte_at(old(self)@.words, a) },
    {
        // Reading the length tells the verifier that word indices fit a usize.
        let _len: usize = self.words.len();
        let a: u64 = va - self.hhdm;
        let index: usize = (a / 8) as usize;
        let w: u64 = self.words[index];
        let j: u64 = a % 8;
        let shift: u64 = 8 * j;
        let nw: u64 = (w & !(0xFFu64 << shift)) | ((b as u64) << shift);
        self.words.set(index, nw);
        proof {
            lemma_write_byte(w, j, b);
            assert forall|x: int| 0 <= x < 8 * old(self)@.words.len() implies #[trigger] byte_at(self@.words, x)
                == if x == a { b } else { byte_at(old(self)@.words, x) } by {
                let k = (x % 8) as u64;
                if x / 8 == index as int {
                    assert(((nw >> (8 * k)) & 0xFFu64) == if k == j { b as u64 } else { (w >> (8 * k)) & 0xFFu64 });
                    if x != a {
                        assert(k != j);
                    }
                    assert((b as u64) as u8 == b);
                }
            }
        }
    }

    /// Copies `len` bytes from virtual address `src` to virtual address
    /// `dst`, both in the direct map and not overlapping.
    pub fn copy_bytes(&mut self, src: u64, dst: u64, len: u64)
        requires
            mem_ok(old(self)@),
            src >= old(self)@.hhdm,
            dst >= old(self)@.hhdm,
            src + len <= old(self)@.hhdm + 8 * old(self)@.words.len(),
            dst + len <= old(self)@.hhdm + 8 * old(self)@.words.len(),
            src + len <= dst || dst + len <= src,
        ensures
            final(self)@.hhdm == old(self)@.hhdm,
            final(self)@.words.len() == old(self)@.words.len(),
            forall|a: int| 0 <= a < 8 * old(self)@.words.len() ==> #[trigger] byte_at(final(self)@.words, a)
                == if dst - old(self)@.hhdm <= a < dst - old(self)@.hhdm + len {
                    byte_at(old(self)@.words, a - dst + src)
                } else {
                    byte_at(old(self)@.words, a)
                },
    {
        let ghost h = self@.hhdm;
        let ghost w0 = self@.words;
        let mut i: u64 = 0;
        while i < len
            invariant
                self@.hhdm == h,
                self@.words.len() == w0.len(),
                h == old(self)@.hhdm,
                w0 == old(self)@.words,
                i <= len,
                mem_ok(old(self)@),
                src >= h,
                dst >= h,
                src + len <= h + 8 * w0.len(),
                dst + len <= h + 8 * w0.len(),
                src + len <= dst || dst + len <= src,
                forall|a: int| 0 <= a < 8 * w0.len() ==> #[trigger] byte_at(self@.words, a)
                    == if dst - h <= a < dst - h + i { byte_at(w0, a - dst + src) } else { byte_at(w0, a) },
            decreases len - i,
        {
            let b: u8 = self.read_byte(src + i);
            assert(b == byte_at(w0, src + i - h));
            self.write_byte(dst + i, b);
            i = i + 1;
        }
    }
}

/// A page table in memory, known by its virtual address.
pub struct PageEntry {
    pub entries: VirtAddr,
}

impl PageEntry {
    /// The physical address of the table.
    pub open spec fn table(self, m: MemView) -> int {
        self.entries.0 - m.hhdm
    }

    /// Entry `i` of the table.
    pub open spec fn entry(self, m: MemView, i: int) -> u64 {
        entry_at(m.words, self.table(m), i)
    }

    /// The table at virtual address `addr`.
    pub fn from(addr: VirtAddr) -> (e: PageEntry)
        ensures
            e.entries == addr,
    {
        PageEntry { entries: addr }
    }

    /// The table at virtual address `addr`, after filling it with zeros.
    pub fn from_zeroed(addr: VirtAddr, mem: &mut PhysMemory) -> (e: PageEntry)
        requires
            holds_table(old(mem)@, addr.0),
        ensures
            e.entries == addr,
            final(mem)@.hhdm == old(mem)@.hhdm,
            final(mem)@.words == zero_frame(old(mem)@.words, addr.0 - old(mem)@.hhdm),
    {
        let entry = PageEntry::from(addr);
        let len: usize = mem.words.len();
        let start: usize = ((addr.0 - mem.hhdm) / 8) as usize;
        let mut j: usize = 0;
        while j < 512
            invariant
                start == (addr.0 - old(mem)@.hhdm) / 8,
                start + 512 <= len,
                len == mem.words@.len(),
                mem.words@.len() == old(mem)@.words.len(),
                mem.hhdm == old(mem)@.hhdm,
                j <= 512,
                forall|k: int| 0 <= k < mem.words@.len() ==> #[trigger] mem.words@[k] == if start <= k < start + j { 0u64 } else { old(mem)@.words[k] },
            decreases 512 - j,
        {
            mem.words.set(start + j, 0u64);
            j = j + 1;
        }
        assert(mem.words@ =~= zero_frame(old(mem)@.words, addr.0 - old(mem)@.hhdm));
        entry
    }

    /// Entry `index` of the table.
    pub fn get(&self, index: usize, mem: &PhysMemory) -> (e: u64)
        requires
            index < 512,
            holds_table(mem@, self.entries.0),
        ensures
            e == entry_at(mem@.words, self.table(mem@), index as int),
    {
        // Reading the length tells the verifier that word indices fit a usize.
        let _len: usize = mem.words.len();
        let start: usize = ((self.entries.0 - mem.hhdm) / 8) as usize;
        mem.words[start + index]
    }

    /// Sets entry `index` of the table to map `phys_addr` with `flags`.
    pub fn set(&mut self, index: usize, phys_addr: u64, flags: u8, mem: &mut PhysMemory)
        requires
            index < 512,
            holds_table(old(mem)@, old(self).entries.0),
        ensures
            *final(self) == *old(self),
            final(mem)@.hhdm == old(mem)@.hhdm,
            final(mem)@.words == old(mem)@.words.update(old(self).table(old(mem)@) / 8 + index, entry_value(phys_addr, flags)),
    {
        // Reading the length tells the verifier that word indices fit a usize.
        let _len: usize = mem.words.len();
        let start: usize = ((self.entries.0 - mem.hhdm) / 8) as usize;
        let value: u64 = PageEntry::flags_to_attr(flags) | (phys_addr & 0x000FFFFFFFFFF000);
        mem.words.set(start + index, value);
    }

    /// The attribute bits of an entry for `flags`.
    pub fn flags_to_attr(flags: u8) -> (attribute: u64)
        ensures
            attribute == attr_of(flags),
    {
        let attribute: u64 = (if (flags & PAGE_PRESENT) != 0 { 1u64 } else { 0u64 })
            | (if (flags & PAGE_WRITABLE) != 0 { 2u64 } else { 0u64 })
            | (if (flags & PAGE_USER) != 0 { 4u64 } else { 0u64 })
            | (if (flags & PAGE_WRITE_THROUGH_CACHE) != 0 { 8u64 } else { 0u64 })
            | (if (flags & PAGE_DISABLE_CACHE) != 0 { 16u64 } else { 0u64 })
            | (if (flags & PAGE_GLOBAL) != 0 { 0x100u64 } else { 0u64 })
            | (if (flags & PAGE_NO_EXECUTE) != 0 { 0x8000_0000_0000_0000u64 } else { 0u64 });
        attribute
    }

    /// Whether entry `index` of the table is present.
    pub fn is_present(&self, index: usize, mem: &PhysMemory) -> (p: bool)
        requires
            index < 512,
            holds_table(mem@, self.entries.0),
        ensures
            p == present(entry_at(mem@.words, self.table(mem@), index as int)),
    {
        (self.get(index, mem) & 1) != 0
    }
}


/// A page from the allocator is free before, aligned, and in memory; the
/// allocator stays able to hand out frames.
proof fn lemma_alloc_frame(a: PhysMemView, m: MemView)
    requires
        frames_ok(a, m),
    ensures
        frames_ok(alloc_page_spec(a).0, m),
        alloc_page_spec(a).0.bits.unwrap().len() == a.bits.unwrap().len(),
        forall|x: int| 0 <= x < a.bits.unwrap().len() && a.bits.unwrap()[x] ==> #[trigger] alloc_page_spec(a).0.bits.unwrap()[x],
        alloc_page_spec(a).1 matches Some(pa) ==> {
            &&& pa.0 % 4096 == 0
            &&& pa.0 as int / 4096 < a.bits.unwrap().len()
            &&& !a.bits.unwrap()[pa.0 as int / 4096]
            &&& alloc_page_spec(a).0.bits.unwrap() == a.bits.unwrap().update(pa.0 as int / 4096, true)
            &&& frame_in(m, pa.0 as int)
        },
        alloc_page_spec(a).1 is None ==> alloc_page_spec(a).0.bits == a.bits,
{
    crate::mm::physical::lemma_alloc_preserves_wf(a);
    let (a1, r) = alloc_page_spec(a);
    let bits = a.bits.unwrap();
    if a.free_pages > 0 {
        if a.list is Some && a.list.unwrap().len() > 0 && !bits[a.list.unwrap()[0] as int / 4096] {
            let l = a.list.unwrap();
            assert(l[0] % 4096 == 0);
            assert forall|j: int| 0 <= j < l.drop_first().len() implies #[trigger] l.drop_first()[j] % 4096 == 0 by {
                assert(l.drop_first()[j] == l[j + 1]);
            }
        } else {
            if crate::mm::physical::lowest_free_page(bits, a.total_pages as int) is Some {
                let i = choose|i: int| #[trigger] crate::mm::bitmap::is_first_free_run(bits, 1, a.total_pages as int, i);
                assert(crate::mm::bitmap::free_run(bits, i, 1));
                assert(((i * 4096) as u64) as int == i * 4096);
            }
        }
    }
    if r is Some {
        let pa = r.unwrap();
        assert(pa.0 as int / 8 + 512 <= (pa.0 as int / 4096) * 512 + 512);
    }
}

/// The mask keeps page-aligned addresses below 2^52 and clears the low bits.
proof fn lemma_entry_value_frame(pa: u64)
    requires
        pa % 4096 == 0,
        pa < 0x10_0000_0000_0000,
    ensures
        present(entry_value(pa, PAGE_PRESENT | PAGE_USER | PAGE_WRITABLE)),
        frame_of(entry_value(pa, PAGE_PRESENT | PAGE_USER | PAGE_WRITABLE)) == pa,
{
    assert(1u8 | 4u8 | 2u8 == 7u8) by (bit_vector);
    assert(PAGE_PRESENT | PAGE_USER | PAGE_WRITABLE == 7u8);
    assert(attr_of(7u8) == 7u64) by (bit_vector);
    assert(((7u64 | (pa & 0x000F_FFFF_FFFF_F000u64)) & 1u64 != 0u64) && ((7u64 | (pa & 0x000F_FFFF_FFFF_F000u64)) & 0x000F_FFFF_FFFF_F000u64 == pa)) by (bit_vector)
        requires
            pa % 4096 == 0,
            pa < 0x10_0000_0000_0000u64;
}

impl PageEntry {
    /// The table that entry `index` points to. A present entry gives its
    /// table as it is. A missing one gives nothing, unless `force_map` asks for
    /// a new table: then a page is allocated, the entry is pointed at it
    /// (present, writable, user), and the new table is zeroed.
    pub fn from_previous_level(&mut self, index: usize, force_map: bool, mem: &mut PhysMemory, allocator: &mut PhysMemAllocator) -> (r: Option<PageEntry>)
        requires
            index < 512,
            holds_table(old(mem)@, old(self).entries.0),
            present(old(self).entry(old(mem)@, index as int))
                ==> frame_of(old(self).entry(old(mem)@, index as int)) + old(mem)@.hhdm <= u64::MAX,
            force_map && !present(old(self).entry(old(mem)@, index as int))
                ==> mem_ok(old(mem)@) && frames_ok(old(allocator)@, old(mem)@),
        ensures
            *final(self) == *old(self),
            final(mem)@.hhdm == old(mem)@.hhdm,
            final(mem)@.words.len() == old(mem)@.words.len(),
            force_map && !present(old(self).entry(old(mem)@, index as int)) ==> frames_ok(final(allocator)@, final(mem)@),
            ({
                let e = entry_at(old(mem)@.words, old(self).table(old(mem)@), index as int);
                let hhdm = old(mem)@.hhdm;
                if present(e) {
                    &&& r == Some(PageEntry { entries: VirtAddr((frame_of(e) + hhdm) as u64) })
                    &&& final(mem)@ == old(mem)@
                    &&& final(allocator)@ == old(allocator)@
                } else if !force_map {
                    &&& r is None
                    &&& final(mem)@ == old(mem)@
                    &&& final(allocator)@ == old(allocator)@
                } else {
                    &&& final(allocator)@ == alloc_page_spec(old(allocator)@).0
                    &&& match alloc_page_spec(old(allocator)@).1 {
                        None => r is None && final(mem)@ == old(mem)@,
                        Some(pa) => {
                            &&& r == Some(PageEntry { entries: VirtAddr((pa.0 + hhdm) as u64) })
                            &&& final(mem)@.words == zero_frame(
                                old(mem)@.words.update(old(self).table(old(mem)@) / 8 + index, entry_value(pa.0, PAGE_PRESENT | PAGE_USER | PAGE_WRITABLE)),
                                pa.0 as int)
                        },
                    }
                }
            }),
    {
        let hhdm: u64 = mem.hhdm;
        let mut page_was_present: bool = false;
        let addr: u64;
        if self.is_present(index, mem) {
            page_was_present = true;
            addr = self.get(index, mem) & 0x000FFFFFFFFFF000;
        } else if force_map {
            proof {
                lemma_alloc_frame(allocator@, mem@);
            }
            match allocator.alloc_page() {
                Some(pa) => {
                    self.set(index, pa.0, PAGE_PRESENT | PAGE_USER | PAGE_WRITABLE, mem);
                    addr = pa.0;
                },
                None => return None,
            }
        } else {
            return None;
        }
        let va = VirtAddr(addr + hhdm);
        Some(
            if page_was_present {
                PageEntry::from(va)
            } else {
                PageEntry::from_zeroed(va, mem)
            },
        )
    }
}


/// The indices of a virtual address are below 512.
proof fn lemma_va_path_index(va: u64)
    ensures
        index_path(va_path(va)),
        0 <= pml1_index(va) < 512,
{
    assert((va >> 39u64) & 0x1FFu64 <= 511u64) by (bit_vector);
    assert((va >> 30u64) & 0x1FFu64 <= 511u64) by (bit_vector);
    assert((va >> 21u64) & 0x1FFu64 <= 511u64) by (bit_vector);
    assert((va >> 12u64) & 0x1FFu64 <= 511u64) by (bit_vector);
    assert forall|j: int| 0 <= j < va_path(va).len() implies 0 <= #[trigger] va_path(va)[j] < 512 by {}
}

/// Reading an entry after one word was written and one page zeroed.
proof fn lemma_read_after_write(w: Seq<u64>, tw: int, k: int, v: u64, z: Option<int>, t: int, i: int)
    requires
        tw % 4096 == 0,
        0 <= tw,
        tw / 8 + 512 <= w.len(),
        0 <= k < 512,
        z matches Some(n) ==> n % 4096 == 0 && 0 <= n && n / 8 + 512 <= w.len() && n != tw,
        t % 4096 == 0,
        0 <= t,
        t / 8 + 512 <= w.len(),
        0 <= i < 512,
    ensures
        ({
            let w1 = match z {
                Some(n) => zero_frame(w.update(tw / 8 + k, v), n),
                None => w.update(tw / 8 + k, v),
            };
            entry_at(w1, t, i) == if z == Some(t) { 0u64 } else if t == tw && i == k { v } else { entry_at(w, t, i) }
        }),
{
    let qt = t / 4096;
    let qw = tw / 4096;
    assert(t / 8 == 512 * qt);
    assert(tw / 8 == 512 * qw);
    if t != tw {
        assert(qt != qw);
    }
    if z is Some {
        let n = z.unwrap();
        let qn = n / 4096;
        assert(n / 8 == 512 * qn);
        if t != n {
            assert(qt != qn);
        }
    }
}

proof fn lemma_zero_not_present()
    ensures
        !present(0u64),
{
    assert(0u64 & 1u64 == 0u64) by (bit_vector);
}

proof fn lemma_push_drop_last(path: Seq<int>, k: int)
    ensures
        path.push(k).drop_last() == path,
        path.push(k).last() == k,
        path.push(k).len() == path.len() + 1,
{
    assert(path.push(k).drop_last() =~= path);
}

proof fn lemma_index_path_prefix(path: Seq<int>)
    requires
        index_path(path),
        path.len() > 0,
    ensures
        index_path(path.drop_last()),
        0 <= path.last() < 512,
{
    assert forall|j: int| 0 <= j < path.drop_last().len() implies 0 <= #[trigger] path.drop_last()[j] < 512 by {
        assert(path.drop_last()[j] == path[j]);
    }
}

/// Tables of the tree lie in memory.
proof fn lemma_table_in(bits: Seq<bool>, w: Seq<u64>, t: int)
    requires
        tbl_ok(bits, t),
        bits.len() * 512 <= w.len(),
    ensures
        0 <= t,
        t / 8 + 512 <= w.len(),
{
    assert(t / 8 == 512 * (t / 4096));
    assert(512 * (t / 4096) + 512 <= 512 * bits.len()) by (nonlinear_arith)
        requires t / 4096 < bits.len(), 0 <= t / 4096;
}

/// Paths valid before adding a child table stay valid and reach the same
/// tables.
proof fn lemma_add_child_old(w: Seq<u64>, p: int, bits: Seq<bool>, pi0: Seq<int>, k: int, v: u64, n: int, path: Seq<int>)
    requires
        pt_wf(w, p, bits),
        bits.len() * 512 <= w.len(),
        index_path(pi0),
        valid_path(w, p, pi0),
        0 <= k < 512,
        !present(entry_at(w, table_at(w, p, pi0), k)),
        n % 4096 == 0,
        0 <= n / 4096 < bits.len(),
        !bits[n / 4096],
        index_path(path),
        valid_path(w, p, path),
    ensures
        valid_path(zero_frame(w.update(table_at(w, p, pi0) / 8 + k, v), n), p, path),
        table_at(zero_frame(w.update(table_at(w, p, pi0) / 8 + k, v), n), p, path) == table_at(w, p, path),
    decreases path.len(),
{
    let w1 = zero_frame(w.update(table_at(w, p, pi0) / 8 + k, v), n);
    let tw = table_at(w, p, pi0);
    if path.len() > 0 {
        let pre = path.drop_last();
        lemma_index_path_prefix(path);
        assert(valid_path(w, p, pre));
        lemma_add_child_old(w, p, bits, pi0, k, v, n, pre);
        let t = table_at(w, p, pre);
        assert(tbl_ok(bits, t));
        assert(tbl_ok(bits, tw));
        lemma_table_in(bits, w, t);
        lemma_table_in(bits, w, tw);
        lemma_table_in(bits.update(n / 4096, true), w, n);
        lemma_read_after_write(w, tw, k, v, Some(n), t, path.last());
        if t == tw && path.last() == k {
            assert(pre == pi0);
        }
    }
}

/// Paths valid after adding a child table were valid before, or lead to the
/// new table itself.
proof fn lemma_add_child_new(w: Seq<u64>, p: int, bits: Seq<bool>, pi0: Seq<int>, k: int, v: u64, n: int, path: Seq<int>)
    requires
        pt_wf(w, p, bits),
        bits.len() * 512 <= w.len(),
        index_path(pi0),
        pi0.len() <= 2,
        valid_path(w, p, pi0),
        0 <= k < 512,
        !present(entry_at(w, table_at(w, p, pi0), k)),
        present(v),
        frame_of(v) == n,
        n % 4096 == 0,
        0 <= n / 4096 < bits.len(),
        !bits[n / 4096],
        index_path(path),
        valid_path(zero_frame(w.update(table_at(w, p, pi0) / 8 + k, v), n), p, path),
    ensures
        valid_path(w, p, path) || (path == pi0.push(k) && table_at(zero_frame(w.update(table_at(w, p, pi0) / 8 + k, v), n), p, path) == n),
    decreases path.len(),
{
    let w1 = zero_frame(w.update(table_at(w, p, pi0) / 8 + k, v), n);
    let tw = table_at(w, p, pi0);
    assert(tbl_ok(bits, tw));
    lemma_table_in(bits, w, tw);
    lemma_table_in(bits.update(n / 4096, true), w, n);
    if path.len() > 0 {
        let pre = path.drop_last();
        lemma_index_path_prefix(path);
        lemma_add_child_new(w, p, bits, pi0, k, v, n, pre);
        if valid_path(w, p, pre) {
            lemma_add_child_old(w, p, bits, pi0, k, v, n, pre);
            let t = table_at(w, p, pre);
            assert(tbl_ok(bits, t));
            lemma_table_in(bits, w, t);
            lemma_read_after_write(w, tw, k, v, Some(n), t, path.last());
            if t == tw && path.last() == k {
                assert(pre == pi0);
                assert(path =~= pi0.push(k));
            }
        } else {
            lemma_push_drop_last(pi0, k);
            assert(table_at(w1, p, pre) == n);
            lemma_read_after_write(w, tw, k, v, Some(n), n, path.last());
            lemma_zero_not_present();
            assert(!valid_path(w1, p, path));
        }
    }
}

/// Adding a child table under entry `k` of the table at the end of `pi0`:
/// the tree stays a tree with the new page counted as used, the new table is
/// reached by `pi0` then `k`, every table reached before is reached the same
/// way, and no mapping changes.
proof fn lemma_add_child(w: Seq<u64>, p: int, bits: Seq<bool>, pi0: Seq<int>, k: int, v: u64, n: int)
    requires
        pt_wf(w, p, bits),
        bits.len() * 512 <= w.len(),
        index_path(pi0),
        pi0.len() <= 2,
        valid_path(w, p, pi0),
        0 <= k < 512,
        !present(entry_at(w, table_at(w, p, pi0), k)),
        present(v),
        frame_of(v) == n,
        n % 4096 == 0,
        0 <= n / 4096 < bits.len(),
        !bits[n / 4096],
    ensures
        ({
            let w1 = zero_frame(w.update(table_at(w, p, pi0) / 8 + k, v), n);
            &&& pt_wf(w1, p, bits.update(n / 4096, true))
            &&& valid_path(w1, p, pi0.push(k))
            &&& table_at(w1, p, pi0.push(k)) == n
            &&& forall|path: Seq<int>| index_path(path) && #[trigger] valid_path(w, p, path) ==> valid_path(w1, p, path) && table_at(w1, p, path) == table_at(w, p, path)
            &&& forall|va: u64| #[trigger] mapping(w1, p, va) == mapping(w, p, va)
            &&& forall|va: u64| #[trigger] leaf_entry(w, p, va) is Some ==> leaf_entry(w1, p, va) == leaf_entry(w, p, va)
        }),
{
    let w1 = zero_frame(w.update(table_at(w, p, pi0) / 8 + k, v), n);
    let bits1 = bits.update(n / 4096, true);
    let tw = table_at(w, p, pi0);
    assert(tbl_ok(bits, tw));
    lemma_table_in(bits, w, tw);
    lemma_table_in(bits1, w, n);
    lemma_push_drop_last(pi0, k);
    lemma_add_child_old(w, p, bits, pi0, k, v, n, pi0);
    lemma_read_after_write(w, tw, k, v, Some(n), tw, k);
    assert(valid_path(w1, p, pi0.push(k)));
    assert forall|path: Seq<int>| index_path(path) && #[trigger] valid_path(w, p, path) implies valid_path(w1, p, path) && table_at(w1, p, path) == table_at(w, p, path) by {
        lemma_add_child_old(w, p, bits, pi0, k, v, n, path);
    }
    assert(index_path(pi0.push(k))) by {
        assert forall|j: int| 0 <= j < pi0.push(k).len() implies 0 <= #[trigger] pi0.push(k)[j] < 512 by {
            if j < pi0.len() {
                assert(pi0.push(k)[j] == pi0[j]);
            }
        }
    }
    assert forall|path: Seq<int>| index_path(path) && #[trigger] valid_path(w1, p, path) implies tbl_ok(bits1, table_at(w1, p, path)) by {
        lemma_add_child_new(w, p, bits, pi0, k, v, n, path);
        if valid_path(w, p, path) {
            lemma_add_child_old(w, p, bits, pi0, k, v, n, path);
        }
    }
    assert forall|a: Seq<int>, b: Seq<int>|
        index_path(a) && index_path(b) && #[trigger] valid_path(w1, p, a) && #[trigger] valid_path(w1, p, b)
            && table_at(w1, p, a) == table_at(w1, p, b) implies a == b by {
        lemma_add_child_new(w, p, bits, pi0, k, v, n, a);
        lemma_add_child_new(w, p, bits, pi0, k, v, n, b);
        if valid_path(w, p, a) {
            lemma_add_child_old(w, p, bits, pi0, k, v, n, a);
            assert(tbl_ok(bits, table_at(w, p, a)));
        }
        if valid_path(w, p, b) {
            lemma_add_child_old(w, p, bits, pi0, k, v, n, b);
            assert(tbl_ok(bits, table_at(w, p, b)));
        }
    }
    assert(pt_wf(w1, p, bits1));
    assert forall|va: u64| #[trigger] leaf_entry(w, p, va) is Some implies leaf_entry(w1, p, va) == leaf_entry(w, p, va) by {
        lemma_va_path_index(va);
        let path = va_path(va);
        lemma_add_child_old(w, p, bits, pi0, k, v, n, path);
        let t = table_at(w, p, path);
        assert(tbl_ok(bits, t));
        lemma_table_in(bits, w, t);
        lemma_read_after_write(w, tw, k, v, Some(n), t, pml1_index(va));
        if t == tw {
            assert(path == pi0);
        }
    }
    assert forall|va: u64| #[trigger] mapping(w1, p, va) == mapping(w, p, va) by {
        lemma_va_path_index(va);
        let path = va_path(va);
        if valid_path(w, p, path) {
            assert(leaf_entry(w, p, va) is Some);
            assert(leaf_entry(w1, p, va) == leaf_entry(w, p, va));
        } else if valid_path(w1, p, path) {
            lemma_add_child_new(w, p, bits, pi0, k, v, n, path);
            lemma_read_after_write(w, tw, k, v, Some(n), n, pml1_index(va));
            lemma_zero_not_present();
            assert(leaf_entry(w1, p, va) == Some(0u64));
        }
    }
}


/// Writing entry `k` of a last-level table leaves every path of the tree as
/// it was.
proof fn lemma_set_leaf_paths(w: Seq<u64>, p: int, bits: Seq<bool>, pi0: Seq<int>, k: int, v: u64, path: Seq<int>)
    requires
        pt_wf(w, p, bits),
        bits.len() * 512 <= w.len(),
        index_path(pi0),
        pi0.len() == 3,
        valid_path(w, p, pi0),
        0 <= k < 512,
        index_path(path),
    ensures
        valid_path(w.update(table_at(w, p, pi0) / 8 + k, v), p, path) == valid_path(w, p, path),
        valid_path(w, p, path) ==> table_at(w.update(table_at(w, p, pi0) / 8 + k, v), p, path) == table_at(w, p, path),
    decreases path.len(),
{
    let w1 = w.update(table_at(w, p, pi0) / 8 + k, v);
    let tw = table_at(w, p, pi0);
    if path.len() > 0 {
        let pre = path.drop_last();
        lemma_index_path_prefix(path);
        lemma_set_leaf_paths(w, p, bits, pi0, k, v, pre);
        if valid_path(w, p, pre) {
            let t = table_at(w, p, pre);
            assert(tbl_ok(bits, t));
            assert(tbl_ok(bits, tw));
            lemma_table_in(bits, w, t);
            lemma_table_in(bits, w, tw);
            lemma_read_after_write(w, tw, k, v, None, t, path.last());
            if t == tw {
                assert(pre == pi0);
            }
        }
    }
}

/// Writing entry `k` of the last-level table at the end of `pi0`: the tree
/// is unchanged, and the last-level entry of an address changes only for the
/// addresses that lead to that entry.
proof fn lemma_set_leaf(w: Seq<u64>, p: int, bits: Seq<bool>, pi0: Seq<int>, k: int, v: u64)
    requires
        pt_wf(w, p, bits),
        bits.len() * 512 <= w.len(),
        index_path(pi0),
        pi0.len() == 3,
        valid_path(w, p, pi0),
        0 <= k < 512,
    ensures
        ({
            let w1 = w.update(table_at(w, p, pi0) / 8 + k, v);
            &&& pt_wf(w1, p, bits)
            &&& forall|path: Seq<int>| index_path(path) && #[trigger] valid_path(w, p, path) ==> valid_path(w1, p, path) && table_at(w1, p, path) == table_at(w, p, path)
            &&& forall|va: u64| #[trigger] leaf_entry(w1, p, va) == if va_path(va) == pi0 && pml1_index(va) == k { Some(v) } else { leaf_entry(w, p, va) }
        }),
{
    let w1 = w.update(table_at(w, p, pi0) / 8 + k, v);
    let tw = table_at(w, p, pi0);
    assert(tbl_ok(bits, tw));
    lemma_table_in(bits, w, tw);
    assert forall|path: Seq<int>| index_path(path) && #[trigger] valid_path(w, p, path) implies valid_path(w1, p, path) && table_at(w1, p, path) == table_at(w, p, path) by {
        lemma_set_leaf_paths(w, p, bits, pi0, k, v, path);
    }
    assert forall|path: Seq<int>| index_path(path) && #[trigger] valid_path(w1, p, path) implies tbl_ok(bits, table_at(w1, p, path)) by {
        lemma_set_leaf_paths(w, p, bits, pi0, k, v, path);
    }
    assert forall|a: Seq<int>, b: Seq<int>|
        index_path(a) && index_path(b) && #[trigger] valid_path(w1, p, a) && #[trigger] valid_path(w1, p, b)
            && table_at(w1, p, a) == table_at(w1, p, b) implies a == b by {
        lemma_set_leaf_paths(w, p, bits, pi0, k, v, a);
        lemma_set_leaf_paths(w, p, bits, pi0, k, v, b);
    }
    assert forall|va: u64| #[trigger] leaf_entry(w1, p, va) == if va_path(va) == pi0 && pml1_index(va) == k { Some(v) } else { leaf_entry(w, p, va) } by {
        lemma_va_path_index(va);
        let path = va_path(va);
        lemma_set_leaf_paths(w, p, bits, pi0, k, v, path);
        if valid_path(w, p, path) {
            let t = table_at(w, p, path);
            assert(tbl_ok(bits, t));
            lemma_table_in(bits, w, t);
            lemma_read_after_write(w, tw, k, v, None, t, pml1_index(va));
            if t == tw {
                assert(path == pi0);
            }
        }
    }
}


/// Every table that the tree under `p` reaches in `w1` but did not reach in
/// `w0` is linked in by an entry that points at the table's frame and is
/// present, writable and open to user mode.
pub open spec fn new_tables_linked(w0: Seq<u64>, w1: Seq<u64>, p: int) -> bool {
    forall|path: Seq<int>|
        index_path(path) && path.len() > 0 && #[trigger] valid_path(w1, p, path) && !valid_path(w0, p, path)
            ==> entry_at(w1, table_at(w1, p, path.drop_last()), path.last())
                == entry_value(table_at(w1, p, path) as u64, PAGE_PRESENT | PAGE_USER | PAGE_WRITABLE)
}

/// Every table that the tree under `p` reaches in `w0` it still reaches in
/// `w1`, through the same entries.
pub open spec fn links_kept(w0: Seq<u64>, w1: Seq<u64>, p: int) -> bool {
    forall|path: Seq<int>|
        index_path(path) && path.len() > 0 && #[trigger] valid_path(w0, p, path)
            ==> valid_path(w1, p, path) && entry_at(w1, table_at(w1, p, path.drop_last()), path.last())
                == entry_at(w0, table_at(w0, p, path.drop_last()), path.last())
}

/// Links kept from `w0` to `wa` and from `wa` to `wb` are kept from `w0` to
/// `wb`.
proof fn lemma_links_kept_trans(w0: Seq<u64>, wa: Seq<u64>, wb: Seq<u64>, p: int)
    requires
        links_kept(w0, wa, p),
        links_kept(wa, wb, p),
    ensures
        links_kept(w0, wb, p),
{
    assert forall|path: Seq<int>|
        index_path(path) && path.len() > 0 && #[trigger] valid_path(w0, p, path)
            implies valid_path(wb, p, path) && entry_at(wb, table_at(wb, p, path.drop_last()), path.last())
                == entry_at(w0, table_at(w0, p, path.drop_last()), path.last()) by {
        assert(valid_path(wa, p, path));
    }
}

/// Tables linked in since `w0` and kept since `wa` stay linked in.
proof fn lemma_linked_trans(w0: Seq<u64>, wa: Seq<u64>, wb: Seq<u64>, p: int)
    requires
        new_tables_linked(w0, wa, p),
        new_tables_linked(wa, wb, p),
        links_kept(w0, wa, p),
        links_kept(wa, wb, p),
    ensures
        new_tables_linked(w0, wb, p),
        links_kept(w0, wb, p),
{
    assert forall|path: Seq<int>|
        index_path(path) && path.len() > 0 && #[trigger] valid_path(wb, p, path) && !valid_path(w0, p, path)
            implies entry_at(wb, table_at(wb, p, path.drop_last()), path.last())
                == entry_value(table_at(wb, p, path) as u64, PAGE_PRESENT | PAGE_USER | PAGE_WRITABLE) by {
        if valid_path(wa, p, path) {
            assert(table_at(wb, p, path) == frame_of(entry_at(wb, table_at(wb, p, path.drop_last()), path.last())));
            assert(table_at(wa, p, path) == frame_of(entry_at(wa, table_at(wa, p, path.drop_last()), path.last())));
        }
    }
    assert forall|path: Seq<int>|
        index_path(path) && path.len() > 0 && #[trigger] valid_path(w0, p, path)
            implies valid_path(wb, p, path) && entry_at(wb, table_at(wb, p, path.drop_last()), path.last())
                == entry_at(w0, table_at(w0, p, path.drop_last()), path.last()) by {
        assert(valid_path(wa, p, path));
    }
}

/// Page `t` holds a table that the tree under `p` reaches in `w1` and did
/// not reach in `w0`.
pub open spec fn new_table_at(w0: Seq<u64>, w1: Seq<u64>, p: int, t: int) -> bool {
    exists|path: Seq<int>| index_path(path) && #[trigger] valid_path(w1, p, path) && !valid_path(w0, p, path) && table_at(w1, p, path) == t
}

/// Every page that `b1` marks used and `b0` did not holds a table that the
/// tree under `p` reaches in `w1` and did not reach in `w0`.
pub open spec fn new_used_are_tables(w0: Seq<u64>, b0: Seq<bool>, w1: Seq<u64>, b1: Seq<bool>, p: int) -> bool {
    forall|x: int| 0 <= x < b0.len() && !b0[x] && #[trigger] b1[x] ==> new_table_at(w0, w1, p, 4096 * x)
}

/// A new table stays a new table while the links are kept.
proof fn lemma_new_table_kept(w0: Seq<u64>, wa: Seq<u64>, wb: Seq<u64>, p: int, t: int)
    requires
        new_table_at(w0, wa, p, t),
        links_kept(wa, wb, p),
    ensures
        new_table_at(w0, wb, p, t),
{
    let path = choose|path: Seq<int>| index_path(path) && #[trigger] valid_path(wa, p, path) && !valid_path(w0, p, path) && table_at(wa, p, path) == t;
    assert(path.len() > 0);
    assert(valid_path(wb, p, path));
    assert(table_at(wb, p, path) == frame_of(entry_at(wb, table_at(wb, p, path.drop_last()), path.last())));
    assert(table_at(wa, p, path) == frame_of(entry_at(wa, table_at(wa, p, path.drop_last()), path.last())));
}

/// A table new since `wa` is new since `w0` when the links of `w0` were
/// kept.
proof fn lemma_new_table_since(w0: Seq<u64>, wa: Seq<u64>, wb: Seq<u64>, p: int, t: int)
    requires
        new_table_at(wa, wb, p, t),
        links_kept(w0, wa, p),
    ensures
        new_table_at(w0, wb, p, t),
{
    let path = choose|path: Seq<int>| index_path(path) && #[trigger] valid_path(wb, p, path) && !valid_path(wa, p, path) && table_at(wb, p, path) == t;
    if valid_path(w0, p, path) {
        assert(path.len() > 0);
        assert(valid_path(wa, p, path));
    }
}

/// Pages newly used for tables in two steps were newly used for tables
/// over both.
proof fn lemma_new_used_trans(w0: Seq<u64>, b0: Seq<bool>, wa: Seq<u64>, ba: Seq<bool>, wb: Seq<u64>, bb: Seq<bool>, p: int)
    requires
        new_used_are_tables(w0, b0, wa, ba, p),
        new_used_are_tables(wa, ba, wb, bb, p),
        links_kept(w0, wa, p),
        links_kept(wa, wb, p),
        ba.len() == b0.len(),
    ensures
        new_used_are_tables(w0, b0, wb, bb, p),
{
    assert forall|x: int| 0 <= x < b0.len() && !b0[x] && #[trigger] bb[x] implies new_table_at(w0, wb, p, 4096 * x) by {
        if ba[x] {
            lemma_new_table_kept(w0, wa, wb, p, 4096 * x);
        } else {
            lemma_new_table_since(w0, wa, wb, p, 4096 * x);
        }
    }
}

/// Linking a new table under entry `k` of the table at the end of `pi0` with
/// a present, writable, user entry keeps every newly reached table linked
/// that way.
proof fn lemma_add_child_linked(w0: Seq<u64>, w: Seq<u64>, p: int, bits: Seq<bool>, pi0: Seq<int>, k: int, n: int)
    requires
        pt_wf(w, p, bits),
        bits.len() * 512 <= w.len(),
        index_path(pi0),
        pi0.len() <= 2,
        valid_path(w, p, pi0),
        0 <= k < 512,
        !present(entry_at(w, table_at(w, p, pi0), k)),
        n % 4096 == 0,
        0 <= n < 0x10_0000_0000_0000,
        0 <= n / 4096 < bits.len(),
        !bits[n / 4096],
        new_tables_linked(w0, w, p),
    ensures
        new_tables_linked(w0, zero_frame(w.update(table_at(w, p, pi0) / 8 + k, entry_value(n as u64, PAGE_PRESENT | PAGE_USER | PAGE_WRITABLE)), n), p),
        links_kept(w, zero_frame(w.update(table_at(w, p, pi0) / 8 + k, entry_value(n as u64, PAGE_PRESENT | PAGE_USER | PAGE_WRITABLE)), n), p),
{
    let v = entry_value(n as u64, PAGE_PRESENT | PAGE_USER | PAGE_WRITABLE);
    lemma_entry_value_frame(n as u64);
    let w1 = zero_frame(w.update(table_at(w, p, pi0) / 8 + k, v), n);
    let tw = table_at(w, p, pi0);
    assert(tbl_ok(bits, tw));
    lemma_table_in(bits, w, tw);
    lemma_table_in(bits.update(n / 4096, true), w, n);
    assert forall|path: Seq<int>|
        index_path(path) && path.len() > 0 && #[trigger] valid_path(w1, p, path) && !valid_path(w0, p, path)
            implies entry_at(w1, table_at(w1, p, path.drop_last()), path.last())
                == entry_value(table_at(w1, p, path) as u64, PAGE_PRESENT | PAGE_USER | PAGE_WRITABLE) by {
        lemma_add_child_new(w, p, bits, pi0, k, v, n, path);
        let pre = path.drop_last();
        lemma_index_path_prefix(path);
        if valid_path(w, p, path) {
            lemma_add_child_old(w, p, bits, pi0, k, v, n, path);
            assert(valid_path(w, p, pre));
            lemma_add_child_old(w, p, bits, pi0, k, v, n, pre);
            let t = table_at(w, p, pre);
            assert(tbl_ok(bits, t));
            lemma_table_in(bits, w, t);
            lemma_read_after_write(w, tw, k, v, Some(n), t, path.last());
            assert(entry_at(w, table_at(w, p, pre), path.last()) == entry_value(table_at(w, p, path) as u64, PAGE_PRESENT | PAGE_USER | PAGE_WRITABLE));
        } else {
            lemma_push_drop_last(pi0, k);
            lemma_add_child_old(w, p, bits, pi0, k, v, n, pi0);
            lemma_read_after_write(w, tw, k, v, Some(n), tw, k);
        }
    }
    assert forall|path: Seq<int>|
        index_path(path) && path.len() > 0 && #[trigger] valid_path(w, p, path)
            implies valid_path(w1, p, path) && entry_at(w1, table_at(w1, p, path.drop_last()), path.last())
                == entry_at(w, table_at(w, p, path.drop_last()), path.last()) by {
        let pre = path.drop_last();
        lemma_index_path_prefix(path);
        lemma_add_child_old(w, p, bits, pi0, k, v, n, path);
        assert(valid_path(w, p, pre));
        lemma_add_child_old(w, p, bits, pi0, k, v, n, pre);
        let t = table_at(w, p, pre);
        assert(tbl_ok(bits, t));
        lemma_table_in(bits, w, t);
        lemma_read_after_write(w, tw, k, v, Some(n), t, path.last());
    }
}

/// Writing an entry of a last-level table changes no entry that links a
/// table.
proof fn lemma_set_leaf_linked(w0: Seq<u64>, w: Seq<u64>, p: int, bits: Seq<bool>, pi0: Seq<int>, k: int, v: u64)
    requires
        pt_wf(w, p, bits),
        bits.len() * 512 <= w.len(),
        index_path(pi0),
        pi0.len() == 3,
        valid_path(w, p, pi0),
        0 <= k < 512,
        new_tables_linked(w0, w, p),
    ensures
        new_tables_linked(w0, w.update(table_at(w, p, pi0) / 8 + k, v), p),
        links_kept(w, w.update(table_at(w, p, pi0) / 8 + k, v), p),
{
    let w1 = w.update(table_at(w, p, pi0) / 8 + k, v);
    let tw = table_at(w, p, pi0);
    assert(tbl_ok(bits, tw));
    lemma_table_in(bits, w, tw);
    assert forall|path: Seq<int>|
        index_path(path) && path.len() > 0 && #[trigger] valid_path(w1, p, path) && !valid_path(w0, p, path)
            implies entry_at(w1, table_at(w1, p, path.drop_last()), path.last())
                == entry_value(table_at(w1, p, path) as u64, PAGE_PRESENT | PAGE_USER | PAGE_WRITABLE) by {
        let pre = path.drop_last();
        lemma_index_path_prefix(path);
        lemma_set_leaf_paths(w, p, bits, pi0, k, v, path);
        lemma_set_leaf_paths(w, p, bits, pi0, k, v, pre);
        assert(valid_path(w, p, pre));
        let t = table_at(w, p, pre);
        assert(tbl_ok(bits, t));
        lemma_table_in(bits, w, t);
        lemma_read_after_write(w, tw, k, v, None, t, path.last());
        if t == tw {
            assert(pre == pi0);
        }
    }
    assert forall|path: Seq<int>|
        index_path(path) && path.len() > 0 && #[trigger] valid_path(w, p, path)
            implies valid_path(w1, p, path) && entry_at(w1, table_at(w1, p, path.drop_last()), path.last())
                == entry_at(w, table_at(w, p, path.drop_last()), path.last()) by {
        let pre = path.drop_last();
        lemma_index_path_prefix(path);
        lemma_set_leaf_paths(w, p, bits, pi0, k, v, path);
        lemma_set_leaf_paths(w, p, bits, pi0, k, v, pre);
        assert(valid_path(w, p, pre));
        let t = table_at(w, p, pre);
        assert(tbl_ok(bits, t));
        lemma_table_in(bits, w, t);
        lemma_read_after_write(w, tw, k, v, None, t, path.last());
        if t == tw {
            assert(pre == pi0);
        }
    }
}

/// A present entry under a table reached by a path leads one step further.
proof fn lemma_child_path(w: Seq<u64>, p: int, pi0: Seq<int>, k: int)
    requires
        index_path(pi0),
        pi0.len() <= 2,
        valid_path(w, p, pi0),
        0 <= k < 512,
        present(entry_at(w, table_at(w, p, pi0), k)),
    ensures
        index_path(pi0.push(k)),
        valid_path(w, p, pi0.push(k)),
        table_at(w, p, pi0.push(k)) == frame_of(entry_at(w, table_at(w, p, pi0), k)),
{
    lemma_push_drop_last(pi0, k);
    assert forall|j: int| 0 <= j < pi0.push(k).len() implies 0 <= #[trigger] pi0.push(k)[j] < 512 by {
        if j < pi0.len() {
            assert(pi0.push(k)[j] == pi0[j]);
        }
    }
    assert(valid_path(w, p, pi0.push(k)));
}

/// A present entry under a table of the tree leads to a table of the tree.
proof fn lemma_child(w: Seq<u64>, p: int, bits: Seq<bool>, pi0: Seq<int>, k: int)
    requires
        pt_wf(w, p, bits),
        index_path(pi0),
        pi0.len() <= 2,
        valid_path(w, p, pi0),
        0 <= k < 512,
        present(entry_at(w, table_at(w, p, pi0), k)),
    ensures
        index_path(pi0.push(k)),
        valid_path(w, p, pi0.push(k)),
        table_at(w, p, pi0.push(k)) == frame_of(entry_at(w, table_at(w, p, pi0), k)),
        tbl_ok(bits, frame_of(entry_at(w, table_at(w, p, pi0), k))),
{
    lemma_child_path(w, p, pi0, k);
}

/// Every table reached from the top-level table at physical address `p` lies
/// in memory.
pub open spec fn tables_in(m: MemView, p: int) -> bool {
    forall|path: Seq<int>| index_path(path) && #[trigger] valid_path(m.words, p, path) ==> frame_in(m, table_at(m.words, p, path))
}

/// The tables of a tree of used pages lie in memory.
proof fn lemma_ready_tables_in(m: MemView, a: PhysMemView, pml4: u64)
    requires
        paging_ready(m, a, pml4),
    ensures
        tables_in(m, pml4 - m.hhdm),
{
    let p = pml4 - m.hhdm;
    let bits = a.bits.unwrap();
    assert forall|path: Seq<int>| index_path(path) && #[trigger] valid_path(m.words, p, path) implies frame_in(m, table_at(m.words, p, path)) by {
        assert(tbl_ok(bits, table_at(m.words, p, path)));
        lemma_table_in(bits, m.words, table_at(m.words, p, path));
    }
}

/// One step down the tree while mapping: the table under entry `index`,
/// created when missing. Fails only when no page can be allocated.
fn next_level_for_map(
    table: &mut PageEntry,
    index: usize,
    mem: &mut PhysMemory,
    allocator: &mut PhysMemAllocator,
    Ghost(p): Ghost<int>,
    Ghost(pi0): Ghost<Seq<int>>,
    Ghost(w0): Ghost<Seq<u64>>,
) -> (r: Option<PageEntry>)
    requires
        index < 512,
        new_tables_linked(w0, old(mem)@.words, p),
        links_kept(w0, old(mem)@.words, p),
        mem_ok(old(mem)@),
        frames_ok(old(allocator)@, old(mem)@),
        pt_wf(old(mem)@.words, p, old(allocator)@.bits.unwrap()),
        index_path(pi0),
        pi0.len() <= 2,
        valid_path(old(mem)@.words, p, pi0),
        old(table).entries.0 >= old(mem)@.hhdm,
        old(table).table(old(mem)@) == table_at(old(mem)@.words, p, pi0),
    ensures
        *final(table) == *old(table),
        final(mem)@.hhdm == old(mem)@.hhdm,
        final(mem)@.words.len() == old(mem)@.words.len(),
        mem_ok(final(mem)@),
        frames_ok(final(allocator)@, final(mem)@),
        pt_wf(final(mem)@.words, p, final(allocator)@.bits.unwrap()),
        final(allocator)@.bits.unwrap().len() == old(allocator)@.bits.unwrap().len(),
        forall|x: int| 0 <= x < old(allocator)@.bits.unwrap().len() && old(allocator)@.bits.unwrap()[x] ==> #[trigger] final(allocator)@.bits.unwrap()[x],
        old(allocator)@.list is None ==> final(allocator)@.list is None,
        r is None ==> out_of_pages(final(allocator)@, old(allocator)@.list is Some),
        r is None ==> alloc_page_spec(old(allocator)@).1 is None,
        r is Some ==> final(allocator)@ == old(allocator)@
            || (alloc_page_spec(old(allocator)@).1 is Some && final(allocator)@ == alloc_page_spec(old(allocator)@).0),
        forall|path: Seq<int>| index_path(path) && #[trigger] valid_path(old(mem)@.words, p, path)
            ==> valid_path(final(mem)@.words, p, path) && table_at(final(mem)@.words, p, path) == table_at(old(mem)@.words, p, path),
        forall|va: u64| #[trigger] mapping(final(mem)@.words, p, va) == mapping(old(mem)@.words, p, va),
        forall|va: u64| #[trigger] leaf_entry(old(mem)@.words, p, va) is Some ==> leaf_entry(final(mem)@.words, p, va) == leaf_entry(old(mem)@.words, p, va),
        new_tables_linked(w0, final(mem)@.words, p),
        links_kept(w0, final(mem)@.words, p),
        links_kept(old(mem)@.words, final(mem)@.words, p),
        new_used_are_tables(old(mem)@.words, old(allocator)@.bits.unwrap(), final(mem)@.words, final(allocator)@.bits.unwrap(), p),
        present(entry_at(old(mem)@.words, table_at(old(mem)@.words, p, pi0), index as int))
            ==> r is Some && final(mem)@ == old(mem)@ && final(allocator)@ == old(allocator)@,
        r matches Some(e) ==> {
            &&& index_path(pi0.push(index as int))
            &&& valid_path(final(mem)@.words, p, pi0.push(index as int))
            &&& e.entries.0 >= final(mem)@.hhdm
            &&& e.table(final(mem)@) == table_at(final(mem)@.words, p, pi0.push(index as int))
        },
{
    let ghost w = mem@.words;
    let ghost bits = allocator@.bits.unwrap();
    let ghost t = table_at(w, p, pi0);
    proof {
        assert(tbl_ok(bits, t));
        lemma_table_in(bits, w, t);
        if present(entry_at(w, t, index as int)) {
            lemma_child(w, p, bits, pi0, index as int);
            lemma_table_in(bits, w, table_at(w, p, pi0.push(index as int)));
        }
        lemma_alloc_frame(allocator@, mem@);
        lemma_alloc_failure(allocator@);
    }
    let r = table.from_previous_level(index, true, mem, allocator);
    proof {
        let e = entry_at(w, t, index as int);
        if present(e) {
            lemma_child(w, p, bits, pi0, index as int);
        } else if alloc_page_spec(old(allocator)@).1 is Some {
            let pa = alloc_page_spec(old(allocator)@).1.unwrap();
            lemma_entry_value_frame(pa.0);
            lemma_add_child(w, p, bits, pi0, index as int, entry_value(pa.0, PAGE_PRESENT | PAGE_USER | PAGE_WRITABLE), pa.0 as int);
            lemma_add_child_linked(w0, w, p, bits, pi0, index as int, pa.0 as int);
            lemma_links_kept_trans(w0, w, mem@.words, p);
            let path = pi0.push(index as int);
            lemma_push_drop_last(pi0, index as int);
            assert(!valid_path(w, p, path));
            assert(index_path(path)) by {
                assert forall|j: int| 0 <= j < path.len() implies 0 <= #[trigger] path[j] < 512 by {
                    if j < pi0.len() {
                        assert(path[j] == pi0[j]);
                    }
                }
            }
            assert forall|x: int| 0 <= x < bits.len() && !bits[x] && #[trigger] allocator@.bits.unwrap()[x]
                implies new_table_at(w, mem@.words, p, 4096 * x) by {
                assert(x == pa.0 as int / 4096);
                assert(4096 * x == pa.0);
                assert(valid_path(mem@.words, p, path));
            }
        }
    }
    r
}


/// Addresses that reach the same last-level entry lie in the same page.
proof fn lemma_same_slot(a: u64, b: u64)
    requires
        va_path(a) == va_path(b),
        pml1_index(a) == pml1_index(b),
    ensures
        page_number(a) == page_number(b),
{
    assert(va_path(a)[0] == va_path(b)[0]);
    assert(va_path(a)[1] == va_path(b)[1]);
    assert(va_path(a)[2] == va_path(b)[2]);
    assert((a >> 12u64) & 0xF_FFFF_FFFFu64 == (b >> 12u64) & 0xF_FFFF_FFFFu64) by (bit_vector)
        requires
            (a >> 39u64) & 0x1FFu64 == (b >> 39u64) & 0x1FFu64,
            (a >> 30u64) & 0x1FFu64 == (b >> 30u64) & 0x1FFu64,
            (a >> 21u64) & 0x1FFu64 == (b >> 21u64) & 0x1FFu64,
            (a >> 12u64) & 0x1FFu64 == (b >> 12u64) & 0x1FFu64;
}

/// The `j`-th page above `v` is `j` pages above it.
proof fn lemma_page_offset_step(v: u64, j: u64)
    requires
        v + 4096 * j <= u64::MAX,
        j < 0x10_0000_0000,
    ensures
        page_offset((v + 4096 * j) as u64, v) == j,
{
    let x = (v + 4096 * j) as u64;
    assert(x == v + 4096 * j);
    assert(j * 4096 == j << 12u64) by (bit_vector)
        requires j < 0x10_0000_0000u64;
    assert((((v + (j << 12u64)) as u64) >> 12u64) == (v >> 12u64) + j) by (bit_vector)
        requires v + (j << 12u64) <= 0xFFFF_FFFF_FFFF_FFFFu64, j < 0x10_0000_0000u64;
    let hv = (v >> 12u64) as int;
    let hx = (x >> 12u64) as int;
    assert(hx == hv + j);
    assert((x >> 12u64) & 0xF_FFFF_FFFFu64 == (x >> 12u64) % 0x10_0000_0000u64) by (bit_vector);
    assert((v >> 12u64) & 0xF_FFFF_FFFFu64 == (v >> 12u64) % 0x10_0000_0000u64) by (bit_vector);
    let m = 0x10_0000_0000int;
    assert(page_number(x) == hx % m);
    assert(page_number(v) == hv % m);
    vstd::arithmetic::div_mod::lemma_mod_adds(hv, j as int, m);
    vstd::arithmetic::div_mod::lemma_small_mod(j as nat, m as nat);
    vstd::arithmetic::div_mod::lemma_mod_bound(hv, m);
    assert((hv + j) % m == (hv % m + j) % m) by {
        vstd::arithmetic::div_mod::lemma_add_mod_noop(hv, j as int, m);
    }
    vstd::arithmetic::div_mod::lemma_mod_sub_multiples_vanish(page_number(x) - page_number(v) + m, m);
    assert(page_number(x) - page_number(v) + m == (hv % m + j) % m - hv % m + m);
    if hv % m + j < m {
        vstd::arithmetic::div_mod::lemma_small_mod((hv % m + j) as nat, m as nat);
        vstd::arithmetic::div_mod::lemma_mod_multiples_vanish(1, j as int, m);
    } else {
        vstd::arithmetic::div_mod::lemma_mod_sub_multiples_vanish(hv % m + j, m);
        vstd::arithmetic::div_mod::lemma_small_mod((hv % m + j - m) as nat, m as nat);
        vstd::arithmetic::div_mod::lemma_small_mod(j as nat, m as nat);
    }
}


/// The first `d` pages from `virt` map the first `d` frames from `phys`
/// with `flags`.
pub open spec fn mapped_upto(w: Seq<u64>, p: int, virt: u64, phys: u64, flags: u8, d: int) -> bool {
    forall|j: int| 0 <= j < d ==> #[trigger] leaf_entry(w, p, (virt + 4096 * j) as u64) == Some(entry_value((phys + 4096 * j) as u64, flags))
}

/// What mapping tables needs: memory and its direct map fit, the allocator
/// can hand out frames, and the tables under the top-level table at virtual
/// address `pml4` form a tree of used pages.
pub open spec fn paging_ready(m: MemView, a: PhysMemView, pml4: u64) -> bool {
    &&& mem_ok(m)
    &&& frames_ok(a, m)
    &&& pml4 >= m.hhdm
    &&& pt_wf(m.words, pml4 - m.hhdm, a.bits.unwrap())
}

/// Mapping keeps the tables a tree, only ever marks pages used, never brings
/// back a dropped free list, and keeps the allocator able to hand out frames.
pub open spec fn paging_kept(m0: MemView, a0: PhysMemView, m1: MemView, a1: PhysMemView, pml4: u64) -> bool {
    &&& m1.hhdm == m0.hhdm
    &&& m1.words.len() == m0.words.len()
    &&& paging_ready(m1, a1, pml4)
    &&& a1.bits.unwrap().len() == a0.bits.unwrap().len()
    &&& forall|x: int| 0 <= x < a0.bits.unwrap().len() && a0.bits.unwrap()[x] ==> #[trigger] a1.bits.unwrap()[x]
    &&& a0.list is None ==> a1.list is None
}

/// Among pages `1 .. n` from `virt`, how many start a 2 MiB block (their
/// last-level index is 0).
pub open spec fn block_starts(virt: u64, n: int) -> int
    decreases n,
{
    if n <= 1 {
        0
    } else {
        block_starts(virt, n - 1) + if pml1_index((virt + 4096 * (n - 1)) as u64) == 0 { 1int } else { 0int }
    }
}

/// The pages that mapping `n` pages from `virt` under the tables in `w` may
/// take for new tables: three for the first page unless its tables are all
/// there, and three for each further page that starts a 2 MiB block.
pub open spec fn map_need(w: Seq<u64>, p: int, virt: u64, n: int) -> nat {
    if n <= 0 {
        0
    } else {
        ((if valid_path(w, p, va_path(virt)) { 0int } else { 3int }) + 3 * block_starts(virt, n)) as nat
    }
}

/// The pages that mapping `n` pages from `virt` may take for new tables,
/// whatever tables are there: three, and three for each further page that
/// starts a 2 MiB block.
pub open spec fn map_budget(virt: u64, n: int) -> nat {
    if n <= 0 {
        0
    } else {
        (3 + 3 * block_starts(virt, n)) as nat
    }
}

proof fn lemma_block_starts_nonneg(virt: u64, n: int)
    ensures
        block_starts(virt, n) >= 0,
    decreases n,
{
    if n > 1 {
        lemma_block_starts_nonneg(virt, n - 1);
    }
}

proof fn lemma_block_starts_mono(virt: u64, i: int, j: int)
    requires
        i <= j,
    ensures
        0 <= block_starts(virt, i) <= block_starts(virt, j),
    decreases j - i,
{
    lemma_block_starts_nonneg(virt, i);
    if j > i {
        lemma_block_starts_mono(virt, i, j - 1);
    }
}

/// Mapping more pages may need more tables.
proof fn lemma_map_need_mono(w: Seq<u64>, p: int, virt: u64, i: int, j: int)
    requires
        i <= j,
    ensures
        map_need(w, p, virt, i) <= map_need(w, p, virt, j),
        map_need(w, p, virt, j) <= map_budget(virt, j),
{
    lemma_block_starts_mono(virt, i, j);
}

/// Among `n` pages, at most one in 512 after the first starts a 2 MiB block.
pub proof fn lemma_block_starts_bound(virt: u64, n: int)
    requires
        n >= 1,
        virt + 4096 * (n - 1) <= u64::MAX,
    ensures
        block_starts(virt, n) == (pml1_index(virt) + n - 1) / 512,
        map_budget(virt, n) <= 3 + 3 * ((n + 510) / 512),
    decreases n,
{
    let s = pml1_index(virt);
    assert(0 <= s < 512) by {
        assert((virt >> 12u64) & 0x1FFu64 <= 511u64) by (bit_vector);
    }
    if n > 1 {
        lemma_block_starts_bound(virt, n - 1);
        let a = (virt + 4096 * (n - 2)) as u64;
        let b = (virt + 4096 * (n - 1)) as u64;
        assert(b == a + 4096);
        lemma_pml1_step(virt, (n - 1) as u64);
        assert(pml1_index(b) == (s + n - 1) % 512);
        assert((s + n - 1) / 512 == (s + n - 2) / 512 + if (s + n - 1) % 512 == 0 { 1int } else { 0int }) by {
            vstd::arithmetic::div_mod::lemma_fundamental_div_mod(s + n - 1, 512);
            vstd::arithmetic::div_mod::lemma_fundamental_div_mod(s + n - 2, 512);
        }
    }
    assert((s + n - 1) / 512 <= (n + 510) / 512) by {
        vstd::arithmetic::div_mod::lemma_div_is_ordered(s + n - 1, n + 510, 512);
    }
}

/// The last-level index of the `j`-th page from `virt`.
proof fn lemma_pml1_step(virt: u64, j: u64)
    requires
        virt + 4096 * j <= u64::MAX,
    ensures
        pml1_index((virt + 4096 * j) as u64) == (pml1_index(virt) + j) % 512,
    decreases j,
{
    if j > 0 {
        lemma_pml1_step(virt, (j - 1) as u64);
        let a = (virt + 4096 * (j - 1)) as u64;
        assert((((a + 4096) as u64) >> 12u64) & 0x1FFu64 == (((a >> 12u64) & 0x1FFu64) + 1) % 512) by (bit_vector)
            requires a + 4096 <= u64::MAX;
        assert((a + 4096) as u64 == (virt + 4096 * j) as u64);
    } else {
        assert((virt + 4096 * 0) as u64 == virt);
        assert(pml1_index(virt) % 512 == pml1_index(virt)) by {
            assert((virt >> 12u64) & 0x1FFu64 <= 511u64) by (bit_vector);
        }
    }
}

/// The page after one that does not end a 2 MiB block has the same tables.
proof fn lemma_same_block_path(a: u64)
    requires
        a >= 4096,
        pml1_index(a) != 0,
    ensures
        va_path((a - 4096) as u64) == va_path(a),
{
    let b = (a - 4096) as u64;
    assert((b >> 39u64) & 0x1FFu64 == (a >> 39u64) & 0x1FFu64 && (b >> 30u64) & 0x1FFu64 == (a >> 30u64) & 0x1FFu64
        && (b >> 21u64) & 0x1FFu64 == (a >> 21u64) & 0x1FFu64) by (bit_vector)
        requires a >= 4096u64, b == a - 4096u64, (a >> 12u64) & 0x1FFu64 != 0u64;
    assert(va_path(b) =~= va_path(a));
}

/// The tables on the way to a page whose last-level table is reached are
/// all present.
proof fn lemma_valid_prefixes(w: Seq<u64>, p: int, va: u64)
    requires
        valid_path(w, p, va_path(va)),
    ensures
        present(entry_at(w, table_at(w, p, Seq::<int>::empty()), pml4_index(va))),
        present(entry_at(w, table_at(w, p, seq![pml4_index(va)]), pml3_index(va))),
        present(entry_at(w, table_at(w, p, seq![pml4_index(va), pml3_index(va)]), pml2_index(va))),
{
    let p3 = va_path(va);
    let p2 = seq![pml4_index(va), pml3_index(va)];
    let p1 = seq![pml4_index(va)];
    assert(p3.drop_last() =~= p2);
    assert(p2.drop_last() =~= p1);
    assert(p1.drop_last() =~= Seq::<int>::empty());
    assert(valid_path(w, p, p2));
    assert(valid_path(w, p, p1));
}

/// One more page to map: the tables it may take stay within the budget, and
/// it takes none when its tables are all there.
proof fn lemma_map_need_step(w0: Seq<u64>, wa: Seq<u64>, p: int, virt: u64, i: int, n: int, m: int)
    requires
        0 <= i < n,
        virt + 4096 * (n - 1) <= u64::MAX,
        0 <= m <= map_need(w0, p, virt, i),
        i == 0 ==> wa == w0,
        i > 0 ==> valid_path(wa, p, va_path((virt + 4096 * (i - 1)) as u64)),
    ensures
        m <= map_need(w0, p, virt, i + 1),
        map_need(w0, p, virt, i + 1) <= map_need(w0, p, virt, n),
        valid_path(wa, p, va_path((virt + 4096 * i) as u64)) || m + 3 <= map_need(w0, p, virt, i + 1),
{
    lemma_map_need_mono(w0, p, virt, i + 1, n);
    lemma_map_need_mono(w0, p, virt, i, i + 1);
    let a = (virt + 4096 * i) as u64;
    lemma_block_starts_nonneg(virt, i);
    if i == 0 {
        assert(a == virt);
    } else if pml1_index(a) != 0 {
        lemma_same_block_path(a);
        assert((a - 4096) as u64 == (virt + 4096 * (i - 1)) as u64);
    }
}

/// Maps `num_pages` pages from `virt` to `phys` with `flags` in the tables
/// under `pml4_addr`, creating missing tables, each zeroed and linked in by a
/// present, writable, user entry. On success each page's last level entry
/// maps its frame; either way, no address outside the range changes its
/// mapping. It succeeds whenever the allocator can hand out the pages
/// `map_need` counts (three for each 2 MiB block the range enters). Running
/// out of pages for a table is reported by `false`, with the allocator left
/// out of pages, not by a panic.
pub fn map_pages(
    pml4_addr: VirtAddr,
    virt: VirtAddr,
    phys: PhyAddr,
    num_pages: u64,
    flags: u8,
    mem: &mut PhysMemory,
    allocator: &mut PhysMemAllocator,
) -> (mapped: bool)
    requires
        paging_ready(old(mem)@, old(allocator)@, pml4_addr.0),
        num_pages <= 0x10_0000_0000,
        num_pages == 0 || virt.0 + 4096 * (num_pages - 1) <= u64::MAX,
        num_pages == 0 || phys.0 + 4096 * (num_pages - 1) <= u64::MAX,
    ensures
        paging_kept(old(mem)@, old(allocator)@, final(mem)@, final(allocator)@, pml4_addr.0),
        mapped ==> mapped_upto(final(mem)@.words, pml4_addr.0 - final(mem)@.hhdm, virt.0, phys.0, flags, num_pages as int),
        !mapped ==> exists|d: int| 0 <= d < num_pages && #[trigger] mapped_upto(final(mem)@.words, pml4_addr.0 - final(mem)@.hhdm, virt.0, phys.0, flags, d),
        !mapped ==> out_of_pages(final(allocator)@, old(allocator)@.list is Some),
        forall|k: nat| k >= map_need(old(mem)@.words, pml4_addr.0 - old(mem)@.hhdm, virt.0, num_pages as int) && #[trigger] can_alloc(old(allocator)@, k)
            ==> mapped && can_alloc(final(allocator)@, (k - map_need(old(mem)@.words, pml4_addr.0 - old(mem)@.hhdm, virt.0, num_pages as int)) as nat),
        counts_exact(old(allocator)@) && old(allocator)@.free_pages >= map_need(old(mem)@.words, pml4_addr.0 - old(mem)@.hhdm, virt.0, num_pages as int) ==> mapped,
        forall|va: u64| page_offset(va, virt.0) >= num_pages ==> #[trigger] mapping(final(mem)@.words, pml4_addr.0 - final(mem)@.hhdm, va)
            == mapping(old(mem)@.words, pml4_addr.0 - old(mem)@.hhdm, va),
        forall|va: u64| page_offset(va, virt.0) >= num_pages && leaf_entry(old(mem)@.words, pml4_addr.0 - old(mem)@.hhdm, va) is Some
            ==> #[trigger] leaf_entry(final(mem)@.words, pml4_addr.0 - final(mem)@.hhdm, va) == leaf_entry(old(mem)@.words, pml4_addr.0 - old(mem)@.hhdm, va),
        new_tables_linked(old(mem)@.words, final(mem)@.words, pml4_addr.0 - old(mem)@.hhdm),
        links_kept(old(mem)@.words, final(mem)@.words, pml4_addr.0 - old(mem)@.hhdm),
        new_used_are_tables(old(mem)@.words, old(allocator)@.bits.unwrap(), final(mem)@.words, final(allocator)@.bits.unwrap(),
            pml4_addr.0 - old(mem)@.hhdm),
{
    let ghost p = pml4_addr.0 - mem@.hhdm;
    let ghost w0 = mem@.words;
    let ghost a0 = allocator@;
    proof {
        if counts_exact(allocator@) && allocator@.free_pages >= map_need(w0, p, virt.0, num_pages as int) {
            lemma_free_pages_can_alloc(allocator@, map_need(w0, p, virt.0, num_pages as int));
        }
    }
    let mut pml4 = PageEntry::from(pml4_addr);
    let mut i: u64 = 0;
    let ghost mut m: int = 0;
    while i < num_pages
        invariant
            0 <= m <= map_need(w0, p, virt.0, i as int),
            counts_exact(a0) && a0.free_pages >= map_need(w0, p, virt.0, num_pages as int) ==> can_alloc(a0, map_need(w0, p, virt.0, num_pages as int)),
            i == 0 ==> mem@.words == w0,
            forall|k: nat| k >= m && #[trigger] can_alloc(a0, k) ==> can_alloc(allocator@, (k - m) as nat),
            pml4.entries == pml4_addr,
            p == pml4_addr.0 - mem@.hhdm,
            i <= num_pages,
            num_pages <= 0x10_0000_0000,
            num_pages == 0 || virt.0 + 4096 * (num_pages - 1) <= u64::MAX,
            num_pages == 0 || phys.0 + 4096 * (num_pages - 1) <= u64::MAX,
            mem@.hhdm == old(mem)@.hhdm,
            paging_kept(old(mem)@, a0, mem@, allocator@, pml4_addr.0),
            a0 == old(allocator)@,
            w0 == old(mem)@.words,
            forall|j: int| 0 <= j < i ==> #[trigger] leaf_entry(mem@.words, p, (virt.0 + 4096 * j) as u64)
                == Some(entry_value((phys.0 + 4096 * j) as u64, flags)),
            forall|va: u64| page_offset(va, virt.0) >= i ==> #[trigger] mapping(mem@.words, p, va) == mapping(w0, p, va),
            forall|va: u64| page_offset(va, virt.0) >= i && leaf_entry(w0, p, va) is Some ==> #[trigger] leaf_entry(mem@.words, p, va) == leaf_entry(w0, p, va),
            new_tables_linked(w0, mem@.words, p),
            links_kept(w0, mem@.words, p),
            new_used_are_tables(w0, a0.bits.unwrap(), mem@.words, allocator@.bits.unwrap(), p),
        decreases num_pages - i,
    {
        let addr: u64 = virt.0 + 0x1000 * i;
        let ghost wa = mem@.words;
        let ghost path = va_path(addr);
        let ghost path0 = Seq::<int>::empty();
        let ghost path1 = seq![pml4_index(addr)];
        let ghost path2 = seq![pml4_index(addr), pml3_index(addr)];
        proof {
            lemma_va_path_index(addr);
            assert(table_at(wa, p, Seq::<int>::empty()) == p);
            assert(valid_path(wa, p, Seq::<int>::empty()));
            assert(index_path(Seq::<int>::empty()));
        }
        let ghost fresh = valid_path(wa, p, path);
        let ghost room = map_need(w0, p, virt.0, i as int + 1);
        let ghost m0 = m;
        proof {
            if i > 0 {
                assert(leaf_entry(wa, p, (virt.0 + 4096 * (i - 1)) as u64) is Some);
            }
            lemma_map_need_step(w0, wa, p, virt.0, i as int, num_pages as int, m);
            assert(addr == (virt.0 + 4096 * i) as u64);
            if fresh {
                lemma_valid_prefixes(wa, p, addr);
            }
        }
        let ghost wpre = mem@.words;
        let ghost apre = allocator@;
        let ghost mpre = m;
        let step = next_level_for_map(&mut pml4, ((addr >> 39) & 0x1FF) as usize, mem, allocator, Ghost(p), Ghost(path0), Ghost(w0));
        proof {
            lemma_new_used_trans(w0, a0.bits.unwrap(), wpre, apre.bits.unwrap(), mem@.words, allocator@.bits.unwrap(), p);
            assert forall|va: u64| page_offset(va, virt.0) >= i && leaf_entry(w0, p, va) is Some implies #[trigger] leaf_entry(mem@.words, p, va) == leaf_entry(w0, p, va) by {
                assert(leaf_entry(wpre, p, va) is Some);
            }
        }
        let mut pml3 = match step {
            Some(t) => t,
            None => {
                proof {
                    assert forall|k: nat| k >= map_need(w0, p, virt.0, num_pages as int) && #[trigger] can_alloc(a0, k) implies false by {
                        assert(can_alloc(apre, (k - mpre) as nat));
                    }
                }
                assert forall|j: int| 0 <= j < i implies #[trigger] leaf_entry(mem@.words, p, (virt.0 + 4096 * j) as u64)
                    == Some(entry_value((phys.0 + 4096 * j) as u64, flags)) by {
                    assert(leaf_entry(wa, p, (virt.0 + 4096 * j) as u64) is Some);
                    assert(leaf_entry(wpre, p, (virt.0 + 4096 * j) as u64) == leaf_entry(wa, p, (virt.0 + 4096 * j) as u64));
                }
                assert(mapped_upto(mem@.words, p, virt.0, phys.0, flags, i as int));
                return false;
            },
        };
        proof {
            if allocator@ != apre {
                m = m + 1;
            }
            assert forall|k: nat| k >= m && #[trigger] can_alloc(a0, k) implies can_alloc(allocator@, (k - m) as nat) by {
                assert(can_alloc(apre, (k - mpre) as nat));
            }
        }
        proof {
            assert(path0.push(pml4_index(addr)) =~= path1);
        }
        let ghost wb = mem@.words;
        let ghost wpre = mem@.words;
        let ghost apre = allocator@;
        let ghost mpre = m;
        let step = next_level_for_map(&mut pml3, ((addr >> 30) & 0x1FF) as usize, mem, allocator, Ghost(p), Ghost(path1), Ghost(w0));
        proof {
            lemma_new_used_trans(w0, a0.bits.unwrap(), wpre, apre.bits.unwrap(), mem@.words, allocator@.bits.unwrap(), p);
            assert forall|va: u64| page_offset(va, virt.0) >= i && leaf_entry(w0, p, va) is Some implies #[trigger] leaf_entry(mem@.words, p, va) == leaf_entry(w0, p, va) by {
                assert(leaf_entry(wpre, p, va) is Some);
            }
        }
        let mut pml2 = match step {
            Some(t) => t,
            None => {
                proof {
                    assert forall|k: nat| k >= map_need(w0, p, virt.0, num_pages as int) && #[trigger] can_alloc(a0, k) implies false by {
                        assert(can_alloc(apre, (k - mpre) as nat));
                    }
                }
                assert forall|j: int| 0 <= j < i implies #[trigger] leaf_entry(mem@.words, p, (virt.0 + 4096 * j) as u64)
                    == Some(entry_value((phys.0 + 4096 * j) as u64, flags)) by {
                    assert(leaf_entry(wa, p, (virt.0 + 4096 * j) as u64) is Some);
                    assert(leaf_entry(wpre, p, (virt.0 + 4096 * j) as u64) == leaf_entry(wa, p, (virt.0 + 4096 * j) as u64));
                }
                assert(mapped_upto(mem@.words, p, virt.0, phys.0, flags, i as int));
                return false;
            },
        };
        proof {
            if allocator@ != apre {
                m = m + 1;
            }
            assert forall|k: nat| k >= m && #[trigger] can_alloc(a0, k) implies can_alloc(allocator@, (k - m) as nat) by {
                assert(can_alloc(apre, (k - mpre) as nat));
            }
        }
        proof {
            assert(path1.push(pml3_index(addr)) =~= path2);
        }
        let ghost wc = mem@.words;
        let ghost wpre = mem@.words;
        let ghost apre = allocator@;
        let ghost mpre = m;
        let step = next_level_for_map(&mut pml2, ((addr >> 21) & 0x1FF) as usize, mem, allocator, Ghost(p), Ghost(path2), Ghost(w0));
        proof {
            lemma_new_used_trans(w0, a0.bits.unwrap(), wpre, apre.bits.unwrap(), mem@.words, allocator@.bits.unwrap(), p);
            assert forall|va: u64| page_offset(va, virt.0) >= i && leaf_entry(w0, p, va) is Some implies #[trigger] leaf_entry(mem@.words, p, va) == leaf_entry(w0, p, va) by {
                assert(leaf_entry(wpre, p, va) is Some);
            }
        }
        let mut pml1 = match step {
            Some(t) => t,
            None => {
                proof {
                    assert forall|k: nat| k >= map_need(w0, p, virt.0, num_pages as int) && #[trigger] can_alloc(a0, k) implies false by {
                        assert(can_alloc(apre, (k - mpre) as nat));
                    }
                }
                assert forall|j: int| 0 <= j < i implies #[trigger] leaf_entry(mem@.words, p, (virt.0 + 4096 * j) as u64)
                    == Some(entry_value((phys.0 + 4096 * j) as u64, flags)) by {
                    assert(leaf_entry(wa, p, (virt.0 + 4096 * j) as u64) is Some);
                    assert(leaf_entry(wpre, p, (virt.0 + 4096 * j) as u64) == leaf_entry(wa, p, (virt.0 + 4096 * j) as u64));
                }
                assert(mapped_upto(mem@.words, p, virt.0, phys.0, flags, i as int));
                return false;
            },
        };
        proof {
            if allocator@ != apre {
                m = m + 1;
            }
            assert forall|k: nat| k >= m && #[trigger] can_alloc(a0, k) implies can_alloc(allocator@, (k - m) as nat) by {
                assert(can_alloc(apre, (k - mpre) as nat));
            }
        }
        let ghost wd = mem@.words;
        proof {
            assert(path2.push(pml2_index(addr)) =~= path);
            let bits = allocator@.bits.unwrap();
            assert(tbl_ok(bits, table_at(wd, p, path)));
            lemma_table_in(bits, wd, table_at(wd, p, path));
        }
        let frame: u64 = phys.0 + 0x1000 * i;
        pml1.set(((addr >> 12) & 0x1FF) as usize, frame, flags, mem);
        proof {
            let bits = allocator@.bits.unwrap();
            let v = entry_value(frame, flags);
            lemma_set_leaf(wd, p, bits, path, pml1_index(addr), v);
            lemma_set_leaf_linked(w0, wd, p, bits, path, pml1_index(addr), v);
            lemma_links_kept_trans(w0, wd, mem@.words, p);
            lemma_new_used_trans(w0, a0.bits.unwrap(), wd, bits, mem@.words, bits, p);
            lemma_page_offset_step(virt.0, i);
            assert forall|j: int| 0 <= j < i + 1 implies #[trigger] leaf_entry(mem@.words, p, (virt.0 + 4096 * j) as u64)
                == Some(entry_value((phys.0 + 4096 * j) as u64, flags)) by {
                let vj = (virt.0 + 4096 * j) as u64;
                if j == i {
                    assert(vj == addr);
                    assert(leaf_entry(mem@.words, p, addr) == Some(v));
                } else {
                    lemma_page_offset_step(virt.0, j as u64);
                    assert(leaf_entry(wa, p, vj) is Some);
                    assert(leaf_entry(wb, p, vj) == leaf_entry(wa, p, vj));
                    assert(leaf_entry(wc, p, vj) == leaf_entry(wa, p, vj));
                    assert(leaf_entry(wd, p, vj) == leaf_entry(wa, p, vj));
                    if va_path(vj) == path && pml1_index(vj) == pml1_index(addr) {
                        lemma_same_slot(vj, addr);
                    }
                }
            }
            assert forall|va: u64| page_offset(va, virt.0) >= i + 1 implies #[trigger] mapping(mem@.words, p, va) == mapping(w0, p, va) by {
                if va_path(va) == path && pml1_index(va) == pml1_index(addr) {
                    lemma_same_slot(va, addr);
                }
                assert(mapping(wd, p, va) == mapping(wa, p, va));
            }
            assert forall|va: u64| page_offset(va, virt.0) >= i + 1 && leaf_entry(w0, p, va) is Some implies #[trigger] leaf_entry(mem@.words, p, va) == leaf_entry(w0, p, va) by {
                if va_path(va) == path && pml1_index(va) == pml1_index(addr) {
                    lemma_same_slot(va, addr);
                }
                assert(leaf_entry(wa, p, va) is Some);
                assert(leaf_entry(wb, p, va) == leaf_entry(wa, p, va));
                assert(leaf_entry(wc, p, va) == leaf_entry(wa, p, va));
                assert(leaf_entry(wd, p, va) == leaf_entry(wa, p, va));
            }
        }
        proof {
            assert(m <= room);
        }
        i = i + 1;
    }
    proof {
        let need = map_need(w0, p, virt.0, num_pages as int);
        assert forall|k: nat| k >= need && #[trigger] can_alloc(a0, k)
            implies can_alloc(allocator@, (k - need) as nat) by {
            lemma_can_alloc_fewer(allocator@, (k - m) as nat, (k - need) as nat);
        }
    }
    true
}


impl PageEntry {
    /// Whether `addr` is mapped in the tables under `pml4_addr`: every table
    /// on its path is present and so is its last-level entry.
    pub fn is_mapped(pml4_addr: VirtAddr, addr: VirtAddr, mem: &mut PhysMemory, allocator: &mut PhysMemAllocator) -> (r: bool)
        requires
            mem_ok(old(mem)@),
            pml4_addr.0 >= old(mem)@.hhdm,
            tables_in(old(mem)@, pml4_addr.0 - old(mem)@.hhdm),
        ensures
            r == mapping(old(mem)@.words, pml4_addr.0 - old(mem)@.hhdm, addr.0) is Some,
            final(mem)@ == old(mem)@,
            final(allocator)@ == old(allocator)@,
    {
        let ghost w = mem@.words;
        let ghost p = pml4_addr.0 - mem@.hhdm;
        let va: u64 = addr.0;
        let ghost path0 = Seq::<int>::empty();
        let ghost path1 = seq![pml4_index(va)];
        let ghost path2 = seq![pml4_index(va), pml3_index(va)];
        let ghost path3 = va_path(va);
        proof {
            lemma_va_path_index(va);
            assert(path0.push(pml4_index(va)) =~= path1);
            assert(path1.push(pml3_index(va)) =~= path2);
            assert(path2.push(pml2_index(va)) =~= path3);
            lemma_push_drop_last(path0, pml4_index(va));
            lemma_push_drop_last(path1, pml3_index(va));
            lemma_push_drop_last(path2, pml2_index(va));
            assert(valid_path(w, p, path0));
            assert(index_path(path0));
            assert(frame_in(mem@, table_at(w, p, path0)));
            if present(entry_at(w, p, pml4_index(va))) {
                lemma_child_path(w, p, path0, pml4_index(va));
                assert(frame_in(mem@, table_at(w, p, path1)));
            }
        }
        let mut pml4 = PageEntry::from(pml4_addr);
        let mut pml3 = match pml4.from_previous_level(((va >> 39) & 0x1FF) as usize, false, mem, allocator) {
            Some(t) => t,
            None => {
                assert(!valid_path(w, p, path1));
                assert(!valid_path(w, p, path2));
                assert(!valid_path(w, p, path3));
                return false;
            },
        };
        proof {
            lemma_child_path(w, p, path0, pml4_index(va));
            if present(entry_at(w, table_at(w, p, path1), pml3_index(va))) {
                lemma_child_path(w, p, path1, pml3_index(va));
                assert(frame_in(mem@, table_at(w, p, path2)));
            }
        }
        let mut pml2 = match pml3.from_previous_level(((va >> 30) & 0x1FF) as usize, false, mem, allocator) {
            Some(t) => t,
            None => {
                assert(!valid_path(w, p, path2));
                assert(!valid_path(w, p, path3));
                return false;
            },
        };
        proof {
            lemma_child_path(w, p, path1, pml3_index(va));
            if present(entry_at(w, table_at(w, p, path2), pml2_index(va))) {
                lemma_child_path(w, p, path2, pml2_index(va));
                assert(frame_in(mem@, table_at(w, p, path3)));
            }
        }
        let pml1 = match pml2.from_previous_level(((va >> 21) & 0x1FF) as usize, false, mem, allocator) {
            Some(t) => t,
            None => {
                assert(!valid_path(w, p, path3));
                return false;
            },
        };
        proof {
            lemma_child_path(w, p, path2, pml2_index(va));
        }
        pml1.is_present(((va >> 12) & 0x1FF) as usize, mem)
    }
}


/// Offsets from the `i`-th page above `v` are offsets from `v` less `i`.
proof fn lemma_offset_shift(va: u64, v: u64, i: u64)
    requires
        v + 4096 * i <= u64::MAX,
        i < 0x10_0000_0000,
    ensures
        page_offset(va, (v + 4096 * i) as u64) == (page_offset(va, v) - i + 0x10_0000_0000) % 0x10_0000_0000,
{
    let m = 0x10_0000_0000int;
    let vi = (v + 4096 * i) as u64;
    lemma_page_offset_step(v, i);
    assert((va >> 12u64) & 0xF_FFFF_FFFFu64 <= 0xF_FFFF_FFFFu64) by (bit_vector);
    assert((v >> 12u64) & 0xF_FFFF_FFFFu64 <= 0xF_FFFF_FFFFu64) by (bit_vector);
    assert((vi >> 12u64) & 0xF_FFFF_FFFFu64 <= 0xF_FFFF_FFFFu64) by (bit_vector);
    let a = page_number(va);
    let b = page_number(v);
    let c = page_number(vi);
    assert(0 <= a < m && 0 <= b < m && 0 <= c < m);
    assert((c - b + m) % m == i);
    if c >= b {
        assert((c - b + m) % m == c - b) by {
            vstd::arithmetic::div_mod::lemma_mod_sub_multiples_vanish(c - b + m, m);
            vstd::arithmetic::div_mod::lemma_small_mod((c - b) as nat, m as nat);
        }
        assert(c == b + i);
    } else {
        vstd::arithmetic::div_mod::lemma_small_mod((c - b + m) as nat, m as nat);
        assert(c == b + i - m);
    }
    let o = (a - b + m) % m;
    if a >= b {
        vstd::arithmetic::div_mod::lemma_mod_sub_multiples_vanish(a - b + m, m);
        vstd::arithmetic::div_mod::lemma_small_mod((a - b) as nat, m as nat);
        assert(o == a - b);
    } else {
        vstd::arithmetic::div_mod::lemma_small_mod((a - b + m) as nat, m as nat);
        assert(o == a - b + m);
    }
    let lhs = (a - c + m) % m;
    let rhs = (o - i + m) % m;
    // Both sides name the same residue of a - b - i.
    assert((a - c + m) - (o - i + m) == (b + i - c) - (o - (a - b)));
    let d = (a - c + m) - (o - i + m);
    assert(d == 0 || d == m || d == -m || d == 2 * m || d == -2 * m);
    if d == 0 {
    } else if d == m {
        vstd::arithmetic::div_mod::lemma_mod_add_multiples_vanish(o - i + m, m);
    } else if d == -m {
        vstd::arithmetic::div_mod::lemma_mod_add_multiples_vanish(a - c + m, m);
    } else if d == 2 * m {
        vstd::arithmetic::div_mod::lemma_mod_add_multiples_vanish(o - i + m, m);
        vstd::arithmetic::div_mod::lemma_mod_add_multiples_vanish(o - i + 2 * m, m);
    } else {
        vstd::arithmetic::div_mod::lemma_mod_add_multiples_vanish(a - c + m, m);
        vstd::arithmetic::div_mod::lemma_mod_add_multiples_vanish(a - c + 2 * m, m);
    }
}


/// Marking more pages used keeps a tree of used pages a tree of used pages.
proof fn lemma_pt_wf_more_used(w: Seq<u64>, p: int, bits: Seq<bool>, bits2: Seq<bool>)
    requires
        pt_wf(w, p, bits),
        bits2.len() == bits.len(),
        forall|x: int| 0 <= x < bits.len() && bits[x] ==> #[trigger] bits2[x],
    ensures
        pt_wf(w, p, bits2),
{
    assert forall|path: Seq<int>| index_path(path) && #[trigger] valid_path(w, p, path) implies tbl_ok(bits2, table_at(w, p, path)) by {
        assert(tbl_ok(bits, table_at(w, p, path)));
    }
}

/// After backing pages, page `va` keeps the mapping it had in `w0`, or, if it
/// had none, maps with `flags` a page frame `f` that the allocator had free
/// (in `b0`) and now counts as used (in `b1`).
pub open spec fn backed(w0: Seq<u64>, b0: Seq<bool>, w1: Seq<u64>, b1: Seq<bool>, p: int, va: u64, flags: u8) -> bool {
    &&& mapping(w0, p, va) is Some ==> mapping(w1, p, va) == mapping(w0, p, va)
    &&& mapping(w0, p, va) is None ==> exists|f: u64| #![trigger entry_value(f, flags)] {
        &&& f % 4096 == 0
        &&& f as int / 4096 < b0.len()
        &&& !b0[f as int / 4096]
        &&& b1[f as int / 4096]
        &&& leaf_entry(w1, p, va) == Some(entry_value(f, flags))
    }
}

/// The first `d` pages from `virt` are backed (see `backed`).
pub open spec fn backed_upto(w0: Seq<u64>, b0: Seq<bool>, w1: Seq<u64>, b1: Seq<bool>, p: int, virt: u64, flags: u8, d: int) -> bool {
    forall|j: int| 0 <= j < d ==> #[trigger] backed(w0, b0, w1, b1, p, (virt + 4096 * j) as u64, flags)
}

/// The frame that the last-level entry for `va` points to.
pub open spec fn leaf_frame(w: Seq<u64>, p: int, va: u64) -> int {
    frame_of(leaf_entry(w, p, va).unwrap())
}

/// Among the first `d` pages from `virt`, those that `w0` left unmapped point
/// in `w1` to pairwise different frames.
pub open spec fn new_frames_distinct(w0: Seq<u64>, w1: Seq<u64>, p: int, virt: u64, d: int) -> bool {
    forall|j1: int, j2: int|
        0 <= j1 < j2 < d && mapping(w0, p, (virt + 4096 * j1) as u64) is None && mapping(w0, p, (virt + 4096 * j2) as u64) is None
            ==> #[trigger] leaf_frame(w1, p, (virt + 4096 * j1) as u64) != #[trigger] leaf_frame(w1, p, (virt + 4096 * j2) as u64)
}

/// The entry for a page-aligned frame below 2^52 points to that frame.
proof fn lemma_entry_frame(phys: u64, flags: u8)
    requires
        phys % 4096 == 0,
        phys < 0x10_0000_0000_0000,
    ensures
        frame_of(entry_value(phys, flags)) == phys,
{
    let a = attr_of(flags);
    assert((a | (phys & 0x000F_FFFF_FFFF_F000u64)) & 0x000F_FFFF_FFFF_F000u64 == phys) by (bit_vector)
        requires
            phys % 4096 == 0,
            phys < 0x10_0000_0000_0000u64,
            a == (if flags & 1u8 != 0 { 1u64 } else { 0u64 })
                | (if flags & 2u8 != 0 { 2u64 } else { 0u64 })
                | (if flags & 4u8 != 0 { 4u64 } else { 0u64 })
                | (if flags & 8u8 != 0 { 8u64 } else { 0u64 })
                | (if flags & 16u8 != 0 { 16u64 } else { 0u64 })
                | (if flags & 32u8 != 0 { 0x100u64 } else { 0u64 })
                | (if flags & 64u8 != 0 { 0x8000_0000_0000_0000u64 } else { 0u64 });
}

/// A page that was unmapped and is backed points to a frame that was free
/// and is used.
proof fn lemma_backed_frame(w0: Seq<u64>, b0: Seq<bool>, w1: Seq<u64>, b1: Seq<bool>, p: int, va: u64, flags: u8)
    requires
        backed(w0, b0, w1, b1, p, va, flags),
        mapping(w0, p, va) is None,
        b0.len() <= 0x100_0000_0000,
    ensures
        leaf_entry(w1, p, va) is Some,
        leaf_frame(w1, p, va) % 4096 == 0,
        0 <= leaf_frame(w1, p, va) / 4096 < b0.len(),
        !b0[leaf_frame(w1, p, va) / 4096],
        b1[leaf_frame(w1, p, va) / 4096],
        leaf_entry(w1, p, va) == Some(entry_value(leaf_frame(w1, p, va) as u64, flags)),
{
    let f = choose|f: u64| #![trigger entry_value(f, flags)] {
        &&& f % 4096 == 0
        &&& f as int / 4096 < b0.len()
        &&& !b0[f as int / 4096]
        &&& b1[f as int / 4096]
        &&& leaf_entry(w1, p, va) == Some(entry_value(f, flags))
    };
    lemma_entry_frame(f, flags);
}

/// Page `f` is the frame that `w1` maps one of the first `d` pages from
/// `virt` to, a page that `w0` left unmapped.
pub open spec fn new_frame_at(w0: Seq<u64>, w1: Seq<u64>, p: int, virt: u64, d: int, f: int) -> bool {
    exists|j: int| 0 <= j < d && mapping(w0, p, (virt + 4096 * j) as u64) is None && #[trigger] leaf_frame(w1, p, (virt + 4096 * j) as u64) == f
}

/// Every page that `b1` marks used and `b0` did not holds a new table of the
/// tree under `p`, or backs one of the first `d` pages from `virt` that
/// `w0` left unmapped.
pub open spec fn new_used_back(w0: Seq<u64>, b0: Seq<bool>, w1: Seq<u64>, b1: Seq<bool>, p: int, virt: u64, d: int) -> bool {
    forall|x: int| 0 <= x < b0.len() && !b0[x] && #[trigger] b1[x]
        ==> new_table_at(w0, w1, p, 4096 * x) || new_frame_at(w0, w1, p, virt, d, 4096 * x)
}

/// How many of the first `n` pages from `virt` `w` leaves unmapped.
pub open spec fn unmapped_upto(w: Seq<u64>, p: int, virt: u64, n: int) -> int
    decreases n,
{
    if n <= 0 {
        0
    } else {
        unmapped_upto(w, p, virt, n - 1) + if mapping(w, p, (virt + 4096 * (n - 1)) as u64) is None { 1int } else { 0int }
    }
}

/// The pages that backing the first `n` pages from `virt` may take: a frame
/// for each page `w` leaves unmapped, and the tables that mapping them may
/// need (see `map_need`).
pub open spec fn alloc_need(w: Seq<u64>, p: int, virt: u64, n: int) -> nat {
    (unmapped_upto(w, p, virt, n) + map_need(w, p, virt, n)) as nat
}

/// The pages that backing `n` pages from `virt` may take, whatever is
/// mapped: a frame for each page and the tables of `map_budget`.
pub open spec fn alloc_budget(virt: u64, n: int) -> nat {
    if n <= 0 {
        0
    } else {
        (n + map_budget(virt, n)) as nat
    }
}

proof fn lemma_unmapped_nonneg(w: Seq<u64>, p: int, virt: u64, n: int)
    ensures
        0 <= unmapped_upto(w, p, virt, n),
        n >= 0 ==> unmapped_upto(w, p, virt, n) <= n,
    decreases n,
{
    if n > 0 {
        lemma_unmapped_nonneg(w, p, virt, n - 1);
    }
}

proof fn lemma_unmapped_mono(w: Seq<u64>, p: int, virt: u64, i: int, j: int)
    requires
        0 <= i <= j,
    ensures
        0 <= unmapped_upto(w, p, virt, i) <= unmapped_upto(w, p, virt, j),
        unmapped_upto(w, p, virt, j) - unmapped_upto(w, p, virt, i) <= j - i,
    decreases j - i,
{
    lemma_unmapped_nonneg(w, p, virt, i);
    if j > i {
        lemma_unmapped_mono(w, p, virt, i, j - 1);
    }
}

/// Backing more pages may take more pages, and never more than the budget.
proof fn lemma_alloc_need_mono(w: Seq<u64>, p: int, virt: u64, i: int, j: int)
    requires
        0 <= i <= j,
    ensures
        alloc_need(w, p, virt, i) <= alloc_need(w, p, virt, j),
        alloc_need(w, p, virt, j) <= alloc_budget(virt, j),
{
    lemma_unmapped_mono(w, p, virt, i, j);
    lemma_unmapped_mono(w, p, virt, 0, j);
    lemma_map_need_mono(w, p, virt, i, j);
}

/// One more page to back: what it may take stays within the budget.
proof fn lemma_alloc_need_step(w0: Seq<u64>, w1: Seq<u64>, p: int, virt: u64, i: int, n: int, m: int)
    requires
        0 <= i < n,
        virt + 4096 * (n - 1) <= u64::MAX,
        0 <= m <= alloc_need(w0, p, virt, i),
        i == 0 ==> w1 == w0,
        i > 0 ==> valid_path(w1, p, va_path((virt + 4096 * (i - 1)) as u64)),
    ensures
        m <= alloc_need(w0, p, virt, i + 1),
        alloc_need(w0, p, virt, i + 1) <= alloc_need(w0, p, virt, n),
        mapping(w0, p, (virt + 4096 * i) as u64) is None
            ==> m + 1 + map_need(w1, p, (virt + 4096 * i) as u64, 1) <= alloc_need(w0, p, virt, i + 1),
{
    lemma_alloc_need_mono(w0, p, virt, i, i + 1);
    lemma_alloc_need_mono(w0, p, virt, i + 1, n);
    lemma_map_need_mono(w0, p, virt, 0, i);
    lemma_map_need_step(w0, w1, p, virt, i, n, map_need(w0, p, virt, i) as int);
    lemma_unmapped_mono(w0, p, virt, 0, i);
    let a = (virt + 4096 * i) as u64;
    assert(block_starts(a, 1) == 0);
}

/// Counting one more page from `virt` keeps every newly used page
/// accounted for.
proof fn lemma_new_used_back_more(w0: Seq<u64>, b0: Seq<bool>, w1: Seq<u64>, b1: Seq<bool>, p: int, virt: u64, d: int)
    requires
        new_used_back(w0, b0, w1, b1, p, virt, d),
    ensures
        new_used_back(w0, b0, w1, b1, p, virt, d + 1),
{
    assert forall|x: int| 0 <= x < b0.len() && !b0[x] && #[trigger] b1[x]
        implies new_table_at(w0, w1, p, 4096 * x) || new_frame_at(w0, w1, p, virt, d + 1, 4096 * x) by {
        if !new_table_at(w0, w1, p, 4096 * x) {
            let j = choose|j: int| 0 <= j < d && mapping(w0, p, (virt + 4096 * j) as u64) is None
                && #[trigger] leaf_frame(w1, p, (virt + 4096 * j) as u64) == 4096 * x;
            assert(leaf_frame(w1, p, (virt + 4096 * j) as u64) == 4096 * x);
        }
    }
}

/// Backing page `i` from `virt` with frame `f`, taken from the allocator,
/// and mapping it with tables made on the way keeps every newly used page
/// accounted for.
proof fn lemma_new_used_back_step(
    w0: Seq<u64>,
    b0: Seq<bool>,
    w1: Seq<u64>,
    b1: Seq<bool>,
    b2: Seq<bool>,
    wn: Seq<u64>,
    bn: Seq<bool>,
    p: int,
    virt: u64,
    i: int,
    f: int,
)
    requires
        new_used_back(w0, b0, w1, b1, p, virt, i),
        b1.len() == b0.len(),
        i >= 0,
        f >= 0,
        f % 4096 == 0,
        0 <= f / 4096 < b1.len(),
        b2 == b1.update(f / 4096, true),
        new_used_are_tables(w1, b2, wn, bn, p),
        links_kept(w0, w1, p),
        links_kept(w1, wn, p),
        mapping(w0, p, (virt + 4096 * i) as u64) is None,
        leaf_frame(wn, p, (virt + 4096 * i) as u64) == f,
        forall|j: int| 0 <= j < i && mapping(w0, p, (virt + 4096 * j) as u64) is None
            ==> #[trigger] leaf_frame(wn, p, (virt + 4096 * j) as u64) == leaf_frame(w1, p, (virt + 4096 * j) as u64),
    ensures
        new_used_back(w0, b0, wn, bn, p, virt, i + 1),
{
    assert forall|x: int| 0 <= x < b0.len() && !b0[x] && #[trigger] bn[x]
        implies new_table_at(w0, wn, p, 4096 * x) || new_frame_at(w0, wn, p, virt, i + 1, 4096 * x) by {
        if b1[x] {
            if new_table_at(w0, w1, p, 4096 * x) {
                lemma_new_table_kept(w0, w1, wn, p, 4096 * x);
            } else {
                let j = choose|j: int| 0 <= j < i && mapping(w0, p, (virt + 4096 * j) as u64) is None
                    && #[trigger] leaf_frame(w1, p, (virt + 4096 * j) as u64) == 4096 * x;
                assert(leaf_frame(wn, p, (virt + 4096 * j) as u64) == 4096 * x);
            }
        } else if x == f / 4096 {
            assert(4096 * x == f);
            assert(leaf_frame(wn, p, (virt + 4096 * i) as u64) == 4096 * x);
        } else {
            assert(!b2[x]);
            lemma_new_table_since(w0, w1, wn, p, 4096 * x);
        }
    }
}

/// Backs each of the `num_pages` pages from `virt` that is not mapped yet
/// with a newly allocated page, mapped with `flags`, under tables linked in
/// as `map_pages` links them; pages already mapped keep their mapping.
/// Each page it takes from the allocator backs one of those pages or holds
/// a new table. It succeeds whenever the allocator can hand out the pages
/// `alloc_need` counts (a frame for each unmapped page and the tables of
/// `map_need`). Running out of pages is reported by `false`, with the
/// allocator left out of pages, not by a panic.
pub fn alloc_pages(
    pml4_addr: VirtAddr,
    virt: VirtAddr,
    num_pages: u64,
    flags: u8,
    mem: &mut PhysMemory,
    allocator: &mut PhysMemAllocator,
) -> (done: bool)
    requires
        paging_ready(old(mem)@, old(allocator)@, pml4_addr.0),
        num_pages <= 0x10_0000_0000,
        num_pages == 0 || virt.0 + 4096 * (num_pages - 1) <= u64::MAX,
    ensures
        paging_kept(old(mem)@, old(allocator)@, final(mem)@, final(allocator)@, pml4_addr.0),
        done ==> forall|j: int| 0 <= j < num_pages ==> #[trigger] backed(old(mem)@.words, old(allocator)@.bits.unwrap(),
            final(mem)@.words, final(allocator)@.bits.unwrap(), pml4_addr.0 - old(mem)@.hhdm, (virt.0 + 4096 * j) as u64, flags),
        !done ==> exists|d: int| 0 <= d < num_pages && #[trigger] backed_upto(old(mem)@.words, old(allocator)@.bits.unwrap(),
            final(mem)@.words, final(allocator)@.bits.unwrap(), pml4_addr.0 - old(mem)@.hhdm, virt.0, flags, d),
        done ==> new_frames_distinct(old(mem)@.words, final(mem)@.words, pml4_addr.0 - old(mem)@.hhdm, virt.0, num_pages as int),
        !done ==> out_of_pages(final(allocator)@, old(allocator)@.list is Some),
        forall|k: nat| k >= alloc_need(old(mem)@.words, pml4_addr.0 - old(mem)@.hhdm, virt.0, num_pages as int) && #[trigger] can_alloc(old(allocator)@, k)
            ==> done && can_alloc(final(allocator)@, (k - alloc_need(old(mem)@.words, pml4_addr.0 - old(mem)@.hhdm, virt.0, num_pages as int)) as nat),
        counts_exact(old(allocator)@) && old(allocator)@.free_pages >= alloc_need(old(mem)@.words, pml4_addr.0 - old(mem)@.hhdm, virt.0, num_pages as int) ==> done,
        forall|va: u64| page_offset(va, virt.0) >= num_pages ==> #[trigger] mapping(final(mem)@.words, pml4_addr.0 - final(mem)@.hhdm, va)
            == mapping(old(mem)@.words, pml4_addr.0 - old(mem)@.hhdm, va),
        (forall|j: int| 0 <= j < num_pages ==> #[trigger] mapping(old(mem)@.words, pml4_addr.0 - old(mem)@.hhdm, (virt.0 + 4096 * j) as u64) is Some)
            ==> done && final(mem)@ == old(mem)@ && final(allocator)@ == old(allocator)@,
        new_tables_linked(old(mem)@.words, final(mem)@.words, pml4_addr.0 - old(mem)@.hhdm),
        links_kept(old(mem)@.words, final(mem)@.words, pml4_addr.0 - old(mem)@.hhdm),
        done ==> new_used_back(old(mem)@.words, old(allocator)@.bits.unwrap(), final(mem)@.words, final(allocator)@.bits.unwrap(),
            pml4_addr.0 - old(mem)@.hhdm, virt.0, num_pages as int),
{
    let ghost p = pml4_addr.0 - mem@.hhdm;
    let ghost w0 = mem@.words;
    let ghost a0 = allocator@;
    let ghost b0 = allocator@.bits.unwrap();
    proof {
        assert(b0.len() * 512 <= w0.len());
        assert(b0.len() <= 0x100_0000_0000);
    }
    proof {
        if counts_exact(a0) && a0.free_pages >= alloc_need(w0, p, virt.0, num_pages as int) {
            lemma_free_pages_can_alloc(a0, alloc_need(w0, p, virt.0, num_pages as int));
        }
    }
    let mut i: u64 = 0;
    let ghost mut m: int = 0;
    while i < num_pages
        invariant
            0 <= m <= alloc_need(w0, p, virt.0, i as int),
            counts_exact(a0) && a0.free_pages >= alloc_need(w0, p, virt.0, num_pages as int) ==> can_alloc(a0, alloc_need(w0, p, virt.0, num_pages as int)),
            i == 0 ==> mem@.words == w0,
            forall|k: nat| k >= m && #[trigger] can_alloc(a0, k) ==> can_alloc(allocator@, (k - m) as nat),
            b0.len() <= 0x100_0000_0000,
            new_frames_distinct(w0, mem@.words, p, virt.0, i as int),
            p == pml4_addr.0 - mem@.hhdm,
            i <= num_pages,
            num_pages <= 0x10_0000_0000,
            num_pages == 0 || virt.0 + 4096 * (num_pages - 1) <= u64::MAX,
            mem@.hhdm == old(mem)@.hhdm,
            paging_kept(old(mem)@, a0, mem@, allocator@, pml4_addr.0),
            a0 == old(allocator)@,
            b0 == a0.bits.unwrap(),
            w0 == old(mem)@.words,
            forall|j: int| 0 <= j < i ==> #[trigger] backed(w0, b0, mem@.words, allocator@.bits.unwrap(), p, (virt.0 + 4096 * j) as u64, flags),
            forall|va: u64| page_offset(va, virt.0) >= i ==> #[trigger] mapping(mem@.words, p, va) == mapping(w0, p, va),
            (forall|j: int| 0 <= j < num_pages ==> #[trigger] mapping(w0, p, (virt.0 + 4096 * j) as u64) is Some)
                ==> mem@ == old(mem)@ && allocator@ == a0,
            new_tables_linked(w0, mem@.words, p),
            links_kept(w0, mem@.words, p),
            new_used_back(w0, b0, mem@.words, allocator@.bits.unwrap(), p, virt.0, i as int),
        decreases num_pages - i,
    {
        let current_virt = VirtAddr(virt.0 + 0x1000 * i);
        let ghost va = current_virt.0;
        let ghost w1 = mem@.words;
        let ghost a1 = allocator@;
        proof {
            lemma_page_offset_step(virt.0, i);
            lemma_ready_tables_in(mem@, allocator@, pml4_addr.0);
            if i > 0 {
                let prev = (virt.0 + 4096 * (i - 1)) as u64;
                assert(backed(w0, b0, w1, a1.bits.unwrap(), p, prev, flags));
                if mapping(w0, p, prev) is Some {
                    assert(mapping(w1, p, prev) is Some);
                } else {
                    lemma_backed_frame(w0, b0, w1, a1.bits.unwrap(), p, prev, flags);
                }
                assert(leaf_entry(w1, p, prev) is Some);
            }
            assert(va == (virt.0 + 4096 * i) as u64);
            lemma_alloc_need_step(w0, w1, p, virt.0, i as int, num_pages as int, m);
        }
        let ghost mn = map_need(w1, p, va, 1);
        if PageEntry::is_mapped(pml4_addr, current_virt, mem, allocator) {
            proof {
                lemma_new_used_back_more(w0, b0, mem@.words, allocator@.bits.unwrap(), p, virt.0, i as int);
                assert(mapping(w0, p, va) is Some);
                assert forall|j: int| 0 <= j < i + 1 implies #[trigger] backed(w0, b0, mem@.words, allocator@.bits.unwrap(), p, (virt.0 + 4096 * j) as u64, flags) by {
                    if j == i {
                        assert((virt.0 + 4096 * j) as u64 == va);
                    }
                }
                assert forall|j1: int, j2: int|
                    0 <= j1 < j2 < i + 1 && mapping(w0, p, (virt.0 + 4096 * j1) as u64) is None && mapping(w0, p, (virt.0 + 4096 * j2) as u64) is None
                        implies #[trigger] leaf_frame(mem@.words, p, (virt.0 + 4096 * j1) as u64) != #[trigger] leaf_frame(mem@.words, p, (virt.0 + 4096 * j2) as u64) by {
                    if j2 == i {
                        assert((virt.0 + 4096 * j2) as u64 == va);
                    }
                }
            }
        } else {
            proof {
                lemma_alloc_frame(allocator@, mem@);
                lemma_alloc_failure(allocator@);
                if forall|j: int| 0 <= j < num_pages ==> #[trigger] mapping(w0, p, (virt.0 + 4096 * j) as u64) is Some {
                    assert(mapping(w0, p, (virt.0 + 4096 * i) as u64) is Some);
                }
            }
            let ghost mpre = m;
            let frame = match allocator.alloc_page() {
                Some(f) => f,
                None => {
                    proof {
                        assert forall|k: nat| k >= alloc_need(w0, p, virt.0, num_pages as int) && #[trigger] can_alloc(a0, k) implies false by {
                            assert(can_alloc(a1, (k - mpre) as nat));
                        }
                        lemma_pt_wf_more_used(w1, p, a1.bits.unwrap(), allocator@.bits.unwrap());
                        assert(backed_upto(w0, b0, mem@.words, allocator@.bits.unwrap(), p, virt.0, flags, i as int));
                    }
                    return false;
                },
            };
            let ghost a2 = allocator@;
            proof {
                assert forall|k: nat| k >= alloc_need(w0, p, virt.0, num_pages as int) && #[trigger] can_alloc(a0, k) implies can_alloc(a2, (k - mpre - 1) as nat) by {
                    assert(can_alloc(a1, (k - mpre) as nat));
                }
                lemma_pt_wf_more_used(w1, p, a1.bits.unwrap(), a2.bits.unwrap());
                assert(frame.0 + 4096 * 0 <= u64::MAX);
            }
            if !map_pages(pml4_addr, current_virt, frame, 1, flags, mem, allocator) {
                proof {
                    lemma_linked_trans(w0, w1, mem@.words, p);
                    assert forall|k: nat| k >= alloc_need(w0, p, virt.0, num_pages as int) && #[trigger] can_alloc(a0, k) implies false by {
                        assert(can_alloc(a2, (k - mpre - 1) as nat));
                        assert(k - mpre - 1 >= mn);
                    }
                    assert forall|x: int| 0 <= x < b0.len() && b0[x] implies #[trigger] allocator@.bits.unwrap()[x] by {
                        assert(a1.bits.unwrap()[x]);
                        assert(a2.bits.unwrap()[x]);
                    }
                    assert forall|v2: u64| page_offset(v2, virt.0) >= num_pages implies #[trigger] mapping(mem@.words, p, v2) == mapping(w0, p, v2) by {
                        lemma_offset_shift(v2, virt.0, i);
                    }
                    assert forall|j: int| 0 <= j < i implies #[trigger] backed(w0, b0, mem@.words, allocator@.bits.unwrap(), p, (virt.0 + 4096 * j) as u64, flags) by {
                        let vj = (virt.0 + 4096 * j) as u64;
                        lemma_page_offset_step(virt.0, j as u64);
                        lemma_offset_shift(vj, virt.0, i);
                        assert(page_offset(vj, va) >= 1);
                        assert(backed(w0, b0, w1, a1.bits.unwrap(), p, vj, flags));
                        if mapping(w0, p, vj) is None {
                            let g = choose|g: u64| #![trigger entry_value(g, flags)] {
                                &&& g % 4096 == 0
                                &&& g as int / 4096 < b0.len()
                                &&& !b0[g as int / 4096]
                                &&& a1.bits.unwrap()[g as int / 4096]
                                &&& leaf_entry(w1, p, vj) == Some(entry_value(g, flags))
                            };
                            assert(leaf_entry(mem@.words, p, vj) == Some(entry_value(g, flags)));
                            assert(a2.bits.unwrap()[g as int / 4096]);
                            assert(allocator@.bits.unwrap()[g as int / 4096]);
                        }
                    }
                    assert(backed_upto(w0, b0, mem@.words, allocator@.bits.unwrap(), p, virt.0, flags, i as int));
                }
                return false;
            }
            proof {
                lemma_linked_trans(w0, w1, mem@.words, p);
                m = m + 1 + mn;
                assert forall|k: nat| k >= m && #[trigger] can_alloc(a0, k) implies can_alloc(allocator@, (k - m) as nat) by {
                    assert(can_alloc(a1, (k - mpre) as nat));
                    assert(can_alloc(a2, (k - mpre - 1) as nat));
                }
                let f = frame.0;
                assert(leaf_entry(mem@.words, p, (va + 4096 * 0) as u64) == Some(entry_value((f + 4096 * 0) as u64, flags)));
                assert((va + 4096 * 0) as u64 == va);
                assert((f + 4096 * 0) as u64 == f);
                assert forall|x: int| 0 <= x < b0.len() && b0[x] implies #[trigger] allocator@.bits.unwrap()[x] by {
                    assert(a1.bits.unwrap()[x]);
                    assert(a2.bits.unwrap()[x]);
                }
                assert forall|j: int| 0 <= j < i + 1 implies #[trigger] backed(w0, b0, mem@.words, allocator@.bits.unwrap(), p, (virt.0 + 4096 * j) as u64, flags) by {
                    let vj = (virt.0 + 4096 * j) as u64;
                    if j == i {
                        assert(vj == va);
                        assert(!b0[f as int / 4096]);
                        assert(allocator@.bits.unwrap()[f as int / 4096]);
                        assert(leaf_entry(mem@.words, p, vj) == Some(entry_value(f, flags)));
                    } else {
                        lemma_page_offset_step(virt.0, j as u64);
                        lemma_offset_shift(vj, virt.0, i);
                        assert(page_offset(vj, va) >= 1);
                        assert(backed(w0, b0, w1, a1.bits.unwrap(), p, vj, flags));
                        if mapping(w0, p, vj) is None {
                            let g = choose|g: u64| #![trigger entry_value(g, flags)] {
                                &&& g % 4096 == 0
                                &&& g as int / 4096 < b0.len()
                                &&& !b0[g as int / 4096]
                                &&& a1.bits.unwrap()[g as int / 4096]
                                &&& leaf_entry(w1, p, vj) == Some(entry_value(g, flags))
                            };
                            assert(leaf_entry(mem@.words, p, vj) == Some(entry_value(g, flags)));
                            assert(a2.bits.unwrap()[g as int / 4096]);
                            assert(allocator@.bits.unwrap()[g as int / 4096]);
                        }
                    }
                }
                assert forall|v2: u64| page_offset(v2, virt.0) >= i + 1 implies #[trigger] mapping(mem@.words, p, v2) == mapping(w0, p, v2) by {
                    lemma_offset_shift(v2, virt.0, i);
                }
                // earlier new pages keep their frames, which were used before this frame was taken
                assert forall|j: int| 0 <= j < i && mapping(w0, p, (virt.0 + 4096 * j) as u64) is None
                    implies #[trigger] leaf_frame(mem@.words, p, (virt.0 + 4096 * j) as u64) == leaf_frame(w1, p, (virt.0 + 4096 * j) as u64)
                        && leaf_frame(w1, p, (virt.0 + 4096 * j) as u64) != f by {
                    let vj = (virt.0 + 4096 * j) as u64;
                    lemma_page_offset_step(virt.0, j as u64);
                    lemma_offset_shift(vj, virt.0, i);
                    assert(page_offset(vj, va) >= 1);
                    assert(backed(w0, b0, w1, a1.bits.unwrap(), p, vj, flags));
                    lemma_backed_frame(w0, b0, w1, a1.bits.unwrap(), p, vj, flags);
                    assert(leaf_entry(mem@.words, p, vj) == leaf_entry(w1, p, vj));
                }
                lemma_entry_frame(f, flags);
                assert(leaf_frame(mem@.words, p, va) == f);
                lemma_new_used_back_step(w0, b0, w1, a1.bits.unwrap(), a2.bits.unwrap(), mem@.words, allocator@.bits.unwrap(),
                    p, virt.0, i as int, f as int);
                assert forall|j1: int, j2: int|
                    0 <= j1 < j2 < i + 1 && mapping(w0, p, (virt.0 + 4096 * j1) as u64) is None && mapping(w0, p, (virt.0 + 4096 * j2) as u64) is None
                        implies #[trigger] leaf_frame(mem@.words, p, (virt.0 + 4096 * j1) as u64) != #[trigger] leaf_frame(mem@.words, p, (virt.0 + 4096 * j2) as u64) by {
                    let v1 = (virt.0 + 4096 * j1) as u64;
                    let v2 = (virt.0 + 4096 * j2) as u64;
                    assert(leaf_frame(mem@.words, p, v1) == leaf_frame(w1, p, v1));
                    if j2 < i {
                        assert(leaf_frame(mem@.words, p, v2) == leaf_frame(w1, p, v2));
                        assert(leaf_frame(w1, p, v1) != leaf_frame(w1, p, v2));
                    } else {
                        assert(v2 == va);
                    }
                }
            }
        }
        i = i + 1;
    }
    proof {
        assert forall|k: nat| k >= alloc_need(w0, p, virt.0, num_pages as int) && #[trigger] can_alloc(a0, k)
            implies can_alloc(allocator@, (k - alloc_need(w0, p, virt.0, num_pages as int)) as nat) by {
            lemma_can_alloc_fewer(allocator@, (k - m) as nat, (k - alloc_need(w0, p, virt.0, num_pages as int)) as nat);
        }
    }
    true
}


/// Pages that `map_pages` mapped with the present flag are mapped (see
/// `PageEntry::is_mapped`), each to its frame.
pub proof fn lemma_mapped_range_is_mapped(w: Seq<u64>, p: int, virt: u64, phys: u64, flags: u8, n: int)
    requires
        flags & PAGE_PRESENT != 0,
        mapped_upto(w, p, virt, phys, flags, n),
    ensures
        forall|j: int| 0 <= j < n ==> #[trigger] mapping(w, p, (virt + 4096 * j) as u64)
            == Some(entry_value((phys + 4096 * j) as u64, flags)),
{
    assert forall|j: int| 0 <= j < n implies #[trigger] mapping(w, p, (virt + 4096 * j) as u64)
        == Some(entry_value((phys + 4096 * j) as u64, flags)) by {
        lemma_present_entry_maps(w, p, (virt + 4096 * j) as u64, (phys + 4096 * j) as u64, flags);
    }
}

/// A range that has been backed with present pages is mapped throughout, so
/// backing it again (see `alloc_pages`) changes nothing.
pub proof fn lemma_backed_range_mapped(w0: Seq<u64>, b0: Seq<bool>, w1: Seq<u64>, b1: Seq<bool>, p: int, virt: u64, flags: u8, n: int)
    requires
        flags & PAGE_PRESENT != 0,
        forall|j: int| 0 <= j < n ==> #[trigger] backed(w0, b0, w1, b1, p, (virt + 4096 * j) as u64, flags),
    ensures
        forall|j: int| 0 <= j < n ==> #[trigger] mapping(w1, p, (virt + 4096 * j) as u64) is Some,
{
    assert forall|j: int| 0 <= j < n implies #[trigger] mapping(w1, p, (virt + 4096 * j) as u64) is Some by {
        let va = (virt + 4096 * j) as u64;
        assert(backed(w0, b0, w1, b1, p, va, flags));
        if mapping(w0, p, va) is None {
            let f = choose|f: u64| #![trigger entry_value(f, flags)] {
                &&& f % 4096 == 0
                &&& f as int / 4096 < b0.len()
                &&& !b0[f as int / 4096]
                &&& b1[f as int / 4096]
                &&& leaf_entry(w1, p, va) == Some(entry_value(f, flags))
            };
            lemma_present_entry_maps(w1, p, va, f, flags);
        }
    }
}


/// Maps `num_pages` pages of device memory at `phys` into the direct map,
/// writable, uncached and not executable, in the tables at physical address
/// `pml4_addr`, and returns where the device memory now appears. It succeeds
/// whenever the allocator can hand out the tables `map_need` counts; running
/// out of pages for a table gives nothing, not a panic.
pub fn map_mmio(phys: PhyAddr, num_pages: u64, pml4_addr: u64, mem: &mut PhysMemory, allocator: &mut PhysMemAllocator) -> (r: Option<VirtAddr>)
    requires
        pml4_addr + old(mem)@.hhdm <= u64::MAX,
        paging_ready(old(mem)@, old(allocator)@, (pml4_addr + old(mem)@.hhdm) as u64),
        num_pages <= 0x10_0000_0000,
        phys.0 + old(mem)@.hhdm <= u64::MAX,
        num_pages == 0 || phys.0 + old(mem)@.hhdm + 4096 * (num_pages - 1) <= u64::MAX,
    ensures
        paging_kept(old(mem)@, old(allocator)@, final(mem)@, final(allocator)@, (pml4_addr + old(mem)@.hhdm) as u64),
        r is None ==> out_of_pages(final(allocator)@, old(allocator)@.list is Some),
        can_alloc(old(allocator)@, map_need(old(mem)@.words, pml4_addr as int, (phys.0 + old(mem)@.hhdm) as u64, num_pages as int)) ==> r is Some,
        counts_exact(old(allocator)@) && old(allocator)@.free_pages >= map_need(old(mem)@.words, pml4_addr as int, (phys.0 + old(mem)@.hhdm) as u64, num_pages as int) ==> r is Some,
        r matches Some(v) ==> {
            &&& v == VirtAddr((phys.0 + old(mem)@.hhdm) as u64)
            &&& forall|j: int| 0 <= j < num_pages ==> #[trigger] leaf_entry(final(mem)@.words, pml4_addr as int, (v.0 + 4096 * j) as u64)
                == Some(entry_value((phys.0 + 4096 * j) as u64, PAGE_PRESENT | PAGE_WRITABLE | PAGE_DISABLE_CACHE | PAGE_NO_EXECUTE))
        },
        forall|va: u64| page_offset(va, (phys.0 + old(mem)@.hhdm) as u64) >= num_pages ==> #[trigger] mapping(final(mem)@.words, pml4_addr as int, va)
            == mapping(old(mem)@.words, pml4_addr as int, va),
        new_tables_linked(old(mem)@.words, final(mem)@.words, pml4_addr as int),
        new_used_are_tables(old(mem)@.words, old(allocator)@.bits.unwrap(), final(mem)@.words, final(allocator)@.bits.unwrap(), pml4_addr as int),
{
    proof {
        if counts_exact(allocator@) && allocator@.free_pages >= map_need(mem@.words, pml4_addr as int, (phys.0 + mem@.hhdm) as u64, num_pages as int) {
            lemma_free_pages_can_alloc(allocator@, map_need(mem@.words, pml4_addr as int, (phys.0 + mem@.hhdm) as u64, num_pages as int));
        }
    }
    let hhdm: u64 = mem.hhdm();
    let pml4_virt = VirtAddr(pml4_addr + hhdm);
    let virt = VirtAddr(phys.0 + hhdm);
    if map_pages(pml4_virt, virt, phys, num_pages, PAGE_PRESENT | PAGE_WRITABLE | PAGE_DISABLE_CACHE | PAGE_NO_EXECUTE, mem, allocator) {
        Some(virt)
    } else {
        None
    }
}

/// The memory map regions that the direct map covers: usable, bootloader
/// reclaimable, the kernel and modules, the framebuffer, ACPI reclaimable.
pub open spec fn direct_mapped_type(etype: u64) -> bool {
    etype == LIMINE_MEMMAP_USABLE || etype == LIMINE_MEMMAP_BOOTLOADER_RECLAIMABLE
        || etype == LIMINE_MEMMAP_EXECUTABLE_AND_MODULES || etype == LIMINE_MEMMAP_FRAMEBUFFER
        || etype == LIMINE_MEMMAP_ACPI_RECLAIMABLE
}

/// The number of pages that cover `start .. end`.
pub open spec fn section_pages(start: u64, end: u64) -> int {
    (end - start + 4095) / 4096
}

/// What building the kernel's tables needs of its inputs: the direct-map
/// ranges and the kernel ranges fit in the address space, and the kernel
/// sections are in order.
pub open spec fn init_fits(entries: Seq<LimineMemMapEntry>, hhdm: u64, exec: LimineExecutableAddr, ks: u64, kw: u64, ke: u64) -> bool {
    &&& forall|k: int| 0 <= k < entries.len() && direct_mapped_type(#[trigger] entries[k].etype) ==> {
        let n = entries[k].length / 4096;
        &&& entries[k].base + hhdm <= u64::MAX
        &&& n <= 0x10_0000_0000
        &&& n == 0 || entries[k].base + hhdm + 4096 * (n - 1) <= u64::MAX
    }
    &&& ks <= kw <= ke
    &&& kw - ks + 4095 <= u64::MAX
    &&& ke - kw + 4095 <= u64::MAX
    &&& section_pages(ks, kw) + section_pages(kw, ke) + 8 <= 0x10_0000_0000
    &&& exec.virtual_base + 4096 * (section_pages(ks, kw) + section_pages(kw, ke) + 8) <= u64::MAX
    &&& exec.physical_base + 4096 * (section_pages(ks, kw) + section_pages(kw, ke)) <= u64::MAX
}

/// Whether the inputs of building the kernel's tables fit the address space
/// (see `init_fits`).
pub fn init_fits_check(
    entries: &Vec<LimineMemMapEntry>,
    hhdm: u64,
    exec: LimineExecutableAddr,
    ks: u64,
    kw: u64,
    ke: u64,
) -> (ok: bool)
    ensures
        ok == init_fits(entries@, hhdm, exec, ks, kw, ke),
{
    let mut k: usize = 0;
    while k < entries.len()
        invariant
            k <= entries@.len(),
            forall|j: int| 0 <= j < k && direct_mapped_type(#[trigger] entries@[j].etype) ==> {
                let n = entries@[j].length / 4096;
                &&& entries@[j].base + hhdm <= u64::MAX
                &&& n <= 0x10_0000_0000
                &&& n == 0 || entries@[j].base + hhdm + 4096 * (n - 1) <= u64::MAX
            },
        decreases entries@.len() - k,
    {
        let e = entries[k];
        if e.etype == LIMINE_MEMMAP_USABLE || e.etype == LIMINE_MEMMAP_BOOTLOADER_RECLAIMABLE
            || e.etype == LIMINE_MEMMAP_EXECUTABLE_AND_MODULES || e.etype == LIMINE_MEMMAP_FRAMEBUFFER
            || e.etype == LIMINE_MEMMAP_ACPI_RECLAIMABLE {
            assert(direct_mapped_type(entries@[k as int].etype));
            let n: u64 = e.length / 4096;
            if e.base > u64::MAX - hhdm || n > 0x10_0000_0000 {
                return false;
            }
            if n > 0 && (u64::MAX - (e.base + hhdm)) / 4096 < n - 1 {
                assert(e.base + hhdm + 4096 * (n - 1) > u64::MAX) by (nonlinear_arith)
                    requires (u64::MAX - (e.base + hhdm)) / 4096 < n - 1, e.base + hhdm <= u64::MAX;
                return false;
            }
            assert(n == 0 || e.base + hhdm + 4096 * (n - 1) <= u64::MAX) by (nonlinear_arith)
                requires n == 0 || (u64::MAX - (e.base + hhdm)) / 4096 >= n - 1, e.base + hhdm <= u64::MAX;
        }
        k = k + 1;
    }
    if !(ks <= kw && kw <= ke) || kw - ks > u64::MAX - 4095 || ke - kw > u64::MAX - 4095 {
        return false;
    }
    let lnw: u64 = (kw - ks + 4095) / 4096;
    let lw: u64 = (ke - kw + 4095) / 4096;
    let pages: u64 = lnw + lw;
    if pages > 0x10_0000_0000 - 8 {
        return false;
    }
    let span: u64 = 4096 * (pages + 8);
    if exec.virtual_base > u64::MAX - span || exec.physical_base > u64::MAX - 4096 * pages {
        return false;
    }
    true
}

/// Page `va` lies in the direct mapping of one of the first `n` regions.
pub open spec fn in_direct_map(entries: Seq<LimineMemMapEntry>, hhdm: u64, n: int, va: u64) -> bool {
    exists|k: int| 0 <= k < n && #[trigger] in_direct_range(entries[k], hhdm, va)
}

/// Under a top-level table with no present entry, nothing is mapped.
proof fn lemma_empty_tree_unmapped(w: Seq<u64>, p: int, va: u64)
    requires
        forall|i: int| 0 <= i < 512 ==> !present(#[trigger] entry_at(w, p, i)),
    ensures
        leaf_entry(w, p, va) is None,
        mapping(w, p, va) is None,
{
    lemma_va_path_index(va);
    if valid_path(w, p, va_path(va)) {
        lemma_empty_tree_paths(w, p, va_path(va));
    }
}

/// A top-level table with no present entry is a tree of one table.
/// Every table below the top-level table at `p` is linked in by an entry
/// that points at it and is present, writable and open to user mode.
pub open spec fn all_tables_linked(w: Seq<u64>, p: int) -> bool {
    forall|path: Seq<int>|
        index_path(path) && path.len() > 0 && #[trigger] valid_path(w, p, path)
            ==> entry_at(w, table_at(w, p, path.drop_last()), path.last())
                == entry_value(table_at(w, p, path) as u64, PAGE_PRESENT | PAGE_USER | PAGE_WRITABLE)
}

/// Every page that `b1` marks used and `b0` did not is the top-level table
/// at `p`, a table below it, or the frame of one of the `n` pages from `va`.
pub open spec fn used_for_tables_or(w1: Seq<u64>, b0: Seq<bool>, b1: Seq<bool>, p: int, va: u64, n: int) -> bool {
    forall|x: int| 0 <= x < b0.len() && !b0[x] && #[trigger] b1[x] ==> {
        ||| 4096 * x == p
        ||| exists|path: Seq<int>| index_path(path) && #[trigger] valid_path(w1, p, path) && table_at(w1, p, path) == 4096 * x
        ||| exists|j: int| 0 <= j < n && #[trigger] leaf_frame(w1, p, (va + 4096 * j) as u64) == 4096 * x
    }
}

/// The pages taken while building the tables: the top-level table, the
/// tables made on the way, and the frames backing the stack.
proof fn lemma_init_pages_used(
    wz: Seq<u64>,
    bo: Seq<bool>,
    b_root: Seq<bool>,
    w_rw: Seq<u64>,
    b_rw: Seq<bool>,
    wf: Seq<u64>,
    bf: Seq<bool>,
    p: int,
    va: u64,
)
    requires
        p % 4096 == 0,
        0 <= p / 4096 < bo.len(),
        b_root == bo.update(p / 4096, true),
        b_rw.len() == bo.len(),
        new_used_are_tables(wz, b_root, w_rw, b_rw, p),
        new_used_back(w_rw, b_rw, wf, bf, p, va, 8),
        links_kept(w_rw, wf, p),
    ensures
        used_for_tables_or(wf, bo, bf, p, va, 8),
{
    assert forall|x: int| 0 <= x < bo.len() && !bo[x] && #[trigger] bf[x] implies {
        ||| 4096 * x == p
        ||| exists|path: Seq<int>| index_path(path) && #[trigger] valid_path(wf, p, path) && table_at(wf, p, path) == 4096 * x
        ||| exists|j: int| 0 <= j < 8 && #[trigger] leaf_frame(wf, p, (va + 4096 * j) as u64) == 4096 * x
    } by {
        if x != p / 4096 {
            if b_rw[x] {
                assert(new_table_at(wz, w_rw, p, 4096 * x));
                lemma_new_table_kept(wz, w_rw, wf, p, 4096 * x);
                let path = choose|path: Seq<int>| index_path(path) && #[trigger] valid_path(wf, p, path) && !valid_path(wz, p, path) && table_at(wf, p, path) == 4096 * x;
                assert(valid_path(wf, p, path));
            } else if new_table_at(w_rw, wf, p, 4096 * x) {
                let path = choose|path: Seq<int>| index_path(path) && #[trigger] valid_path(wf, p, path) && !valid_path(w_rw, p, path) && table_at(wf, p, path) == 4096 * x;
                assert(valid_path(wf, p, path));
            } else {
                let j = choose|j: int| 0 <= j < 8 && mapping(w_rw, p, (va + 4096 * j) as u64) is None
                    && #[trigger] leaf_frame(wf, p, (va + 4096 * j) as u64) == 4096 * x;
                assert(leaf_frame(wf, p, (va + 4096 * j) as u64) == 4096 * x);
            }
        }
    }
}

/// Tables linked in since an empty top-level table are all the tables.
proof fn lemma_all_tables_linked(w0: Seq<u64>, w: Seq<u64>, p: int)
    requires
        forall|i: int| 0 <= i < 512 ==> !present(#[trigger] entry_at(w0, p, i)),
        new_tables_linked(w0, w, p),
    ensures
        all_tables_linked(w, p),
{
    assert forall|path: Seq<int>| index_path(path) && path.len() > 0 && #[trigger] valid_path(w, p, path)
        implies entry_at(w, table_at(w, p, path.drop_last()), path.last())
            == entry_value(table_at(w, p, path) as u64, PAGE_PRESENT | PAGE_USER | PAGE_WRITABLE) by {
        if valid_path(w0, p, path) {
            lemma_empty_tree_paths(w0, p, path);
        }
    }
}

proof fn lemma_empty_tree(w: Seq<u64>, p: int, bits: Seq<bool>)
    requires
        tbl_ok(bits, p),
        forall|i: int| 0 <= i < 512 ==> !present(#[trigger] entry_at(w, p, i)),
    ensures
        pt_wf(w, p, bits),
{
    assert forall|path: Seq<int>| index_path(path) && #[trigger] valid_path(w, p, path) implies tbl_ok(bits, table_at(w, p, path)) by {
        lemma_empty_tree_paths(w, p, path);
    }
    assert forall|a: Seq<int>, b: Seq<int>|
        index_path(a) && index_path(b) && #[trigger] valid_path(w, p, a) && #[trigger] valid_path(w, p, b)
            && table_at(w, p, a) == table_at(w, p, b) implies a == b by {
        lemma_empty_tree_paths(w, p, a);
        lemma_empty_tree_paths(w, p, b);
        assert(a =~= b);
    }
}

proof fn lemma_empty_tree_paths(w: Seq<u64>, p: int, path: Seq<int>)
    requires
        forall|i: int| 0 <= i < 512 ==> !present(#[trigger] entry_at(w, p, i)),
        index_path(path),
        valid_path(w, p, path),
    ensures
        path.len() == 0,
    decreases path.len(),
{
    if path.len() > 0 {
        lemma_index_path_prefix(path);
        lemma_empty_tree_paths(w, p, path.drop_last());
        assert(table_at(w, p, path.drop_last()) == p);
    }
}

proof fn lemma_kernel_flags_present()
    ensures
        present(entry_value(0, PAGE_PRESENT)),
        forall|x: u64| #[trigger] present(entry_value(x, PAGE_PRESENT | PAGE_GLOBAL)),
        forall|x: u64| #[trigger] present(entry_value(x, PAGE_PRESENT | PAGE_WRITABLE | PAGE_GLOBAL)),
{
    assert(attr_of(PAGE_PRESENT | PAGE_GLOBAL) == 0x101u64) by (bit_vector);
    assert(attr_of(PAGE_PRESENT | PAGE_WRITABLE | PAGE_GLOBAL) == 0x103u64) by (bit_vector);
    assert(attr_of(PAGE_PRESENT) == 1u64) by (bit_vector);
    assert(forall|x: u64| #![auto] (0x101u64 | (x & 0x000F_FFFF_FFFF_F000u64)) & 1u64 != 0u64) by (bit_vector);
    assert(forall|x: u64| #![auto] (0x103u64 | (x & 0x000F_FFFF_FFFF_F000u64)) & 1u64 != 0u64) by (bit_vector);
    assert((1u64 | (0u64 & 0x000F_FFFF_FFFF_F000u64)) & 1u64 != 0u64) by (bit_vector);
}

/// The number of pages that cover `start .. end`.
fn section_page_count(start: u64, end: u64) -> (n: u64)
    requires
        start <= end,
        end - start + 4095 <= u64::MAX,
    ensures
        n == section_pages(start, end),
{
    (end - start + 0xFFF) / 0x1000
}


/// Addresses in the same page reach the same last-level entry.
proof fn lemma_page_number_slot(a: u64, b: u64)
    requires
        page_number(a) == page_number(b),
    ensures
        va_path(a) == va_path(b),
        pml1_index(a) == pml1_index(b),
        forall|w: Seq<u64>, p: int| #[trigger] mapping(w, p, a) == mapping(w, p, b),
{
    assert(((a >> 39u64) & 0x1FFu64 == (b >> 39u64) & 0x1FFu64)
        && ((a >> 30u64) & 0x1FFu64 == (b >> 30u64) & 0x1FFu64)
        && ((a >> 21u64) & 0x1FFu64 == (b >> 21u64) & 0x1FFu64)
        && ((a >> 12u64) & 0x1FFu64 == (b >> 12u64) & 0x1FFu64)) by (bit_vector)
        requires
            (a >> 12u64) & 0xF_FFFF_FFFFu64 == (b >> 12u64) & 0xF_FFFF_FFFFu64;
    assert(va_path(a) =~= va_path(b));
}

/// Addresses the same number of pages above a base lie in the same page.
proof fn lemma_offset_same_page(a: u64, b: u64, base: u64)
    requires
        page_offset(a, base) == page_offset(b, base),
    ensures
        page_number(a) == page_number(b),
{
    let m = 0x10_0000_0000int;
    assert((a >> 12u64) & 0xF_FFFF_FFFFu64 <= 0xF_FFFF_FFFFu64) by (bit_vector);
    assert((b >> 12u64) & 0xF_FFFF_FFFFu64 <= 0xF_FFFF_FFFFu64) by (bit_vector);
    assert((base >> 12u64) & 0xF_FFFF_FFFFu64 <= 0xF_FFFF_FFFFu64) by (bit_vector);
    let x = page_number(a);
    let y = page_number(b);
    let c = page_number(base);
    if x >= c {
        vstd::arithmetic::div_mod::lemma_mod_sub_multiples_vanish(x - c + m, m);
        vstd::arithmetic::div_mod::lemma_small_mod((x - c) as nat, m as nat);
    } else {
        vstd::arithmetic::div_mod::lemma_small_mod((x - c + m) as nat, m as nat);
    }
    if y >= c {
        vstd::arithmetic::div_mod::lemma_mod_sub_multiples_vanish(y - c + m, m);
        vstd::arithmetic::div_mod::lemma_small_mod((y - c) as nat, m as nat);
    } else {
        vstd::arithmetic::div_mod::lemma_small_mod((y - c + m) as nat, m as nat);
    }
}

/// A mapped page keeps its mapping while pages are backed from `base`: it
/// lies either outside the range or in it, where mapped pages are kept.
proof fn lemma_backing_keeps_mapped(w0: Seq<u64>, b0: Seq<bool>, w1: Seq<u64>, b1: Seq<bool>, p: int, base: u64, n: u64, flags: u8, va: u64)
    requires
        n <= 0x10_0000_0000,
        n == 0 || base + 4096 * (n - 1) <= u64::MAX,
        forall|j: int| 0 <= j < n ==> #[trigger] backed(w0, b0, w1, b1, p, (base + 4096 * j) as u64, flags),
        forall|v: u64| page_offset(v, base) >= n ==> #[trigger] mapping(w1, p, v) == mapping(w0, p, v),
        mapping(w0, p, va) is Some,
    ensures
        mapping(w1, p, va) == mapping(w0, p, va),
{
    let o = page_offset(va, base);
    if o < n {
        let v2 = (base + 4096 * o) as u64;
        lemma_page_offset_step(base, o as u64);
        lemma_offset_same_page(va, v2, base);
        lemma_page_number_slot(va, v2);
        assert(backed(w0, b0, w1, b1, p, v2, flags));
        assert(mapping(w0, p, v2) == mapping(w0, p, va));
        assert(mapping(w1, p, v2) == mapping(w1, p, va));
    }
}

/// The flags of a region's direct mapping: present and writable, and
/// uncached for the framebuffer.
pub open spec fn direct_flags(etype: u64) -> u8 {
    if etype == LIMINE_MEMMAP_FRAMEBUFFER {
        PAGE_PRESENT | PAGE_WRITABLE | PAGE_DISABLE_CACHE
    } else {
        PAGE_PRESENT | PAGE_WRITABLE
    }
}

/// The address in the direct map of page `j` of region `e`.
pub open spec fn direct_va(e: LimineMemMapEntry, hhdm: u64, j: int) -> u64 {
    (e.base + hhdm + 4096 * j) as u64
}

/// `va` lies in the direct mapping of region `e`.
pub open spec fn in_direct_range(e: LimineMemMapEntry, hhdm: u64, va: u64) -> bool {
    &&& direct_mapped_type(e.etype)
    &&& page_offset(va, (e.base + hhdm) as u64) < e.length / 4096
}

/// A region after `k` and before `n` in the memory map maps `va` again.
pub open spec fn remapped_later(entries: Seq<LimineMemMapEntry>, hhdm: u64, k: int, n: int, va: u64) -> bool {
    exists|k2: int| k < k2 < n && #[trigger] in_direct_range(entries[k2], hhdm, va)
}

/// Each page of the direct-mapped regions among the first `n` maps its
/// frame, unless a later one of them maps the same page.
pub open spec fn direct_map_holds(w: Seq<u64>, p: int, entries: Seq<LimineMemMapEntry>, hhdm: u64, n: int) -> bool {
    forall|k: int, j: int|
        0 <= k < n && direct_mapped_type(entries[k].etype) && 0 <= j < entries[k].length / 4096
            && !remapped_later(entries, hhdm, k, n, direct_va(entries[k], hhdm, j))
            ==> #[trigger] mapping(w, p, direct_va(entries[k], hhdm, j))
                == Some(entry_value((entries[k].base + 4096 * j) as u64, direct_flags(entries[k].etype)))
}

/// An entry of the direct map: present and writable, for kernel mode only
/// (no user bit), not write-through, not global, executable, uncached
/// exactly when the region is the framebuffer, and pointing at its frame.
pub proof fn lemma_direct_entry_bits(f: u64, etype: u64)
    ensures
        ({
            let e = entry_value(f, direct_flags(etype));
            &&& e & 1 != 0
            &&& e & 2 != 0
            &&& e & 4 == 0
            &&& e & 8 == 0
            &&& (e & 0x10 != 0) == (etype == LIMINE_MEMMAP_FRAMEBUFFER)
            &&& e & 0x100 == 0
            &&& e & 0x8000_0000_0000_0000 == 0
            &&& f % 4096 == 0 && f < 0x10_0000_0000_0000 ==> frame_of(e) == f
        }),
{
    let e = entry_value(f, direct_flags(etype));
    if etype == LIMINE_MEMMAP_FRAMEBUFFER {
        assert(attr_of(PAGE_PRESENT | PAGE_WRITABLE | PAGE_DISABLE_CACHE) == 0x13u64) by (bit_vector);
        assert(e == 0x13u64 | (f & 0x000F_FFFF_FFFF_F000u64));
        assert({
            let x = 0x13u64 | (f & 0x000F_FFFF_FFFF_F000u64);
            &&& x & 1 != 0 &&& x & 2 != 0 &&& x & 4 == 0 &&& x & 8 == 0 &&& x & 0x10 != 0
            &&& x & 0x100 == 0 &&& x & 0x8000_0000_0000_0000 == 0
        }) by (bit_vector);
    } else {
        assert(attr_of(PAGE_PRESENT | PAGE_WRITABLE) == 3u64) by (bit_vector);
        assert(e == 3u64 | (f & 0x000F_FFFF_FFFF_F000u64));
        assert({
            let x = 3u64 | (f & 0x000F_FFFF_FFFF_F000u64);
            &&& x & 1 != 0 &&& x & 2 != 0 &&& x & 4 == 0 &&& x & 8 == 0 &&& x & 0x10 == 0
            &&& x & 0x100 == 0 &&& x & 0x8000_0000_0000_0000 == 0
        }) by (bit_vector);
    }
    if f % 4096 == 0 && f < 0x10_0000_0000_0000 {
        lemma_entry_frame(f, direct_flags(etype));
    }
}

proof fn lemma_direct_flags_present(etype: u64)
    ensures
        direct_flags(etype) & PAGE_PRESENT != 0,
{
    assert((1u8 | 2u8 | 16u8) & 1u8 != 0u8) by (bit_vector);
    assert((1u8 | 2u8) & 1u8 != 0u8) by (bit_vector);
}

/// The stack pages that no direct-mapped region covers are backed by new
/// frames: tracing them through the direct map (which leaves them unmapped)
/// and the kernel sections (which lie below them) to the backing.
proof fn lemma_stack_pages(
    entries: Seq<LimineMemMapEntry>,
    hhdm: u64,
    p: int,
    vb: u64,
    lnw: u64,
    lw: u64,
    w_loop: Seq<u64>,
    w_ro: Seq<u64>,
    w_rw: Seq<u64>,
    w_f: Seq<u64>,
    b_old: Seq<bool>,
    b_rw: Seq<bool>,
    b_f: Seq<bool>,
)
    requires
        lnw + lw + 8 <= 0x10_0000_0000,
        vb + 4096 * (lnw + lw + 8) <= u64::MAX,
        b_rw.len() <= 0x100_0000_0000,
        b_old.len() == b_rw.len(),
        forall|x: int| 0 <= x < b_old.len() && b_old[x] ==> #[trigger] b_rw[x],
        forall|va: u64| !in_direct_map(entries, hhdm, entries.len() as int, va) ==> #[trigger] mapping(w_loop, p, va) is None,
        forall|va: u64| page_offset(va, vb) >= lnw ==> #[trigger] mapping(w_ro, p, va) == mapping(w_loop, p, va),
        forall|va: u64| page_offset(va, (vb + 4096 * lnw) as u64) >= lw ==> #[trigger] mapping(w_rw, p, va) == mapping(w_ro, p, va),
        forall|j: int| 0 <= j < 8 ==> #[trigger] backed(w_rw, b_rw, w_f, b_f, p, ((vb + 4096 * (lnw + lw)) as u64 + 4096 * j) as u64,
            PAGE_PRESENT | PAGE_WRITABLE | PAGE_GLOBAL),
        new_frames_distinct(w_rw, w_f, p, (vb + 4096 * (lnw + lw)) as u64, 8),
    ensures
        forall|j: int| lnw + lw <= j < lnw + lw + 8 && !in_direct_map(entries, hhdm, entries.len() as int, (vb + 4096 * j) as u64) ==> {
            let f = leaf_frame(w_f, p, (vb + 4096 * j) as u64);
            &&& #[trigger] leaf_entry(w_f, p, (vb + 4096 * j) as u64) == Some(entry_value(f as u64, PAGE_PRESENT | PAGE_WRITABLE | PAGE_GLOBAL))
            &&& 0 <= f / 4096 < b_old.len()
            &&& !b_old[f / 4096]
            &&& b_f[f / 4096]
        },
        forall|j1: int, j2: int| lnw + lw <= j1 < j2 < lnw + lw + 8
            && !in_direct_map(entries, hhdm, entries.len() as int, (vb + 4096 * j1) as u64)
            && !in_direct_map(entries, hhdm, entries.len() as int, (vb + 4096 * j2) as u64)
            ==> #[trigger] leaf_frame(w_f, p, (vb + 4096 * j1) as u64) != #[trigger] leaf_frame(w_f, p, (vb + 4096 * j2) as u64),
{
    let kve = (vb + 4096 * (lnw + lw)) as u64;
    let flags = PAGE_PRESENT | PAGE_WRITABLE | PAGE_GLOBAL;
    // a stack page that no region covers is still unmapped when the stack is backed
    assert forall|j: int| lnw + lw <= j < lnw + lw + 8 && !in_direct_map(entries, hhdm, entries.len() as int, (vb + 4096 * j) as u64)
        implies #[trigger] mapping(w_rw, p, (vb + 4096 * j) as u64) is None && (vb + 4096 * j) as u64 == (kve + 4096 * (j - lnw - lw)) as u64 by {
        let va = (vb + 4096 * j) as u64;
        lemma_page_offset_step(vb, j as u64);
        lemma_offset_shift(va, vb, lnw);
        vstd::arithmetic::div_mod::lemma_small_mod((j - lnw) as nat, 0x10_0000_0000nat);
        vstd::arithmetic::div_mod::lemma_mod_add_multiples_vanish(j - lnw, 0x10_0000_0000);
        assert(page_offset(va, (vb + 4096 * lnw) as u64) == j - lnw);
        assert(mapping(w_ro, p, va) == mapping(w_loop, p, va));
    }
    assert forall|j: int| lnw + lw <= j < lnw + lw + 8 && !in_direct_map(entries, hhdm, entries.len() as int, (vb + 4096 * j) as u64) implies {
        let f = leaf_frame(w_f, p, (vb + 4096 * j) as u64);
        &&& #[trigger] leaf_entry(w_f, p, (vb + 4096 * j) as u64) == Some(entry_value(f as u64, flags))
        &&& 0 <= f / 4096 < b_old.len()
        &&& !b_old[f / 4096]
        &&& b_f[f / 4096]
    } by {
        let va = (vb + 4096 * j) as u64;
        let jj = j - lnw - lw;
        assert(mapping(w_rw, p, va) is None);
        assert(va == (kve + 4096 * jj) as u64);
        assert(backed(w_rw, b_rw, w_f, b_f, p, (kve + 4096 * jj) as u64, flags));
        lemma_backed_frame(w_rw, b_rw, w_f, b_f, p, va, flags);
        let f = leaf_frame(w_f, p, va);
        if b_old[f / 4096] {
            assert(b_rw[f / 4096]);
        }
    }
    assert forall|j1: int, j2: int| lnw + lw <= j1 < j2 < lnw + lw + 8
        && !in_direct_map(entries, hhdm, entries.len() as int, (vb + 4096 * j1) as u64)
        && !in_direct_map(entries, hhdm, entries.len() as int, (vb + 4096 * j2) as u64)
        implies #[trigger] leaf_frame(w_f, p, (vb + 4096 * j1) as u64) != #[trigger] leaf_frame(w_f, p, (vb + 4096 * j2) as u64) by {
        let jj1 = j1 - lnw - lw;
        let jj2 = j2 - lnw - lw;
        assert(mapping(w_rw, p, (vb + 4096 * j1) as u64) is None);
        assert(mapping(w_rw, p, (vb + 4096 * j2) as u64) is None);
        assert((vb + 4096 * j1) as u64 == (kve + 4096 * jj1) as u64);
        assert((vb + 4096 * j2) as u64 == (kve + 4096 * jj2) as u64);
        assert(mapping(w_rw, p, (kve + 4096 * jj1) as u64) is None);
        assert(mapping(w_rw, p, (kve + 4096 * jj2) as u64) is None);
        assert(leaf_frame(w_f, p, (kve + 4096 * jj1) as u64) != leaf_frame(w_f, p, (kve + 4096 * jj2) as u64));
    }
}

/// The pages that the direct mapping of the first `n` regions may take for
/// tables (see `map_budget`).
pub open spec fn direct_budget(entries: Seq<LimineMemMapEntry>, hhdm: u64, n: int) -> int
    decreases n,
{
    if n <= 0 {
        0
    } else {
        direct_budget(entries, hhdm, n - 1) + if direct_mapped_type(entries[n - 1].etype) {
            map_budget((entries[n - 1].base + hhdm) as u64, (entries[n - 1].length / 4096) as int) as int
        } else {
            0int
        }
    }
}

proof fn lemma_direct_budget_grow(entries: Seq<LimineMemMapEntry>, hhdm: u64, a: int, b: int)
    requires
        0 <= a <= b,
    ensures
        0 <= direct_budget(entries, hhdm, a) <= direct_budget(entries, hhdm, b),
    decreases b,
{
    if b > a {
        lemma_direct_budget_grow(entries, hhdm, a, b - 1);
    } else if a > 0 {
        lemma_direct_budget_grow(entries, hhdm, 0, a - 1);
    }
}

/// How many pages building the kernel's tables may take from the allocator:
/// the top-level table, the tables for the direct map and for the kernel's
/// two sections (see `map_budget`: about three for every 512 pages mapped),
/// and the eight stack pages with their tables (see `alloc_budget`).
pub open spec fn init_budget(entries: Seq<LimineMemMapEntry>, hhdm: u64, exec: LimineExecutableAddr, ks: u64, kw: u64, ke: u64) -> nat {
    let lnw = section_pages(ks, kw);
    let lw = section_pages(kw, ke);
    let vb = exec.virtual_base;
    (1 + direct_budget(entries, hhdm, entries.len() as int) + map_budget(vb, lnw) + map_budget((vb + 4096 * lnw) as u64, lw)
        + alloc_budget((vb + 4096 * (lnw + lw)) as u64, 8)) as nat
}

/// Builds the kernel's page tables in a newly allocated top-level table,
/// zeroed first so that it holds no stale entries: the
/// direct map of the usable, reclaimable, kernel, framebuffer and ACPI
/// regions, the kernel's read-only section (`kernel_start` to
/// `kernel_write_allowed_start`, global) and writable section (to
/// `kernel_end`, global and writable) at the kernel's virtual base, and eight
/// stack pages above the kernel, every table below the top-level one linked
/// in present, writable and user. The pages it takes from the allocator are
/// the tables and the stack frames. Returns the top-level table's physical
/// address and the stack top. It succeeds whenever the allocator can hand out
/// the pages `init_budget` counts (about three for every 512 pages mapped);
/// running out of pages gives nothing, with the allocator left out of pages,
/// not a panic.
#[verifier::rlimit(40)]
pub fn init(
    mem_map_entries: &Vec<LimineMemMapEntry>,
    executable_addr: LimineExecutableAddr,
    kernel_start: u64,
    kernel_write_allowed_start: u64,
    kernel_end: u64,
    mem: &mut PhysMemory,
    allocator: &mut PhysMemAllocator,
) -> (r: Option<(PhyAddr, VirtAddr)>)
    requires
        mem_ok(old(mem)@),
        frames_ok(old(allocator)@, old(mem)@),
        init_fits(mem_map_entries@, old(mem)@.hhdm, executable_addr, kernel_start, kernel_write_allowed_start, kernel_end),
    ensures
        final(mem)@.hhdm == old(mem)@.hhdm,
        mem_ok(final(mem)@),
        frames_ok(final(allocator)@, final(mem)@),
        r is None ==> out_of_pages(final(allocator)@, old(allocator)@.list is Some),
        can_alloc(old(allocator)@, init_budget(mem_map_entries@, old(mem)@.hhdm, executable_addr, kernel_start, kernel_write_allowed_start, kernel_end))
            ==> r is Some,
        counts_exact(old(allocator)@) && old(allocator)@.free_pages >= init_budget(mem_map_entries@, old(mem)@.hhdm, executable_addr, kernel_start, kernel_write_allowed_start, kernel_end) ==> r is Some,
        r matches Some((pml4, top)) ==> {
            let p = pml4.0 as int;
            let vb = executable_addr.virtual_base;
            let pb = executable_addr.physical_base;
            let lnw = section_pages(kernel_start, kernel_write_allowed_start);
            let lw = section_pages(kernel_write_allowed_start, kernel_end);
            &&& pml4 == alloc_page_spec(old(allocator)@).1.unwrap()
            &&& pml4.0 + old(mem)@.hhdm <= u64::MAX
            &&& paging_ready(final(mem)@, final(allocator)@, (pml4.0 + old(mem)@.hhdm) as u64)
            &&& all_tables_linked(final(mem)@.words, p)
            &&& used_for_tables_or(final(mem)@.words, old(allocator)@.bits.unwrap(), final(allocator)@.bits.unwrap(), p,
                (vb + 4096 * (lnw + lw)) as u64, 8)
            &&& top.0 == vb + 4096 * (lnw + lw + 8)
            &&& forall|j: int| 0 <= j < lnw ==> #[trigger] mapping(final(mem)@.words, p, (vb + 4096 * j) as u64)
                == Some(entry_value((pb + 4096 * j) as u64, PAGE_PRESENT | PAGE_GLOBAL))
            &&& forall|j: int| lnw <= j < lnw + lw ==> #[trigger] mapping(final(mem)@.words, p, (vb + 4096 * j) as u64)
                == Some(entry_value((pb + 4096 * j) as u64, PAGE_PRESENT | PAGE_WRITABLE | PAGE_GLOBAL))
            &&& forall|j: int| lnw + lw <= j < lnw + lw + 8 ==> #[trigger] mapping(final(mem)@.words, p, (vb + 4096 * j) as u64) is Some
            &&& forall|j: int| lnw + lw <= j < lnw + lw + 8
                && !in_direct_map(mem_map_entries@, old(mem)@.hhdm, mem_map_entries@.len() as int, (vb + 4096 * j) as u64) ==> {
                let f = leaf_frame(final(mem)@.words, p, (vb + 4096 * j) as u64);
                &&& #[trigger] leaf_entry(final(mem)@.words, p, (vb + 4096 * j) as u64)
                    == Some(entry_value(f as u64, PAGE_PRESENT | PAGE_WRITABLE | PAGE_GLOBAL))
                &&& 0 <= f / 4096 < old(allocator)@.bits.unwrap().len()
                &&& !old(allocator)@.bits.unwrap()[f / 4096]
                &&& final(allocator)@.bits.unwrap()[f / 4096]
            }
            &&& forall|j1: int, j2: int| lnw + lw <= j1 < j2 < lnw + lw + 8
                && !in_direct_map(mem_map_entries@, old(mem)@.hhdm, mem_map_entries@.len() as int, (vb + 4096 * j1) as u64)
                && !in_direct_map(mem_map_entries@, old(mem)@.hhdm, mem_map_entries@.len() as int, (vb + 4096 * j2) as u64)
                ==> #[trigger] leaf_frame(final(mem)@.words, p, (vb + 4096 * j1) as u64)
                    != #[trigger] leaf_frame(final(mem)@.words, p, (vb + 4096 * j2) as u64)
            &&& forall|k: int, j: int|
                0 <= k < mem_map_entries@.len() && direct_mapped_type(mem_map_entries@[k].etype) && 0 <= j < mem_map_entries@[k].length / 4096
                    && !remapped_later(mem_map_entries@, old(mem)@.hhdm, k, mem_map_entries@.len() as int, direct_va(mem_map_entries@[k], old(mem)@.hhdm, j))
                    && page_offset(direct_va(mem_map_entries@[k], old(mem)@.hhdm, j), vb) >= lnw + lw
                    ==> #[trigger] mapping(final(mem)@.words, p, direct_va(mem_map_entries@[k], old(mem)@.hhdm, j))
                        == Some(entry_value((mem_map_entries@[k].base + 4096 * j) as u64, direct_flags(mem_map_entries@[k].etype)))
            &&& forall|k: int, j: int|
                0 <= k < mem_map_entries@.len() && direct_mapped_type(mem_map_entries@[k].etype) && 0 <= j < mem_map_entries@[k].length / 4096
                    && !remapped_later(mem_map_entries@, old(mem)@.hhdm, k, mem_map_entries@.len() as int, direct_va(mem_map_entries@[k], old(mem)@.hhdm, j))
                    && page_offset(direct_va(mem_map_entries@[k], old(mem)@.hhdm, j), vb) >= lnw + lw
                    ==> #[trigger] mapping(final(mem)@.words, p, direct_va(mem_map_entries@[k], old(mem)@.hhdm, j)) is Some && {
                        let e = mapping(final(mem)@.words, p, direct_va(mem_map_entries@[k], old(mem)@.hhdm, j)).unwrap();
                        &&& e & 1 != 0
                        &&& e & 2 != 0
                        &&& e & 4 == 0
                        &&& (e & 0x10 != 0) == (mem_map_entries@[k].etype == LIMINE_MEMMAP_FRAMEBUFFER)
                        &&& e & 0x8000_0000_0000_0000 == 0
                    }
        },
{
    let hhdm: u64 = mem.hhdm();
    let ghost entries0 = mem_map_entries@;
    let ghost budget = init_budget(mem_map_entries@, hhdm, executable_addr, kernel_start, kernel_write_allowed_start, kernel_end);
    let ghost total_direct = direct_budget(entries0, hhdm, entries0.len() as int);
    proof {
        if counts_exact(allocator@) && allocator@.free_pages >= budget {
            lemma_free_pages_can_alloc(allocator@, budget);
        }
        lemma_alloc_frame(allocator@, mem@);
        lemma_alloc_failure(allocator@);
        lemma_direct_budget_grow(entries0, hhdm, 0, entries0.len() as int);
    }
    let pml4_addr_phys = match allocator.alloc_page() {
        Some(a) => a,
        None => {
            proof {
                if can_alloc(old(allocator)@, budget) {
                    assert(budget >= 1);
                }
            }
            return None;
        },
    };
    proof {
        if can_alloc(old(allocator)@, budget) {
            assert(can_alloc(allocator@, (budget - 1) as nat));
        }
    }
    let pml4_addr_virt = VirtAddr(pml4_addr_phys.0 + hhdm);
    let ghost p = pml4_addr_phys.0 as int;
    let _root = PageEntry::from_zeroed(pml4_addr_virt, mem);
    let ghost b_root = allocator@.bits.unwrap();
    let ghost wz = mem@.words;
    proof {
        assert forall|i: int| 0 <= i < 512 implies !present(#[trigger] entry_at(mem@.words, p, i)) by {
            lemma_zero_not_present();
        }
        lemma_empty_tree(mem@.words, p, allocator@.bits.unwrap());
        assert forall|va: u64| #[trigger] mapping(mem@.words, p, va) is None by {
            lemma_empty_tree_unmapped(mem@.words, p, va);
        }
    }

    let mut k: usize = 0;
    while k < mem_map_entries.len()
        invariant
            init_fits(mem_map_entries@, hhdm, executable_addr, kernel_start, kernel_write_allowed_start, kernel_end),
            hhdm == mem@.hhdm,
            hhdm == old(mem)@.hhdm,
            pml4_addr_virt.0 == p + hhdm,
            paging_ready(mem@, allocator@, pml4_addr_virt.0),
            old(allocator)@.list is None ==> allocator@.list is None,
            b_root == old(allocator)@.bits.unwrap().update(p / 4096, true),
            b_root.len() == old(allocator)@.bits.unwrap().len(),
            allocator@.bits.unwrap().len() == b_root.len(),
            forall|x: int| 0 <= x < b_root.len() && b_root[x] ==> #[trigger] allocator@.bits.unwrap()[x],
            k <= mem_map_entries.len(),
            direct_map_holds(mem@.words, p, mem_map_entries@, hhdm, k as int),
            entries0 == mem_map_entries@,
            budget == init_budget(mem_map_entries@, hhdm, executable_addr, kernel_start, kernel_write_allowed_start, kernel_end),
            counts_exact(old(allocator)@) && old(allocator)@.free_pages >= budget ==> can_alloc(old(allocator)@, budget),
            total_direct == direct_budget(entries0, hhdm, entries0.len() as int),
            can_alloc(old(allocator)@, budget) ==> can_alloc(allocator@, (budget - 1 - direct_budget(entries0, hhdm, k as int)) as nat),
            forall|va: u64| !in_direct_map(mem_map_entries@, hhdm, k as int, va) ==> #[trigger] mapping(mem@.words, p, va) is None,
            forall|i: int| 0 <= i < 512 ==> !present(#[trigger] entry_at(wz, p, i)),
            new_tables_linked(wz, mem@.words, p),
            links_kept(wz, mem@.words, p),
            new_used_are_tables(wz, b_root, mem@.words, allocator@.bits.unwrap(), p),
        decreases mem_map_entries.len() - k,
    {
        let entry = mem_map_entries[k];
        let ghost w_before = mem@.words;
        let ghost entries = mem_map_entries@;
        if entry.etype == LIMINE_MEMMAP_USABLE || entry.etype == LIMINE_MEMMAP_BOOTLOADER_RECLAIMABLE
            || entry.etype == LIMINE_MEMMAP_EXECUTABLE_AND_MODULES || entry.etype == LIMINE_MEMMAP_FRAMEBUFFER
            || entry.etype == LIMINE_MEMMAP_ACPI_RECLAIMABLE {
            assert(direct_mapped_type(mem_map_entries@[k as int].etype));
            let flags: u8 = if entry.etype == LIMINE_MEMMAP_FRAMEBUFFER {
                PAGE_PRESENT | PAGE_WRITABLE | PAGE_DISABLE_CACHE
            } else {
                PAGE_PRESENT | PAGE_WRITABLE
            };
            let ghost apre = allocator@;
            let ghost rem: nat = (budget - 1 - direct_budget(entries0, hhdm, k as int)) as nat;
            let ghost dva = (entry.base + hhdm) as u64;
            let ghost dn = (entry.length / 4096) as int;
            let ghost need = map_need(w_before, p, dva, dn);
            proof {
                lemma_direct_budget_grow(entries0, hhdm, k + 1, entries0.len() as int);
                lemma_direct_budget_grow(entries0, hhdm, 0, k as int);
                assert(direct_budget(entries0, hhdm, k + 1) == direct_budget(entries0, hhdm, k as int) + map_budget(dva, dn));
                lemma_map_need_mono(w_before, p, dva, dn, dn);
                assert(rem >= map_budget(dva, dn));
            }
            if !map_pages(pml4_addr_virt, VirtAddr(entry.base + hhdm), PhyAddr(entry.base), entry.length / 0x1000, flags, mem, allocator) {
                proof {
                    if can_alloc(old(allocator)@, budget) {
                        assert(can_alloc(apre, rem));
                    }
                }
                return None;
            }
            proof {
                lemma_linked_trans(wz, w_before, mem@.words, p);
                lemma_new_used_trans(wz, b_root, w_before, apre.bits.unwrap(), mem@.words, allocator@.bits.unwrap(), p);
                if can_alloc(old(allocator)@, budget) {
                    assert(can_alloc(apre, rem));
                    lemma_can_alloc_fewer(allocator@, (rem - need) as nat, (rem - map_budget(dva, dn)) as nat);
                }
            }
            proof {
                assert forall|va: u64| !in_direct_map(entries, hhdm, k + 1, va) implies #[trigger] mapping(mem@.words, p, va) is None by {
                    if in_direct_range(entries[k as int], hhdm, va) {
                        assert(in_direct_map(entries, hhdm, k + 1, va));
                    }
                    if in_direct_map(entries, hhdm, k as int, va) {
                        let k2 = choose|k2: int| 0 <= k2 < k && #[trigger] in_direct_range(entries[k2], hhdm, va);
                        assert(in_direct_map(entries, hhdm, k + 1, va));
                    }
                    assert(page_offset(va, (entry.base + hhdm) as u64) >= entry.length / 4096);
                }
                lemma_direct_flags_present(entry.etype);
                assert(flags == direct_flags(entry.etype));
                assert forall|k1: int, j: int|
                    0 <= k1 < k + 1 && direct_mapped_type(entries[k1].etype) && 0 <= j < entries[k1].length / 4096
                        && !remapped_later(entries, hhdm, k1, k + 1, direct_va(entries[k1], hhdm, j))
                        implies #[trigger] mapping(mem@.words, p, direct_va(entries[k1], hhdm, j))
                            == Some(entry_value((entries[k1].base + 4096 * j) as u64, direct_flags(entries[k1].etype))) by {
                    let va = direct_va(entries[k1], hhdm, j);
                    if k1 == k {
                        assert(va == ((entry.base + hhdm) as u64 + 4096 * j) as u64);
                        assert(leaf_entry(mem@.words, p, va) == Some(entry_value((entry.base + 4096 * j) as u64, flags)));
                        lemma_present_entry_maps(mem@.words, p, va, (entry.base + 4096 * j) as u64, flags);
                    } else {
                        if in_direct_range(entries[k as int], hhdm, va) {
                            assert(remapped_later(entries, hhdm, k1, k + 1, va));
                        }
                        assert(page_offset(va, (entry.base + hhdm) as u64) >= entry.length / 4096);
                        if remapped_later(entries, hhdm, k1, k as int, va) {
                            let k2 = choose|k2: int| k1 < k2 < k && #[trigger] in_direct_range(entries[k2], hhdm, va);
                            assert(remapped_later(entries, hhdm, k1, k + 1, va));
                        }
                    }
                }
            }
        } else {
            proof {
                assert forall|va: u64| !in_direct_map(entries, hhdm, k + 1, va) implies #[trigger] mapping(mem@.words, p, va) is None by {
                    if in_direct_map(entries, hhdm, k as int, va) {
                        let k2 = choose|k2: int| 0 <= k2 < k && #[trigger] in_direct_range(entries[k2], hhdm, va);
                        assert(in_direct_map(entries, hhdm, k + 1, va));
                    }
                }
                assert forall|k1: int, j: int|
                    0 <= k1 < k + 1 && direct_mapped_type(entries[k1].etype) && 0 <= j < entries[k1].length / 4096
                        && !remapped_later(entries, hhdm, k1, k + 1, direct_va(entries[k1], hhdm, j))
                        implies #[trigger] mapping(mem@.words, p, direct_va(entries[k1], hhdm, j))
                            == Some(entry_value((entries[k1].base + 4096 * j) as u64, direct_flags(entries[k1].etype))) by {
                    let va = direct_va(entries[k1], hhdm, j);
                    if remapped_later(entries, hhdm, k1, k as int, va) {
                        let k2 = choose|k2: int| k1 < k2 < k && #[trigger] in_direct_range(entries[k2], hhdm, va);
                        assert(remapped_later(entries, hhdm, k1, k + 1, va));
                    }
                }
            }
        }
        k = k + 1;
    }

    let ghost w_loop = mem@.words;
    let vb: u64 = executable_addr.virtual_base;
    let pb: u64 = executable_addr.physical_base;
    let length_non_writable: u64 = section_page_count(kernel_start, kernel_write_allowed_start);
    let ghost lnw = section_pages(kernel_start, kernel_write_allowed_start);
    let ghost lw = section_pages(kernel_write_allowed_start, kernel_end);
    let ghost rw_va = (vb + 4096 * lnw) as u64;
    let ghost stack_va = (vb + 4096 * (lnw + lw)) as u64;
    let ghost rem1: nat = (map_budget(rw_va, lw) + alloc_budget(stack_va, 8)) as nat;
    let ghost rem0: nat = (map_budget(vb, lnw) + rem1) as nat;
    let ghost a_loop = allocator@;
    proof {
        assert(budget - 1 - total_direct == rem0);
        lemma_map_need_mono(w_loop, p, vb, lnw, lnw);
    }
    if !map_pages(pml4_addr_virt, VirtAddr(vb), PhyAddr(pb), length_non_writable, PAGE_PRESENT | PAGE_GLOBAL, mem, allocator) {
        proof {
            if can_alloc(old(allocator)@, budget) {
                assert(can_alloc(a_loop, rem0));
            }
        }
        return None;
    }
    let ghost a_ro = allocator@;
    proof {
        lemma_new_used_trans(wz, b_root, w_loop, a_loop.bits.unwrap(), mem@.words, allocator@.bits.unwrap(), p);
        lemma_linked_trans(wz, w_loop, mem@.words, p);
        if can_alloc(old(allocator)@, budget) {
            assert(can_alloc(a_loop, rem0));
            lemma_can_alloc_fewer(a_ro, (rem0 - map_need(w_loop, p, vb, lnw)) as nat, rem1);
        }
    }
    let ghost w_ro = mem@.words;
    let length_writable: u64 = section_page_count(kernel_write_allowed_start, kernel_end);
    let rw_virt: u64 = vb + length_non_writable * 0x1000;
    let rw_phys: u64 = pb + length_non_writable * 0x1000;
    proof {
        assert(rw_virt == rw_va);
        lemma_map_need_mono(w_ro, p, rw_va, lw, lw);
    }
    if !map_pages(pml4_addr_virt, VirtAddr(rw_virt), PhyAddr(rw_phys), length_writable, PAGE_PRESENT | PAGE_WRITABLE | PAGE_GLOBAL, mem, allocator) {
        proof {
            if can_alloc(old(allocator)@, budget) {
                assert(can_alloc(a_ro, rem1));
            }
        }
        return None;
    }
    let ghost a_rw = allocator@;
    proof {
        lemma_new_used_trans(wz, b_root, w_ro, a_ro.bits.unwrap(), mem@.words, allocator@.bits.unwrap(), p);
        lemma_linked_trans(wz, w_ro, mem@.words, p);
        if can_alloc(old(allocator)@, budget) {
            assert(can_alloc(a_ro, rem1));
            lemma_can_alloc_fewer(a_rw, (rem1 - map_need(w_ro, p, rw_va, lw)) as nat, alloc_budget(stack_va, 8));
        }
    }
    let ghost w_rw = mem@.words;
    let ghost b_rw = allocator@.bits.unwrap();
    let kernel_size: u64 = length_non_writable + length_writable;
    let kernel_virtual_end: u64 = vb + kernel_size * 0x1000;
    proof {
        assert(kernel_virtual_end == stack_va);
        lemma_alloc_need_mono(w_rw, p, stack_va, 8, 8);
    }
    if !alloc_pages(pml4_addr_virt, VirtAddr(kernel_virtual_end), 8, PAGE_PRESENT | PAGE_WRITABLE | PAGE_GLOBAL, mem, allocator) {
        proof {
            if can_alloc(old(allocator)@, budget) {
                assert(can_alloc(a_rw, alloc_budget(stack_va, 8)));
            }
        }
        return None;
    }
    proof {
        let bo = old(allocator)@.bits.unwrap();
        assert(b_rw.len() * 512 <= mem@.words.len());
        assert forall|x: int| 0 <= x < bo.len() && bo[x] implies #[trigger] b_rw[x] by {
            assert(b_root[x]);
        }
        lemma_stack_pages(mem_map_entries@, hhdm, p, vb, length_non_writable, length_writable,
            w_loop, w_ro, w_rw, mem@.words, bo, b_rw, allocator@.bits.unwrap());
        lemma_init_pages_used(wz, bo, b_root, w_rw, b_rw, mem@.words, allocator@.bits.unwrap(), p, kernel_virtual_end);
        lemma_linked_trans(wz, w_rw, mem@.words, p);
        lemma_all_tables_linked(wz, mem@.words, p);
    }
    proof {
        let lnw = length_non_writable as int;
        let lw = length_writable as int;
        let w = mem@.words;
        lemma_kernel_flags_present();
        assert forall|j: int| 0 <= j < lnw implies #[trigger] mapping(w, p, (vb + 4096 * j) as u64)
            == Some(entry_value((pb + 4096 * j) as u64, PAGE_PRESENT | PAGE_GLOBAL)) by {
            let va = (vb + 4096 * j) as u64;
            if lw > 0 {
                lemma_page_offset_step(vb, j as u64);
                lemma_offset_shift(va, vb, length_non_writable);
                assert(rw_virt == vb + 4096 * lnw);
                assert(page_offset(va, rw_virt) == (j - lnw + 0x10_0000_0000) % 0x10_0000_0000);
                vstd::arithmetic::div_mod::lemma_small_mod((j - lnw + 0x10_0000_0000) as nat, 0x10_0000_0000nat);
            }
            assert(leaf_entry(w_ro, p, va) == Some(entry_value((pb + 4096 * j) as u64, PAGE_PRESENT | PAGE_GLOBAL)));
            assert(mapping(w_rw, p, va) == mapping(w_ro, p, va));
            lemma_backing_keeps_mapped(w_rw, b_rw, w, allocator@.bits.unwrap(), p, kernel_virtual_end, 8, PAGE_PRESENT | PAGE_WRITABLE | PAGE_GLOBAL, va);
        }
        assert forall|j: int| lnw <= j < lnw + lw implies #[trigger] mapping(w, p, (vb + 4096 * j) as u64)
            == Some(entry_value((pb + 4096 * j) as u64, PAGE_PRESENT | PAGE_WRITABLE | PAGE_GLOBAL)) by {
            let va = (vb + 4096 * j) as u64;
            let jj = j - lnw;
            assert((rw_virt + 4096 * jj) as u64 == va);
            assert((rw_phys + 4096 * jj) as u64 == (pb + 4096 * j) as u64);
            assert(leaf_entry(w_rw, p, (rw_virt + 4096 * jj) as u64) == Some(entry_value((rw_phys + 4096 * jj) as u64, PAGE_PRESENT | PAGE_WRITABLE | PAGE_GLOBAL)));
            lemma_backing_keeps_mapped(w_rw, b_rw, w, allocator@.bits.unwrap(), p, kernel_virtual_end, 8, PAGE_PRESENT | PAGE_WRITABLE | PAGE_GLOBAL, va);
        }
        assert forall|j: int| lnw + lw <= j < lnw + lw + 8 implies #[trigger] mapping(w, p, (vb + 4096 * j) as u64) is Some by {
            let va = (vb + 4096 * j) as u64;
            let jj = j - lnw - lw;
            assert((kernel_virtual_end + 4096 * jj) as u64 == va);
            assert(backed(w_rw, b_rw, w, allocator@.bits.unwrap(), p, (kernel_virtual_end + 4096 * jj) as u64, PAGE_PRESENT | PAGE_WRITABLE | PAGE_GLOBAL));
            if mapping(w_rw, p, va) is None {
                let f = choose|f: u64| #![trigger entry_value(f, PAGE_PRESENT | PAGE_WRITABLE | PAGE_GLOBAL)] {
                    &&& f % 4096 == 0
                    &&& f as int / 4096 < b_rw.len()
                    &&& !b_rw[f as int / 4096]
                    &&& allocator@.bits.unwrap()[f as int / 4096]
                    &&& leaf_entry(w, p, va) == Some(entry_value(f, PAGE_PRESENT | PAGE_WRITABLE | PAGE_GLOBAL))
                };
                assert(present(entry_value(f, PAGE_PRESENT | PAGE_WRITABLE | PAGE_GLOBAL)));
            }
        }
    }
    proof {
        let lnw = length_non_writable as int;
        let lw = length_writable as int;
        let w = mem@.words;
        let entries = mem_map_entries@;
        assert forall|k: int, j: int|
            0 <= k < entries.len() && direct_mapped_type(entries[k].etype) && 0 <= j < entries[k].length / 4096
                && !remapped_later(entries, hhdm, k, entries.len() as int, direct_va(entries[k], hhdm, j))
                && page_offset(direct_va(entries[k], hhdm, j), vb) >= lnw + lw
                implies #[trigger] mapping(w, p, direct_va(entries[k], hhdm, j))
                    == Some(entry_value((entries[k].base + 4096 * j) as u64, direct_flags(entries[k].etype))) by {
            let va = direct_va(entries[k], hhdm, j);
            assert(mapping(w_loop, p, va) == Some(entry_value((entries[k].base + 4096 * j) as u64, direct_flags(entries[k].etype))));
            assert(mapping(w_ro, p, va) == mapping(w_loop, p, va));
            if lw > 0 {
                lemma_offset_shift(va, vb, length_non_writable);
                let o = page_offset(va, vb);
                vstd::arithmetic::div_mod::lemma_small_mod((o - lnw) as nat, 0x10_0000_0000nat);
                vstd::arithmetic::div_mod::lemma_mod_add_multiples_vanish(o - lnw, 0x10_0000_0000);
                assert(page_offset(va, rw_virt) == o - lnw);
            }
            assert(mapping(w_rw, p, va) == mapping(w_loop, p, va));
            lemma_backing_keeps_mapped(w_rw, b_rw, w, allocator@.bits.unwrap(), p, kernel_virtual_end, 8, PAGE_PRESENT | PAGE_WRITABLE | PAGE_GLOBAL, va);
        }
        assert forall|k: int, j: int|
            0 <= k < entries.len() && direct_mapped_type(entries[k].etype) && 0 <= j < entries[k].length / 4096
                && !remapped_later(entries, hhdm, k, entries.len() as int, direct_va(entries[k], hhdm, j))
                && page_offset(direct_va(entries[k], hhdm, j), vb) >= lnw + lw
                implies #[trigger] mapping(w, p, direct_va(entries[k], hhdm, j)) is Some && {
                    let e = mapping(w, p, direct_va(entries[k], hhdm, j)).unwrap();
                    &&& e & 1 != 0
                    &&& e & 2 != 0
                    &&& e & 4 == 0
                    &&& (e & 0x10 != 0) == (entries[k].etype == LIMINE_MEMMAP_FRAMEBUFFER)
                    &&& e & 0x8000_0000_0000_0000 == 0
                } by {
            lemma_direct_entry_bits((entries[k].base + 4096 * j) as u64, entries[k].etype);
        }
    }
    Some((pml4_addr_phys, VirtAddr(kernel_virtual_end + 8 * 0x1000)))
}


/// A page mapped with the present flag is mapped, to its frame: the entry's
/// address bits are the frame's.
pub proof fn lemma_present_entry_maps(w: Seq<u64>, p: int, va: u64, phys: u64, flags: u8)
    requires
        leaf_entry(w, p, va) == Some(entry_value(phys, flags)),
        flags & PAGE_PRESENT != 0,
    ensures
        mapping(w, p, va) == Some(entry_value(phys, flags)),
        frame_of(entry_value(phys, flags)) == (phys & ADDRESS_MASK) as int,
{
    assert((attr_of(flags) | (phys & 0x000F_FFFF_FFFF_F000u64)) & 1u64 != 0u64) by (bit_vector)
        requires
            flags & 1u8 != 0u8,
            attr_of(flags) == (if flags & 1u8 != 0 { 1u64 } else { 0u64 })
                | (if flags & 2u8 != 0 { 2u64 } else { 0u64 })
                | (if flags & 4u8 != 0 { 4u64 } else { 0u64 })
                | (if flags & 8u8 != 0 { 8u64 } else { 0u64 })
                | (if flags & 16u8 != 0 { 16u64 } else { 0u64 })
                | (if flags & 32u8 != 0 { 0x100u64 } else { 0u64 })
                | (if flags & 64u8 != 0 { 0x8000_0000_0000_0000u64 } else { 0u64 });
    let a = attr_of(flags);
    assert((a | (phys & 0x000F_FFFF_FFFF_F000u64)) & 0x000F_FFFF_FFFF_F000u64 == phys & 0x000F_FFFF_FFFF_F000u64) by (bit_vector)
        requires
            a == (if flags & 1u8 != 0 { 1u64 } else { 0u64 })
                | (if flags & 2u8 != 0 { 2u64 } else { 0u64 })
                | (if flags & 4u8 != 0 { 4u64 } else { 0u64 })
                | (if flags & 8u8 != 0 { 8u64 } else { 0u64 })
                | (if flags & 16u8 != 0 { 16u64 } else { 0u64 })
                | (if flags & 32u8 != 0 { 0x100u64 } else { 0u64 })
                | (if flags & 64u8 != 0 { 0x8000_0000_0000_0000u64 } else { 0u64 });
}

} // verus!
