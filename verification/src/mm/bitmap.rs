//! The page bitmap: one bit per physical page, set when the page is in use.
use vstd::prelude::*;
use crate::mm::{LimineMemMapEntry, LIMINE_MEMMAP_USABLE};

verus! {

/// Size of a page in bytes.
pub const PAGE_SIZE: u64 = 0x1000;

/// Whether bit `k` of byte `b` is set.
pub open spec fn byte_bit(b: u8, k: int) -> bool {
    (b >> (k as u8)) & 1u8 == 1u8
}

proof fn lemma_set_bit(b: u8, k: u8)
    requires
        k < 8,
    ensures
        forall|j: u8| j < 8 ==> #[trigger] ((b | (1u8 << k)) >> j) & 1u8 == if j == k { 1u8 } else { (b >> j) & 1u8 },
{
    assert(forall|j: u8| j < 8 ==> #[trigger] ((b | (1u8 << k)) >> j) & 1u8 == if j == k { 1u8 } else { (b >> j) & 1u8 }) by (bit_vector)
        requires k < 8;
}

proof fn lemma_clear_bit(b: u8, k: u8)
    requires
        k < 8,
    ensures
        forall|j: u8| j < 8 ==> #[trigger] ((b & !(1u8 << k)) >> j) & 1u8 == if j == k { 0u8 } else { (b >> j) & 1u8 },
{
    assert(forall|j: u8| j < 8 ==> #[trigger] ((b & !(1u8 << k)) >> j) & 1u8 == if j == k { 0u8 } else { (b >> j) & 1u8 }) by (bit_vector)
        requires k < 8;
}

proof fn lemma_test_bit(b: u8, k: u8)
    requires
        k < 8,
    ensures
        (b & (1u8 << k) != 0) == ((b >> k) & 1u8 == 1u8),
{
    assert((b & (1u8 << k) != 0) == ((b >> k) & 1u8 == 1u8)) by (bit_vector)
        requires k < 8;
}

/// Page numbers and addresses convert both ways (see `Bitmap::addr_to_index`
/// and `Bitmap::index_to_addr`): the page holding a page's start address is
/// that page, and an address lies within the page that holds it.
pub proof fn lemma_index_addr_round_trip(index: int, addr: int)
    requires
        0 <= index,
        0 <= addr,
    ensures
        (index * PAGE_SIZE) / (PAGE_SIZE as int) == index,
        (addr / (PAGE_SIZE as int)) * PAGE_SIZE <= addr < (addr / (PAGE_SIZE as int)) * PAGE_SIZE + PAGE_SIZE,
{
    vstd::arithmetic::div_mod::lemma_div_multiples_vanish(index, 4096);
    vstd::arithmetic::div_mod::lemma_fundamental_div_mod(addr, 4096);
}

/// Pages `start .. start + count` are all free.
pub open spec fn free_run(bits: Seq<bool>, start: int, count: int) -> bool {
    forall|j: int| start <= j < start + count ==> !#[trigger] bits[j]
}

/// Some run of `count` free pages lies below page `total`.
pub open spec fn has_free_run(bits: Seq<bool>, count: int, total: int) -> bool {
    exists|s: int| 0 <= s && s + count <= total && #[trigger] free_run(bits, s, count)
}

/// `start` begins the lowest run of `count` free pages below page `total`.
pub open spec fn is_first_free_run(bits: Seq<bool>, count: int, total: int, start: int) -> bool {
    &&& 0 <= start
    &&& start + count <= total
    &&& free_run(bits, start, count)
    &&& forall|s: int| 0 <= s < start ==> !#[trigger] free_run(bits, s, count)
}

/// What a search for `count` free pages below page `total` finds: the start of
/// the lowest run when `count` is at least one. A search for no pages stops at
/// the first page: it answers `0` when that page is free and `1` when not.
pub open spec fn search_result(bits: Seq<bool>, count: int, total: int, r: Option<usize>) -> bool {
    if count == 0 {
        r == if total == 0 { None::<usize> } else if bits[0] { Some(1usize) } else { Some(0usize) }
    } else {
        match r {
            Some(s) => is_first_free_run(bits, count, total, s as int),
            None => !has_free_run(bits, count, total),
        }
    }
}

/// Page `i` holds one of the addresses `base, base + 0x1000, ...` below
/// `base + length`, the addresses that a walk over a region in page steps
/// visits.
pub open spec fn covers(base: u64, length: u64, i: int) -> bool {
    &&& base / 4096 <= i
    &&& i * 4096 + base % 4096 < base + length
}

/// Number of bytes of a bitmap for `total` pages.
pub open spec fn bitmap_length(total: int) -> int {
    (total + 7) / 8
}

/// Region `e` is usable.
pub open spec fn is_usable(e: LimineMemMapEntry) -> bool {
    e.etype == LIMINE_MEMMAP_USABLE
}

/// Region `k` is the first usable region of at least `len` bytes: the bitmap
/// is placed at its start.
pub open spec fn is_bitmap_region(entries: Seq<LimineMemMapEntry>, k: int, len: int) -> bool {
    &&& 0 <= k < entries.len()
    &&& is_usable(entries[k])
    &&& entries[k].length >= len
    &&& forall|j: int| 0 <= j < k ==> !(is_usable(#[trigger] entries[j]) && entries[j].length >= len)
}

/// Some usable region holds at least `len` bytes.
pub open spec fn has_bitmap_region(entries: Seq<LimineMemMapEntry>, len: int) -> bool {
    exists|k: int| 0 <= k < entries.len() && is_usable(#[trigger] entries[k]) && entries[k].length >= len
}

/// Where the bitmap for `total` pages is placed: the start of the first
/// usable region that can hold it.
pub open spec fn bitmap_region_base(entries: Seq<LimineMemMapEntry>, total: int) -> u64 {
    entries[choose|k: int| is_bitmap_region(entries, k, bitmap_length(total))].base
}

/// The bitmap for `total` pages as first built from `entries`.
pub open spec fn initial_bits(entries: Seq<LimineMemMapEntry>, total: int) -> Seq<bool> {
    Seq::new((8 * bitmap_length(total)) as nat, |i: int| initially_used(entries, total, bitmap_region_base(entries, total), i))
}

proof fn lemma_bitmap_region_unique(entries: Seq<LimineMemMapEntry>, len: int, a: int, b: int)
    requires
        is_bitmap_region(entries, a, len),
        is_bitmap_region(entries, b, len),
    ensures
        a == b,
{
    if a < b {
        assert(is_usable(entries[a]) && entries[a].length >= len);
    } else if b < a {
        assert(is_usable(entries[b]) && entries[b].length >= len);
    }
}

/// Page `i` is visited by a walk over one of the first `n` regions that are
/// usable.
pub open spec fn usable_covers(entries: Seq<LimineMemMapEntry>, n: int, i: int) -> bool {
    exists|k: int| 0 <= k < n && is_usable(#[trigger] entries[k]) && covers(entries[k].base, entries[k].length, i)
}

/// Page `i`, no higher than page `total`, is visited by a walk over one of
/// the first `n` regions that are not usable.
pub open spec fn reserved_covers(entries: Seq<LimineMemMapEntry>, n: int, total: int, i: int) -> bool {
    exists|k: int| 0 <= k < n && !is_usable(#[trigger] entries[k]) && covers(entries[k].base, entries[k].length, i) && i <= total
}

/// Whether page `i` starts out in use: it holds the bitmap itself (placed at
/// `bitmap_base`), or a region that is not usable reaches it (up to page
/// `total`), or no usable region reaches it.
pub open spec fn initially_used(entries: Seq<LimineMemMapEntry>, total: int, bitmap_base: u64, i: int) -> bool {
    ||| covers(bitmap_base, bitmap_length(total) as u64, i)
    ||| reserved_covers(entries, entries.len() as int, total, i)
    ||| !usable_covers(entries, entries.len() as int, i)
}

/// What building the bitmap for `total` pages from `entries` needs: the walks
/// over the regions neither overflow nor leave the bitmap.
pub open spec fn memory_map_fits(entries: Seq<LimineMemMapEntry>, total: int) -> bool {
    let nbits = 8 * bitmap_length(total);
    &&& 0 <= total <= u32::MAX - 7
    &&& forall|k: int| 0 <= k < entries.len() ==> {
        &&& #[trigger] entries[k].base + entries[k].length <= u64::MAX
        &&& (entries[k].base + entries[k].length) / 4096 <= usize::MAX
        &&& forall|i: int| covers(entries[k].base, entries[k].length, i) && (is_usable(entries[k]) || i <= total) ==> i < nbits
    }
    &&& forall|k: int, i: int| #[trigger] is_bitmap_region(entries, k, bitmap_length(total)) && #[trigger] covers(entries[k].base, bitmap_length(total) as u64, i) ==> i < nbits
}

/// The pages a walk over `base .. base + length` visits are those from
/// `base / 4096` up to the page of the last byte, less the offset of `base`
/// within its page.
proof fn lemma_covers_range(base: u64, length: u64, i: int)
    requires
        base + length <= u64::MAX,
        length > 0,
    ensures
        covers(base, length, i) <==> base / 4096 <= i <= (base + length - base % 4096 - 1) / 4096,
        base / 4096 <= (base + length - base % 4096 - 1) / 4096,
{
    let r: int = (base % 4096) as int;
    let q: int = (base / 4096) as int;
    let e: int = base + length - r;
    assert(base == q * 4096 + r);
    assert(e - 1 >= q * 4096);
    let m: int = (e - 1) / 4096;
    assert(q <= m) by {
        vstd::arithmetic::div_mod::lemma_div_is_ordered(q * 4096, e - 1, 4096);
        vstd::arithmetic::div_mod::lemma_div_multiples_vanish(q, 4096);
    }
    if covers(base, length, i) {
        assert(i * 4096 <= e - 1);
        vstd::arithmetic::div_mod::lemma_div_is_ordered(i * 4096, e - 1, 4096);
        vstd::arithmetic::div_mod::lemma_div_multiples_vanish(i, 4096);
    }
    if q <= i <= m {
        vstd::arithmetic::div_mod::lemma_fundamental_div_mod(e - 1, 4096);
        assert(i * 4096 <= m * 4096) by (nonlinear_arith)
            requires i <= m;
    }
}

/// The last page a walk over `base .. base + length` visits.
fn last_covered(base: u64, length: u64) -> (m: u64)
    requires
        base + length <= u64::MAX,
        length > 0,
    ensures
        m == (base + length - base % 4096 - 1) / 4096,
{
    (base + length - base % 4096 - 1) / 4096
}

/// Whether building the bitmap for `total_page_number` pages from
/// `mem_map` stays within bounds.
pub fn memory_map_fits_check(mem_map: &Vec<LimineMemMapEntry>, total_page_number: u32) -> (ok: bool)
    ensures
        ok == memory_map_fits(mem_map@, total_page_number as int),
{
    let ghost entries = mem_map@;
    let ghost total = total_page_number as int;
    if total_page_number > u32::MAX - 7 {
        return false;
    }
    let byte_count: u64 = (total_page_number as u64 + 7) / 8;
    let nbits: u64 = 8 * byte_count;
    let mut k: usize = 0;
    while k < mem_map.len()
        invariant
            entries == mem_map@,
            total == total_page_number,
            0 <= total <= u32::MAX - 7,
            byte_count == bitmap_length(total),
            nbits == 8 * bitmap_length(total),
            k <= mem_map.len(),
            forall|j: int| 0 <= j < k ==> {
                &&& #[trigger] entries[j].base + entries[j].length <= u64::MAX
                &&& (entries[j].base + entries[j].length) / 4096 <= usize::MAX
                &&& forall|i: int| covers(entries[j].base, entries[j].length, i) && (is_usable(entries[j]) || i <= total) ==> i < nbits
            },
        decreases mem_map.len() - k,
    {
        let e = mem_map[k];
        if e.base > u64::MAX - e.length {
            return false;
        }
        if (e.base + e.length) / 4096 > usize::MAX as u64 {
            return false;
        }
        if e.length > 0 {
            let first: u64 = e.base / 4096;
            let last: u64 = last_covered(e.base, e.length);
            proof {
                assert forall|i: int| covers(e.base, e.length, i) <==> first <= i <= last by {
                    lemma_covers_range(e.base, e.length, i);
                }
                lemma_covers_range(e.base, e.length, first as int);
            }
            if e.etype == LIMINE_MEMMAP_USABLE {
                if last >= nbits {
                    assert(covers(e.base, e.length, last as int));
                    return false;
                }
            } else if first <= total_page_number as u64 {
                let top: u64 = if last < total_page_number as u64 { last } else { total_page_number as u64 };
                if top >= nbits {
                    assert(covers(e.base, e.length, top as int));
                    return false;
                }
            }
        }
        k = k + 1;
    }
    let mut region: usize = 0;
    while region < mem_map.len() && !(mem_map[region].etype == LIMINE_MEMMAP_USABLE && mem_map[region].length >= byte_count)
        invariant
            forall|j: int| 0 <= j < region ==> !(is_usable(#[trigger] entries[j]) && entries[j].length >= byte_count),
            region <= mem_map.len(),
            entries == mem_map@,
        decreases mem_map.len() - region,
    {
        region = region + 1;
    }
    if region < mem_map.len() {
        proof {
            assert(is_bitmap_region(entries, region as int, bitmap_length(total)));
        }
        let base: u64 = mem_map[region].base;
        if byte_count > 0 {
            let last: u64 = last_covered(base, byte_count);
            proof {
                assert forall|i: int| covers(base, byte_count, i) <==> base / 4096 <= i <= last by {
                    lemma_covers_range(base, byte_count, i);
                }
                lemma_covers_range(base, byte_count, (base / 4096) as int);
            }
            if last >= nbits {
                assert(covers(base, byte_count, last as int));
                return false;
            }
        }
        proof {
            assert forall|k2: int, i: int| #[trigger] is_bitmap_region(entries, k2, bitmap_length(total)) && #[trigger] covers(entries[k2].base, bitmap_length(total) as u64, i) implies i < nbits by {
                lemma_bitmap_region_unique(entries, bitmap_length(total), k2, region as int);
            }
        }
    } else {
        proof {
            assert forall|k2: int, i: int| #[trigger] is_bitmap_region(entries, k2, bitmap_length(total)) && #[trigger] covers(entries[k2].base, bitmap_length(total) as u64, i) implies i < nbits by {
                assert(!(is_usable(entries[k2]) && entries[k2].length >= bitmap_length(total)));
            }
        }
    }
    true
}

/// The page bitmap. Bit `i` (bit `i % 8` of byte `i / 8`) is set when page
/// `i` is in use.
pub struct Bitmap {
    pub data: Vec<u8>,
    /// Where the bytes live in the direct map.
    pub addr: u64,
}

/// The index of the first usable region that can hold the bitmap for
/// `total` pages, where the bitmap is placed.
pub open spec fn bitmap_region_index(entries: Seq<LimineMemMapEntry>, total: int) -> int {
    choose|k: int| is_bitmap_region(entries, k, bitmap_length(total))
}

/// The first usable region that can hold the bitmap for `total_page_number`
/// pages; none when there is no such region.
pub fn bitmap_region(mem_map: &Vec<LimineMemMapEntry>, total_page_number: u32) -> (r: Option<usize>)
    requires
        total_page_number <= u32::MAX - 7,
    ensures
        r is None <==> !has_bitmap_region(mem_map@, bitmap_length(total_page_number as int)),
        r matches Some(k) ==> k == bitmap_region_index(mem_map@, total_page_number as int)
            && is_bitmap_region(mem_map@, k as int, bitmap_length(total_page_number as int)),
{
    let ghost entries = mem_map@;
    let byte_count: u64 = (total_page_number as u64 + 7) / 8;
    let mut region: usize = 0;
    while region < mem_map.len() && !(mem_map[region].etype == LIMINE_MEMMAP_USABLE && mem_map[region].length >= byte_count)
        invariant
            forall|j: int| 0 <= j < region ==> !(is_usable(#[trigger] entries[j]) && entries[j].length >= byte_count),
            region <= mem_map.len(),
            entries == mem_map@,
            byte_count == bitmap_length(total_page_number as int),
        decreases mem_map.len() - region,
    {
        region = region + 1;
    }
    if region == mem_map.len() {
        proof {
            if has_bitmap_region(entries, byte_count as int) {
                let k = choose|k: int| 0 <= k < entries.len() && is_usable(#[trigger] entries[k]) && entries[k].length >= byte_count;
                assert(!(is_usable(entries[k]) && entries[k].length >= byte_count));
            }
        }
        return None;
    }
    proof {
        assert(is_bitmap_region(entries, region as int, byte_count as int));
        let k = choose|k: int| is_bitmap_region(entries, k, bitmap_length(total_page_number as int));
        lemma_bitmap_region_unique(entries, byte_count as int, k, region as int);
    }
    Some(region)
}

impl View for Bitmap {
    type V = Seq<bool>;

    /// One flag per bit: `true` when the page is in use.
    open spec fn view(&self) -> Seq<bool> {
        Seq::new((self.data@.len() * 8) as nat, |i: int| byte_bit(self.data@[i / 8], i % 8))
    }
}

impl Bitmap {
    /// Marks page `index` as used.
    pub fn set(&mut self, index: usize)
        requires
            index < old(self)@.len(),
        ensures
            final(self)@ == old(self)@.update(index as int, true),
            final(self).data@.len() == old(self).data@.len(),
            final(self).addr == old(self).addr,
    {
        let byte: usize = index / 8;
        let bit: usize = index % 8;
        let old_byte: u8 = self.data[byte];
        let mask: u8 = 1u8 << (bit as u8);
        self.data.set(byte, old_byte | mask);
        proof {
            lemma_set_bit(old_byte, bit as u8);
            assert(final(self)@ =~= old(self)@.update(index as int, true)) by {
                assert forall|i: int| 0 <= i < final(self)@.len() implies #[trigger] final(self)@[i] == old(self)@.update(index as int, true)[i] by {
                    if i / 8 == byte as int {
                        assert(((old_byte | mask) >> ((i % 8) as u8)) & 1u8 == if (i % 8) as u8 == bit as u8 { 1u8 } else { (old_byte >> ((i % 8) as u8)) & 1u8 });
                    }
                }
            }
        }
    }

    /// Marks page `index` as free.
    pub fn clear(&mut self, index: usize)
        requires
            index < old(self)@.len(),
        ensures
            final(self)@ == old(self)@.update(index as int, false),
            final(self).data@.len() == old(self).data@.len(),
            final(self).addr == old(self).addr,
    {
        let byte: usize = index / 8;
        let bit: usize = index % 8;
        let old_byte: u8 = self.data[byte];
        let mask: u8 = 1u8 << (bit as u8);
        self.data.set(byte, old_byte & !mask);
        proof {
            lemma_clear_bit(old_byte, bit as u8);
            assert(final(self)@ =~= old(self)@.update(index as int, false)) by {
                assert forall|i: int| 0 <= i < final(self)@.len() implies #[trigger] final(self)@[i] == old(self)@.update(index as int, false)[i] by {
                    if i / 8 == byte as int {
                        assert(((old_byte & !mask) >> ((i % 8) as u8)) & 1u8 == if (i % 8) as u8 == bit as u8 { 0u8 } else { (old_byte >> ((i % 8) as u8)) & 1u8 });
                    }
                }
            }
        }
    }

    /// Whether page `index` is in use.
    pub fn is_used(&self, index: usize) -> (used: bool)
        requires
            index < self@.len(),
        ensures
            used == self@[index as int],
    {
        let byte: usize = index / 8;
        let bit: usize = index % 8;
        let b: u8 = self.data[byte];
        let mask: u8 = 1u8 << (bit as u8);
        proof {
            lemma_test_bit(b, bit as u8);
        }
        b & mask != 0
    }

    /// The page that holds physical address `addr`.
    pub fn addr_to_index(addr: u64) -> (index: usize)
        requires
            addr / PAGE_SIZE <= usize::MAX,
        ensures
            index == addr / PAGE_SIZE,
    {
        (addr / 0x1000) as usize
    }

    /// The physical address where page `index` starts.
    pub fn index_to_addr(index: usize) -> (addr: u64)
        requires
            index * PAGE_SIZE <= u64::MAX,
        ensures
            addr == index * PAGE_SIZE,
    {
        index as u64 * 0x1000
    }

    /// Builds the bitmap for `total_page_number` pages from the memory map:
    /// every page starts out used, the pages of usable regions are freed, then
    /// the pages of the other regions (up to page `total_page_number`) and the
    /// pages that hold the bitmap are marked used again. The bitmap lives at
    /// the start of the first usable region large enough to hold it, seen
    /// through the direct map at `limine_hhdm_offset`; such a region must
    /// exist.
    pub fn from_memory_map(mem_map: &Vec<LimineMemMapEntry>, limine_hhdm_offset: u64, total_page_number: u32) -> (b: Bitmap)
        requires
            memory_map_fits(mem_map@, total_page_number as int),
            has_bitmap_region(mem_map@, bitmap_length(total_page_number as int)),
            bitmap_region_base(mem_map@, total_page_number as int) + limine_hhdm_offset <= u64::MAX,
        ensures
            b@ == initial_bits(mem_map@, total_page_number as int),
            b.addr == mem_map@[bitmap_region_index(mem_map@, total_page_number as int)].base + limine_hhdm_offset,
    {
        let ghost entries = mem_map@;
        let ghost total = total_page_number as int;
        let byte_count: u32 = (total_page_number + 7) / 8;
        let ghost blen = byte_count as int;
        let mut region: usize = 0;
        while region < mem_map.len() && !(mem_map[region].etype == LIMINE_MEMMAP_USABLE && mem_map[region].length >= byte_count as u64)
            invariant
                forall|j: int| 0 <= j < region ==> !(is_usable(#[trigger] entries[j]) && entries[j].length >= blen),
                region <= mem_map.len(),
                entries == mem_map@,
                blen == byte_count,
            decreases mem_map.len() - region,
        {
            region = region + 1;
        }
        proof {
            let k = choose|k: int| 0 <= k < entries.len() && is_usable(#[trigger] entries[k]) && entries[k].length >= blen;
            assert(k >= region);
        }
        assert(is_bitmap_region(entries, region as int, blen));
        let bitmap_base: u64 = mem_map[region].base;
        proof {
            let k = choose|k: int| is_bitmap_region(entries, k, bitmap_length(total));
            lemma_bitmap_region_unique(entries, bitmap_length(total), k, region as int);
        }

        let mut data: Vec<u8> = Vec::new();
        while data.len() < byte_count as usize
            invariant
                data@.len() <= byte_count,
                forall|j: int| 0 <= j < data@.len() ==> data@[j] == 0xFFu8,
            decreases byte_count - data@.len(),
        {
            data.push(0xFFu8);
        }
        let mut bitmap = Bitmap { data, addr: bitmap_base + limine_hhdm_offset };
        assert forall|i: int| 0 <= i < bitmap@.len() implies #[trigger] bitmap@[i] by {
            let k = (i % 8) as u8;
            assert((0xFFu8 >> k) & 1u8 == 1u8) by (bit_vector)
                requires k < 8;
        }

        let mut k: usize = 0;
        while k < mem_map.len()
            invariant
                entries == mem_map@,
                memory_map_fits(entries, total),
                total == total_page_number,
                bitmap.data@.len() == blen,
                blen == bitmap_length(total),
                bitmap.addr == bitmap_base + limine_hhdm_offset,
                bitmap_base == entries[bitmap_region_index(entries, total)].base,
                k <= mem_map.len(),
                forall|i: int| 0 <= i < bitmap@.len() ==> #[trigger] bitmap@[i] == !usable_covers(entries, k as int, i),
            decreases mem_map.len() - k,
        {
            let ghost before = bitmap@;
            if mem_map[k].etype == LIMINE_MEMMAP_USABLE {
                bitmap.mark_region_free(mem_map[k].base, mem_map[k].length);
            }
            assert forall|i: int| 0 <= i < bitmap@.len() implies #[trigger] bitmap@[i] == !usable_covers(entries, k + 1, i) by {
                if usable_covers(entries, k + 1, i) && !usable_covers(entries, k as int, i) {
                    let w = choose|w: int| 0 <= w < k + 1 && is_usable(#[trigger] entries[w]) && covers(entries[w].base, entries[w].length, i);
                    assert(w == k);
                }
                if is_usable(entries[k as int]) && covers(entries[k as int].base, entries[k as int].length, i) {
                    assert(usable_covers(entries, k + 1, i));
                }
                if usable_covers(entries, k as int, i) {
                    let w = choose|w: int| 0 <= w < k && is_usable(#[trigger] entries[w]) && covers(entries[w].base, entries[w].length, i);
                    assert(usable_covers(entries, k + 1, i));
                }
            }
            k = k + 1;
        }

        let mut k: usize = 0;
        while k < mem_map.len()
            invariant
                entries == mem_map@,
                memory_map_fits(entries, total),
                total == total_page_number,
                bitmap.data@.len() == blen,
                blen == bitmap_length(total),
                bitmap.addr == bitmap_base + limine_hhdm_offset,
                bitmap_base == entries[bitmap_region_index(entries, total)].base,
                k <= mem_map.len(),
                forall|i: int| 0 <= i < bitmap@.len() ==> #[trigger] bitmap@[i] == (reserved_covers(entries, k as int, total, i) || !usable_covers(entries, entries.len() as int, i)),
            decreases mem_map.len() - k,
        {
            if mem_map[k].etype != LIMINE_MEMMAP_USABLE {
                bitmap.mark_region_used(mem_map[k].base, mem_map[k].length, total_page_number as usize);
            }
            assert forall|i: int| 0 <= i < bitmap@.len() implies #[trigger] bitmap@[i] == (reserved_covers(entries, k + 1, total, i) || !usable_covers(entries, entries.len() as int, i)) by {
                if reserved_covers(entries, k + 1, total, i) && !reserved_covers(entries, k as int, total, i) {
                    let w = choose|w: int| 0 <= w < k + 1 && !is_usable(#[trigger] entries[w]) && covers(entries[w].base, entries[w].length, i) && i <= total;
                    assert(w == k);
                }
                if !is_usable(entries[k as int]) && covers(entries[k as int].base, entries[k as int].length, i) && i <= total {
                    assert(reserved_covers(entries, k + 1, total, i));
                }
                if reserved_covers(entries, k as int, total, i) {
                    let w = choose|w: int| 0 <= w < k && !is_usable(#[trigger] entries[w]) && covers(entries[w].base, entries[w].length, i) && i <= total;
                    assert(reserved_covers(entries, k + 1, total, i));
                }
            }
            k = k + 1;
        }

        bitmap.mark_region_used(bitmap_base, byte_count as u64, usize::MAX);
        proof {
            let k = choose|k: int| is_bitmap_region(entries, k, bitmap_length(total));
            lemma_bitmap_region_unique(entries, bitmap_length(total), k, region as int);
        }
        assert(bitmap@ =~= initial_bits(entries, total));
        bitmap
    }

    /// Marks as free each page that a walk over `base .. base + length` in
    /// page steps visits.
    fn mark_region_free(&mut self, base: u64, length: u64)
        requires
            base + length <= u64::MAX,
            (base + length) / 4096 <= usize::MAX,
            forall|i: int| covers(base, length, i) ==> i < old(self)@.len(),
        ensures
            final(self).data@.len() == old(self).data@.len(),
            final(self).addr == old(self).addr,
            forall|i: int| 0 <= i < old(self)@.len() ==> #[trigger] final(self)@[i] == (old(self)@[i] && !covers(base, length, i)),
    {
        let end: u64 = base + length;
        if base >= end {
            assert(final(self)@ =~= old(self)@);
            return;
        }
        let mut addr: u64 = base;
        loop
            invariant_except_break
                base <= addr < end,
                forall|i: int| 0 <= i < old(self)@.len() ==> #[trigger] self@[i] == (old(self)@[i] && !(base / 4096 <= i < addr / 4096)),
            invariant
                end == base + length,
                end / 4096 <= usize::MAX,
                addr % 4096 == base % 4096,
                forall|i: int| covers(base, length, i) ==> i < old(self)@.len(),
                self.data@.len() == old(self).data@.len(),
                self.addr == old(self).addr,
            ensures
                self.data@.len() == old(self).data@.len(),
                self.addr == old(self).addr,
                forall|i: int| 0 <= i < old(self)@.len() ==> #[trigger] self@[i] == (old(self)@[i] && !covers(base, length, i)),
            decreases end - addr,
        {
            let index: usize = Bitmap::addr_to_index(addr);
            assert(covers(base, length, index as int));
            self.clear(index);
            if end - addr <= 0x1000 {
                assert forall|i: int| 0 <= i < old(self)@.len() implies #[trigger] self@[i] == (old(self)@[i] && !covers(base, length, i)) by {
                    assert(covers(base, length, i) <==> base / 4096 <= i <= addr / 4096);
                }
                break;
            }
            addr = addr + 0x1000;
        }
    }

    /// Marks as used each page that a walk over `base .. base + length` in
    /// page steps visits, stopping at the first page above `limit`.
    fn mark_region_used(&mut self, base: u64, length: u64, limit: usize)
        requires
            base + length <= u64::MAX,
            (base + length) / 4096 <= usize::MAX,
            forall|i: int| covers(base, length, i) && i <= limit ==> i < old(self)@.len(),
        ensures
            final(self).data@.len() == old(self).data@.len(),
            final(self).addr == old(self).addr,
            forall|i: int| 0 <= i < old(self)@.len() ==> #[trigger] final(self)@[i] == (old(self)@[i] || (covers(base, length, i) && i <= limit)),
    {
        let end: u64 = base + length;
        if base >= end {
            assert(final(self)@ =~= old(self)@);
            return;
        }
        let mut addr: u64 = base;
        loop
            invariant_except_break
                base <= addr < end,
                forall|i: int| 0 <= i < old(self)@.len() ==> #[trigger] self@[i] == (old(self)@[i] || (base / 4096 <= i < addr / 4096 && i <= limit)),
            invariant
                end == base + length,
                end / 4096 <= usize::MAX,
                addr % 4096 == base % 4096,
                forall|i: int| covers(base, length, i) && i <= limit ==> i < old(self)@.len(),
                self.data@.len() == old(self).data@.len(),
                self.addr == old(self).addr,
            ensures
                self.data@.len() == old(self).data@.len(),
                self.addr == old(self).addr,
                forall|i: int| 0 <= i < old(self)@.len() ==> #[trigger] self@[i] == (old(self)@[i] || (covers(base, length, i) && i <= limit)),
            decreases end - addr,
        {
            let index: usize = Bitmap::addr_to_index(addr);
            if index > limit {
                assert forall|i: int| 0 <= i < old(self)@.len() implies #[trigger] self@[i] == (old(self)@[i] || (covers(base, length, i) && i <= limit)) by {
                    assert(covers(base, length, i) ==> base / 4096 <= i);
                }
                break;
            }
            assert(covers(base, length, index as int));
            self.set(index);
            if end - addr <= 0x1000 {
                assert forall|i: int| 0 <= i < old(self)@.len() implies #[trigger] self@[i] == (old(self)@[i] || (covers(base, length, i) && i <= limit)) by {
                    assert(covers(base, length, i) <==> base / 4096 <= i <= addr / 4096);
                }
                break;
            }
            addr = addr + 0x1000;
        }
    }

    /// Looks for `count` consecutive free pages below page `total_page_number`
    /// and returns the first page of the lowest such run.
    pub fn search_free_ranges(&self, count: usize, total_page_number: u32) -> (r: Option<usize>)
        requires
            total_page_number <= self@.len(),
        ensures
            search_result(self@, count as int, total_page_number as int, r),
    {
        let mut range: usize = 0;
        let total: usize = total_page_number as usize;
        let mut index: usize = 0;
        while index < total
            invariant
                total == total_page_number,
                total <= self@.len(),
                index <= total,
                range <= index,
                count == 0 ==> index == 0,
                count > 0 ==> range < count,
                forall|j: int| index - range <= j < index ==> !#[trigger] self@[j],
                range < index ==> self@[index - range - 1],
                count > 0 ==> forall|s: int| 0 <= s && s + count <= index ==> !#[trigger] free_run(self@, s, count as int),
            decreases total - index,
        {
            if !self.is_used(index) {
                range = range + 1;
            } else {
                range = 0;
            }
            if range >= count {
                proof {
                    if count > 0 {
                        assert(free_run(self@, index + 1 - range, count as int));
                    }
                }
                return Some(index + 1 - range);
            }
            proof {
                assert forall|s: int| 0 <= s && s + count <= index + 1 implies !#[trigger] free_run(self@, s, count as int) by {
                    if s + count == index + 1 && free_run(self@, s, count as int) {
                        assert(!self@[index - range]);
                    }
                }
            }
            index = index + 1;
        }
        proof {
            if count > 0 && has_free_run(self@, count as int, total as int) {
                let s = choose|s: int| 0 <= s && s + count <= total && #[trigger] free_run(self@, s, count as int);
                assert(free_run(self@, s, count as int));
            }
        }
        None
    }
}

} // verus!
