//! Addresses and the bootloader's memory map.
use vstd::prelude::*;

pub mod bitmap;
pub mod free_list;
pub mod physical;
pub mod paging;
pub mod slab;

verus! {

/// Memory map entry type: usable RAM.
pub const LIMINE_MEMMAP_USABLE: u64 = 0;
/// Memory map entry type: reserved.
pub const LIMINE_MEMMAP_RESERVED: u64 = 1;
/// Memory map entry type: ACPI reclaimable.
pub const LIMINE_MEMMAP_ACPI_RECLAIMABLE: u64 = 2;
/// Memory map entry type: ACPI NVS.
pub const LIMINE_MEMMAP_ACPI_NVS: u64 = 3;
/// Memory map entry type: bad memory.
pub const LIMINE_MEMMAP_BAD_MEMORY: u64 = 4;
/// Memory map entry type: bootloader reclaimable.
pub const LIMINE_MEMMAP_BOOTLOADER_RECLAIMABLE: u64 = 5;
/// Memory map entry type: the kernel image and its modules.
pub const LIMINE_MEMMAP_EXECUTABLE_AND_MODULES: u64 = 6;
/// Memory map entry type: the framebuffer.
pub const LIMINE_MEMMAP_FRAMEBUFFER: u64 = 7;
/// Memory map entry type: reserved and mapped.
pub const LIMINE_MEMMAP_RESERVED_MAPPED: u64 = 8;

/// A physical address.
#[derive(Clone, Copy, Debug, PartialEq, Eq, Structural)]
pub struct PhyAddr(pub u64);

/// A virtual address.
#[derive(Clone, Copy, Debug, PartialEq, Eq, Structural)]
pub struct VirtAddr(pub u64);

/// One region of the bootloader's memory map.
#[derive(Clone, Copy, Debug, PartialEq, Eq, Structural)]
pub struct LimineMemMapEntry {
    pub base: u64,
    pub length: u64,
    pub etype: u64,
}

/// The bootloader's memory map: its revision and its regions.
pub struct LimineMemMap {
    pub revision: u64,
    pub count: u64,
    pub entries: Vec<LimineMemMapEntry>,
}

/// Where the bootloader loaded the kernel, physically and virtually.
#[derive(Clone, Copy, Debug, PartialEq, Eq, Structural)]
pub struct LimineExecutableAddr {
    pub revision: u64,
    pub physical_base: u64,
    pub virtual_base: u64,
}


/// Regions that count towards the size of memory: usable, bootloader
/// reclaimable, and the kernel with its modules.
pub open spec fn is_ram_type(etype: u64) -> bool {
    etype == LIMINE_MEMMAP_USABLE || etype == LIMINE_MEMMAP_BOOTLOADER_RECLAIMABLE || etype == LIMINE_MEMMAP_EXECUTABLE_AND_MODULES
}

/// `m` is the end of the highest region that counts towards memory.
pub open spec fn is_memory_size(entries: Seq<LimineMemMapEntry>, m: u64) -> bool {
    &&& exists|k: int| 0 <= k < entries.len() && is_ram_type(entries[k].etype) && #[trigger] entries[k].base + entries[k].length == m
    &&& forall|k: int| 0 <= k < entries.len() && is_ram_type(#[trigger] entries[k].etype) ==> entries[k].base + entries[k].length <= m
}

/// The size of memory: the highest end of a usable, bootloader reclaimable
/// or kernel region. None when there is no such region.
pub fn memory_size(entries: &Vec<LimineMemMapEntry>) -> (r: Option<u64>)
    requires
        forall|k: int| 0 <= k < entries@.len() && is_ram_type(#[trigger] entries@[k].etype) ==> entries@[k].base + entries@[k].length <= u64::MAX,
    ensures
        r is None <==> !exists|k: int| 0 <= k < entries@.len() && is_ram_type(#[trigger] entries@[k].etype),
        r matches Some(m) ==> is_memory_size(entries@, m),
{
    let mut best: Option<u64> = None;
    let mut k: usize = 0;
    while k < entries.len()
        invariant
            k <= entries@.len(),
            forall|j: int| 0 <= j < entries@.len() && is_ram_type(#[trigger] entries@[j].etype) ==> entries@[j].base + entries@[j].length <= u64::MAX,
            best is None <==> !exists|j: int| 0 <= j < k && is_ram_type(#[trigger] entries@[j].etype),
            best matches Some(m) ==> {
                &&& exists|j: int| 0 <= j < k && is_ram_type(entries@[j].etype) && #[trigger] entries@[j].base + entries@[j].length == m
                &&& forall|j: int| 0 <= j < k && is_ram_type(#[trigger] entries@[j].etype) ==> entries@[j].base + entries@[j].length <= m
            },
        decreases entries@.len() - k,
    {
        let e = entries[k];
        if e.etype == LIMINE_MEMMAP_USABLE || e.etype == LIMINE_MEMMAP_BOOTLOADER_RECLAIMABLE || e.etype == LIMINE_MEMMAP_EXECUTABLE_AND_MODULES {
            assert(is_ram_type(entries@[k as int].etype));
            let end: u64 = e.base + e.length;
            best = match best {
                Some(m) => if end > m { Some(end) } else { Some(m) },
                None => Some(end),
            };
        }
        k = k + 1;
    }
    best
}

} // verus!
