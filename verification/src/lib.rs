//! Sv39 memory management for a small RISC-V kernel: addresses and page
//! numbers, a physical frame allocator, a three-level page table and the
//! kernel's address space, each with the contracts that Verus proves.
pub mod address;
pub mod frame_allocator;
pub mod pagetable;
pub mod mem_space;

use vstd::prelude::*;

use crate::address::page_of;
use crate::frame_allocator::{FramePool, LinkedFrameAllocator};
use crate::mem_space::{
    areas_disjoint, in_area, kernel_areas, kernel_frames_needed, kernel_memspace_init,
    layout_ends_positive, KernelLayout, MapType, MemSpace,
};
use crate::pagetable::{PageTableEntry, PTE_V};

verus! {

/// The frame pool right after the allocator is set up for `layout`: the
/// pages from the one after the kernel's end up to the top of memory.
pub open spec fn boot_pool(layout: KernelLayout) -> FramePool {
    FramePool {
        current: page_of(layout.ekernel as int) + 1,
        end: page_of(layout.phystop as int),
        recycle: Seq::empty(),
    }
}

/// Brings up virtual memory: sets up the frame allocator for `layout`,
/// then the kernel's address space in `space`, and returns the `satp`
/// value that turns translation on with it.
pub fn vm_init(allocator: &mut LinkedFrameAllocator, space: &mut MemSpace, layout: &KernelLayout) -> (r: usize)
    requires
        old(allocator)@.recycle.len() == 0,
        old(space).table().wf(),
        old(space).table().frame_ppns().len() == 0,
        layout_ends_positive(*layout),
        areas_disjoint(kernel_areas(*layout)),
        boot_pool(*layout).available() >= kernel_frames_needed(*layout),
    ensures
        final(allocator)@ == boot_pool(*layout).after_allocs(kernel_frames_needed(*layout)),
        final(space).table().initialized(),
        final(space).table().in_use_by(final(allocator)@),
        forall|v: int| #[trigger] final(space).table()@.contains_key(v)
            <==> exists|k: int| 0 <= k < 6 && in_area(kernel_areas(*layout)[k], v),
        forall|k: int, v: int| 0 <= k < 6 && #[trigger] in_area(kernel_areas(*layout)[k], v)
            ==> final(space).table()@[v] == PageTableEntry::spec_new(v, PTE_V | kernel_areas(*layout)[k].2),
        final(space).table().root_ppn() == boot_pool(*layout).alloc_spec().1,
        final(space).table().frame_ppns() == boot_pool(*layout).handed_out(kernel_frames_needed(*layout)),
        final(space).areas().len() == old(space).areas().len() + 6,
        forall|k: int| 0 <= k < old(space).areas().len() ==> #[trigger] final(space).areas()[k] == old(space).areas()[k],
        forall|k: int| 0 <= k < 6 ==> {
            let a = #[trigger] final(space).areas()[old(space).areas().len() + k];
            &&& a.start() == kernel_areas(*layout)[k].0
            &&& a.end() == kernel_areas(*layout)[k].1
            &&& a.kind() == MapType::Identical
            &&& a.perm().bits == kernel_areas(*layout)[k].2
            &&& a.frames_map() == Map::new(|v: int| in_area(kernel_areas(*layout)[k], v), |v: int| v)
        },
        r == ((0x8000_0000_0000_0000u64 + final(space).table().root_ppn()) as u64) as usize,
            usize::BITS == 64 ==> r == 0x8000_0000_0000_0000u64 as int + final(space).table().root_ppn(),
{
    allocator.init(layout.ekernel, layout.phystop);
    proof {
        assert(allocator@ == boot_pool(*layout)) by {
            assert(allocator@.recycle =~= Seq::<int>::empty());
        }
        crate::pagetable::lemma_no_frames_in_use(space.table(), allocator@);
    }
    kernel_memspace_init(space, allocator, layout);
    assert(Seq::<int>::empty() + boot_pool(*layout).handed_out(kernel_frames_needed(*layout))
        =~= boot_pool(*layout).handed_out(kernel_frames_needed(*layout)));
    space.token()
}

} // verus!
