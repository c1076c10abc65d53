use vstd::prelude::*;

verus! {

/// Width of an Sv39 physical address in bits.
pub const PA_WIDTH_SV39: usize = 56;
/// Width of an Sv39 virtual address in bits.
pub const VA_WIDTH_SV39: usize = 39;
/// Width of a physical page number in bits.
pub const PPN_WIDTH_SV39: usize = 44;
/// Width of a virtual page number in bits.
pub const VPN_WIDTH_SV39: usize = 27;
/// Size of a page in bytes.
pub const PAGE_SIZE: usize = 4096;

/// A physical address.
#[derive(Clone, Copy)]
pub struct PhysAddr(pub usize);

/// A physical page number.
#[derive(Clone, Copy)]
pub struct PhysPageNum(pub usize);

/// A virtual address.
#[derive(Clone, Copy)]
pub struct VirtAddr(pub usize);

/// A virtual page number.
#[derive(Clone, Copy, PartialEq, Eq, Structural, PartialOrd, Ord)]
pub struct VirtPageNum(pub usize);

/// The page number of the page that holds physical address `pa`.
pub open spec fn page_of(pa: int) -> int {
    pa / PAGE_SIZE as int
}

impl From<PhysAddr> for usize {
    fn from(value: PhysAddr) -> (r: usize) {
        value.0
    }
}

impl vstd::std_specs::convert::FromSpecImpl<PhysAddr> for usize {
    open spec fn obeys_from_spec() -> bool {
        true
    }

    open spec fn from_spec(v: PhysAddr) -> usize {
        v.0
    }
}

impl From<PhysPageNum> for usize {
    fn from(value: PhysPageNum) -> (r: usize) {
        value.0
    }
}

impl vstd::std_specs::convert::FromSpecImpl<PhysPageNum> for usize {
    open spec fn obeys_from_spec() -> bool {
        true
    }

    open spec fn from_spec(v: PhysPageNum) -> usize {
        v.0
    }
}

impl From<VirtAddr> for usize {
    fn from(value: VirtAddr) -> (r: usize) {
        value.0
    }
}

impl vstd::std_specs::convert::FromSpecImpl<VirtAddr> for usize {
    open spec fn obeys_from_spec() -> bool {
        true
    }

    open spec fn from_spec(v: VirtAddr) -> usize {
        v.0
    }
}

impl From<VirtPageNum> for usize {
    fn from(value: VirtPageNum) -> (r: usize) {
        value.0
    }
}

impl vstd::std_specs::convert::FromSpecImpl<VirtPageNum> for usize {
    open spec fn obeys_from_spec() -> bool {
        true
    }

    open spec fn from_spec(v: VirtPageNum) -> usize {
        v.0
    }
}

/// A physical address keeps the low 56 bits of the integer.
impl From<usize> for PhysAddr {
    fn from(v: usize) -> (r: PhysAddr) {
        let w: u64 = v as u64;
        let masked: u64 = w & 0xff_ffff_ffff_ffff;
        proof {
            assert(w & 0xff_ffff_ffff_ffff == w % 0x100_0000_0000_0000) by (bit_vector);
            assert(w & 0xff_ffff_ffff_ffff <= w) by (bit_vector);
        }
        PhysAddr(masked as usize)
    }
}

impl vstd::std_specs::convert::FromSpecImpl<usize> for PhysAddr {
    open spec fn obeys_from_spec() -> bool {
        true
    }

    open spec fn from_spec(v: usize) -> PhysAddr {
        PhysAddr((v as int % 0x100_0000_0000_0000int) as usize)
    }
}

/// A physical page number keeps the low 44 bits of the integer.
impl From<usize> for PhysPageNum {
    fn from(v: usize) -> (r: PhysPageNum) {
        let w: u64 = v as u64;
        let masked: u64 = w & 0xfff_ffff_ffff;
        proof {
            assert(w & 0xfff_ffff_ffff == w % 0x1000_0000_0000) by (bit_vector);
            assert(w & 0xfff_ffff_ffff <= w) by (bit_vector);
        }
        PhysPageNum(masked as usize)
    }
}

impl vstd::std_specs::convert::FromSpecImpl<usize> for PhysPageNum {
    open spec fn obeys_from_spec() -> bool {
        true
    }

    open spec fn from_spec(v: usize) -> PhysPageNum {
        PhysPageNum((v as int % 0x1000_0000_0000int) as usize)
    }
}

/// A virtual address keeps the low 39 bits of the integer.
impl From<usize> for VirtAddr {
    fn from(v: usize) -> (r: VirtAddr) {
        let w: u64 = v as u64;
        let masked: u64 = w & 0x7f_ffff_ffff;
        proof {
            assert(w & 0x7f_ffff_ffff == w % 0x80_0000_0000) by (bit_vector);
            assert(w & 0x7f_ffff_ffff <= w) by (bit_vector);
        }
        VirtAddr(masked as usize)
    }
}

impl vstd::std_specs::convert::FromSpecImpl<usize> for VirtAddr {
    open spec fn obeys_from_spec() -> bool {
        true
    }

    open spec fn from_spec(v: usize) -> VirtAddr {
        VirtAddr((v as int % 0x80_0000_0000int) as usize)
    }
}

/// A virtual page number keeps the low 27 bits of the integer.
impl From<usize> for VirtPageNum {
    fn from(v: usize) -> (r: VirtPageNum) {
        proof {
            assert(v & 0x7ff_ffff == v % 0x800_0000) by (bit_vector);
        }
        VirtPageNum(v & 0x7ff_ffff)
    }
}

impl vstd::std_specs::convert::FromSpecImpl<usize> for VirtPageNum {
    open spec fn obeys_from_spec() -> bool {
        true
    }

    open spec fn from_spec(v: usize) -> VirtPageNum {
        VirtPageNum((v % 0x800_0000) as usize)
    }
}

/// The page number of a virtual address.
impl From<VirtAddr> for VirtPageNum {
    fn from(value: VirtAddr) -> (r: VirtPageNum) {
        proof {
            let x = value.0;
            assert(x >> 12 == x / 4096) by (bit_vector);
        }
        VirtPageNum(value.0 >> 12)
    }
}

impl vstd::std_specs::convert::FromSpecImpl<VirtAddr> for VirtPageNum {
    open spec fn obeys_from_spec() -> bool {
        true
    }

    open spec fn from_spec(v: VirtAddr) -> VirtPageNum {
        VirtPageNum((v.0 / 4096) as usize)
    }
}

/// The page number of a physical address.
impl From<PhysAddr> for PhysPageNum {
    fn from(value: PhysAddr) -> (r: PhysPageNum) {
        proof {
            let x = value.0;
            assert(x >> 12 == x / 4096) by (bit_vector);
        }
        PhysPageNum(value.0 >> 12)
    }
}

impl vstd::std_specs::convert::FromSpecImpl<PhysAddr> for PhysPageNum {
    open spec fn obeys_from_spec() -> bool {
        true
    }

    open spec fn from_spec(v: PhysAddr) -> PhysPageNum {
        PhysPageNum((v.0 / 4096) as usize)
    }
}

/// The first address of a physical page; the shift drops the bits above
/// the 64th, as the machine word does.
impl From<PhysPageNum> for PhysAddr {
    fn from(value: PhysPageNum) -> (r: PhysAddr) {
        PhysAddr(value.0 << 12)
    }
}

impl vstd::std_specs::convert::FromSpecImpl<PhysPageNum> for PhysAddr {
    open spec fn obeys_from_spec() -> bool {
        true
    }

    open spec fn from_spec(v: PhysPageNum) -> PhysAddr {
        PhysAddr(v.0 << 12)
    }
}

/// The page number just past the page that holds `pa`.
pub fn phys_page_round_up(pa: usize) -> (r: usize)
    ensures
        r == page_of(pa as int) + 1,
        (r - 1) * 4096 <= pa < r * 4096,
{
    proof {
        assert(pa >> 12 == pa / 4096) by (bit_vector);
    }
    (pa >> 12) + 1
}

/// The page number of the page that holds `pa`.
pub fn phys_page_round_down(pa: usize) -> (r: usize)
    ensures
        r == page_of(pa as int),
        r * 4096 <= pa < (r + 1) * 4096,
{
    proof {
        assert(pa >> 12 == pa / 4096) by (bit_vector);
    }
    pa >> 12
}

/// The first address of a page that a machine word can address lies in
/// that page: page number to address and back gives the page number.
pub proof fn lemma_page_address_roundtrip(ppn: usize)
    requires
        ppn as int <= usize::MAX as int / 4096,
    ensures
        (ppn << 12usize) as int == ppn as int * 4096,
        page_of((ppn << 12usize) as int) == ppn as int,
{
    if usize::BITS == 32 {
        assert(usize::MAX == 0xffff_ffff);
        assert((ppn << 12usize) == ppn * 4096 && (ppn << 12usize) / 4096 == ppn) by (bit_vector)
            requires
                ppn <= 0xfffff,
                usize::BITS == 32,
        ;
    } else {
        assert(usize::BITS == 64);
        assert(usize::MAX == 0xffff_ffff_ffff_ffff);
        assert((ppn << 12usize) == ppn * 4096 && (ppn << 12usize) / 4096 == ppn) by (bit_vector)
            requires
                (ppn as u64) <= 0xf_ffff_ffff_ffffu64,
                usize::BITS == 64,
        ;
    }
}

/// The page number of a virtual address is that of the page that holds
/// it: the page starts at or below the address and ends past it.
pub proof fn lemma_virt_page_holds_address(a: VirtAddr)
    ensures
        ({
            let p = <VirtPageNum as vstd::std_specs::convert::FromSpec<VirtAddr>>::from_spec(a).0 as int;
            p * 4096 <= a.0 < (p + 1) * 4096
        }),
{
}

/// The page number of a physical address is that of the page that holds
/// it: the page starts at or below the address and ends past it.
pub proof fn lemma_phys_page_holds_address(a: PhysAddr)
    ensures
        ({
            let p = <PhysPageNum as vstd::std_specs::convert::FromSpec<PhysAddr>>::from_spec(a).0 as int;
            p * 4096 <= a.0 < (p + 1) * 4096
        }),
{
}

/// The page of an address starts at or below it and ends past it, so
/// rounding down gives the page that holds `pa` and rounding up the page
/// just past it.
pub proof fn lemma_page_of_holds_address(pa: int)
    requires
        0 <= pa,
    ensures
        0 <= page_of(pa),
        page_of(pa) * 4096 <= pa < (page_of(pa) + 1) * 4096,
{
}

/// Converting an integer keeps its low bits: the result fits the width of
/// the address or page number, and differs from the integer by a multiple
/// of `2^width` (56 bits for a physical address, 44 for a physical page, 39
/// for a virtual address, 27 for a virtual page).
pub proof fn lemma_from_usize_keeps_low_bits(v: usize)
    ensures
        ({
            let r = <PhysAddr as vstd::std_specs::convert::FromSpec<usize>>::from_spec(v).0 as int;
            0 <= r < 0x100_0000_0000_0000int && (v - r) % 0x100_0000_0000_0000int == 0
        }),
        ({
            let r = <PhysPageNum as vstd::std_specs::convert::FromSpec<usize>>::from_spec(v).0 as int;
            0 <= r < 0x1000_0000_0000int && (v - r) % 0x1000_0000_0000int == 0
        }),
        ({
            let r = <VirtAddr as vstd::std_specs::convert::FromSpec<usize>>::from_spec(v).0 as int;
            0 <= r < 0x80_0000_0000int && (v - r) % 0x80_0000_0000int == 0
        }),
        ({
            let r = <VirtPageNum as vstd::std_specs::convert::FromSpec<usize>>::from_spec(v).0 as int;
            0 <= r < 0x800_0000int && (v - r) % 0x800_0000int == 0
        }),
{
    let x = v as int;
    assert((x - x % 0x100_0000_0000_0000int) % 0x100_0000_0000_0000int == 0) by (nonlinear_arith)
        requires
            x >= 0,
    {
        vstd::arithmetic::div_mod::lemma_fundamental_div_mod(x, 0x100_0000_0000_0000int);
        vstd::arithmetic::div_mod::lemma_mod_multiples_basic(x / 0x100_0000_0000_0000int, 0x100_0000_0000_0000int);
    }
    assert((x - x % 0x1000_0000_0000int) % 0x1000_0000_0000int == 0) by (nonlinear_arith)
        requires
            x >= 0,
    {
        vstd::arithmetic::div_mod::lemma_fundamental_div_mod(x, 0x1000_0000_0000int);
        vstd::arithmetic::div_mod::lemma_mod_multiples_basic(x / 0x1000_0000_0000int, 0x1000_0000_0000int);
    }
    assert((x - x % 0x80_0000_0000int) % 0x80_0000_0000int == 0) by (nonlinear_arith)
        requires
            x >= 0,
    {
        vstd::arithmetic::div_mod::lemma_fundamental_div_mod(x, 0x80_0000_0000int);
        vstd::arithmetic::div_mod::lemma_mod_multiples_basic(x / 0x80_0000_0000int, 0x80_0000_0000int);
    }
    assert((x - x % 0x800_0000int) % 0x800_0000int == 0) by (nonlinear_arith)
        requires
            x >= 0,
    {
        vstd::arithmetic::div_mod::lemma_fundamental_div_mod(x, 0x800_0000int);
        vstd::arithmetic::div_mod::lemma_mod_multiples_basic(x / 0x800_0000int, 0x800_0000int);
    }
}

} // verus!
