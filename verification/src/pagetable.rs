use vstd::prelude::*;

use crate::address::{PhysPageNum, VirtPageNum};
use crate::frame_allocator::{alloc_frame, page_limit, FramePool, LinkedFrameAllocator, PhysFrame};

verus! {

/// Valid: the entry is in use.
pub const PTE_V: u8 = 1;
/// The page may be read.
pub const PTE_R: u8 = 2;
/// The page may be written.
pub const PTE_W: u8 = 4;
/// The page may be executed.
pub const PTE_X: u8 = 8;
/// The page is reachable from user mode.
pub const PTE_U: u8 = 16;
/// Global mapping.
pub const PTE_G: u8 = 32;
/// Accessed.
pub const PTE_A: u8 = 64;
/// Dirty.
pub const PTE_D: u8 = 128;

/// Entries in one page-table page.
pub const ENTRIES_PER_TABLE: usize = 512;

/// The flag byte of a page-table entry; each of its eight bits names a flag.
#[derive(Clone, Copy, PartialEq, Eq, Structural)]
pub struct PTEFlags {
    pub bits: u8,
}

impl PTEFlags {
    /// No flag set.
    pub fn empty() -> (r: PTEFlags)
        ensures
            r.bits == 0,
    {
        PTEFlags { bits: 0 }
    }

    /// The flags named by `bits`; every bit of a byte names a flag, so this
    /// never fails.
    pub fn from_bits(bits: u8) -> (r: Option<PTEFlags>)
        ensures
            r == Some(PTEFlags { bits: bits }),
    {
        Some(PTEFlags { bits: bits })
    }

    /// The flags set in either.
    pub fn union(self, other: PTEFlags) -> (r: PTEFlags)
        ensures
            r.bits == self.bits | other.bits,
    {
        PTEFlags { bits: self.bits | other.bits }
    }

    /// The flags set in both.
    pub fn intersection(self, other: PTEFlags) -> (r: PTEFlags)
        ensures
            r.bits == self.bits & other.bits,
    {
        PTEFlags { bits: self.bits & other.bits }
    }
}

/// An Sv39 page-table entry: the page number above bit 10, flags in the low
/// byte.
#[derive(Clone, Copy)]
pub struct PageTableEntry {
    pub bits: usize,
}

impl PageTableEntry {
    /// The entry that `new` builds.
    pub open spec fn spec_new(ppn: int, flags: u8) -> PageTableEntry {
        PageTableEntry { bits: ((ppn as usize) << 10usize) | (flags as usize) }
    }

    /// The valid bit is set.
    pub open spec fn valid(self) -> bool {
        self.bits & 1 == 1
    }

    /// A valid entry with `R`, `W` or `X` set is a leaf: at the top two
    /// levels it maps a whole gigapage or megapage and ends the walk.
    pub open spec fn is_leaf(self) -> bool {
        self.bits & 0xe != 0
    }

    /// The page number that the entry holds.
    pub open spec fn spec_ppn(self) -> int {
        (self.bits >> 10usize) as int
    }

    /// An entry for page `ppn` with `flags`.
    pub fn new(ppn: PhysPageNum, flags: PTEFlags) -> (r: Self)
        ensures
            r == Self::spec_new(ppn.0 as int, flags.bits),
    {
        Self { bits: ppn.0 << 10 | flags.bits as usize }
    }

    /// The entry's flag byte.
    pub fn flags(&self) -> (r: PTEFlags)
        ensures
            r.bits == self.bits as u8,
    {
        let bits: usize = self.bits & 0xff;
        proof {
            let b = self.bits;
            assert(b & 0xff == (b as u8) as usize) by (bit_vector);
        }
        PTEFlags::from_bits(bits as u8).unwrap()
    }

    /// The page number that the entry holds.
    pub fn get_ppn(&self) -> (r: PhysPageNum)
        ensures
            r.0 == self.spec_ppn(),
    {
        PhysPageNum(self.bits >> 10)
    }

    /// The valid bit is set.
    pub fn is_valid(&self) -> (r: bool)
        ensures
            r == self.valid(),
    {
        let f = self.flags();
        proof {
            let b = self.bits;
            assert(((b as u8) & 1 != 0) == (b & 1 == 1)) by (bit_vector);
        }
        f.intersection(PTEFlags { bits: PTE_V }) != PTEFlags::empty()
    }
}

/// Shifting a page number that fits into the entry's page field and back
/// gives it back, whatever the low byte holds.
proof fn lemma_ppn_field_roundtrip(p: usize, f: u8)
    requires
        p as int <= usize::MAX as int / 4096,
    ensures
        ((p << 10usize) | (f as usize)) >> 10usize == p,
{
    if usize::BITS == 32 {
        assert(usize::MAX == 0xffff_ffff);
        assert(((p << 10usize) | (f as usize)) >> 10usize == p) by (bit_vector)
            requires
                p <= 0xfffff,
                usize::BITS == 32,
        ;
    } else {
        assert(usize::BITS == 64);
        assert(usize::MAX == 0xffff_ffff_ffff_ffff);
        assert(((p << 10usize) | (f as usize)) >> 10usize == p) by (bit_vector)
            requires
                (p as u64) <= 0xf_ffff_ffff_ffffu64,
                usize::BITS == 64,
        ;
    }
}

/// An entry built from a page number that fits keeps the page number and
/// the flag byte, and is valid exactly when the flags hold `V`.
pub proof fn lemma_entry_fields(ppn: int, flags: u8)
    requires
        0 <= ppn < page_limit(),
    ensures
        PageTableEntry::spec_new(ppn, flags).spec_ppn() == ppn,
        PageTableEntry::spec_new(ppn, flags).bits as u8 == flags,
        PageTableEntry::spec_new(ppn, flags).valid() == (flags & 1 == 1),
{
    let p = ppn as usize;
    lemma_ppn_field_roundtrip(p, flags);
    assert((((p << 10usize) | (flags as usize)) as u8) == flags) by (bit_vector);
    assert(((((p << 10usize) | (flags as usize)) & 1) == 1) == (flags & 1 == 1)) by (bit_vector);
}

/// The virtual page that a page number selects: its low 27 bits.
pub open spec fn vpn_key(vpn: usize) -> int {
    vpn as int % 0x800_0000
}

/// The index into the page-table page of `level` (2 is the root, 0 the
/// leaf) that virtual page `v` takes.
pub open spec fn vpn_index(v: int, level: int) -> int {
    if level == 2 {
        (v / 0x40000) % 512
    } else if level == 1 {
        (v / 512) % 512
    } else {
        v % 512
    }
}

/// The path of the leaf page-table page that translates virtual page `v`:
/// its root index, then its second-level index.
pub open spec fn leaf_path(v: int) -> Seq<int> {
    seq![vpn_index(v, 2), vpn_index(v, 1)]
}

/// The path of the second-level page-table page that virtual page `v`
/// goes through.
pub open spec fn mid_path(v: int) -> Seq<int> {
    seq![vpn_index(v, 2)]
}

/// A place in the tree: the root is the empty path, a second-level page
/// the root index that leads to it, a leaf page both indices.
pub open spec fn path_ok(p: Seq<int>) -> bool {
    p.len() <= 2 && forall|j: int| 0 <= j < p.len() ==> 0 <= #[trigger] p[j] < 512
}

/// How many page-table pages mapping virtual page `v` adds, when the pages
/// at `paths` exist.
pub open spec fn missing_tables(paths: Set<Seq<int>>, v: int) -> nat {
    (if paths.contains(mid_path(v)) { 0nat } else { 1nat }) + (if paths.contains(leaf_path(v)) {
        0nat
    } else {
        1nat
    })
}

/// The page-table pages that exist once virtual page `v` is mapped.
pub open spec fn with_tables_for(paths: Set<Seq<int>>, v: int) -> Set<Seq<int>> {
    paths.insert(mid_path(v)).insert(leaf_path(v))
}

/// How many page-table pages mapping the virtual pages `s` to `e - 1` in
/// order adds, when the pages at `paths` exist.
pub open spec fn tables_needed(paths: Set<Seq<int>>, s: int, e: int) -> nat
    decreases e - s,
{
    if s >= e {
        0
    } else {
        missing_tables(paths, s) + tables_needed(with_tables_for(paths, s), s + 1, e)
    }
}

/// The page-table pages that exist once the virtual pages `s` to `e - 1`
/// are mapped.
pub open spec fn tables_after(paths: Set<Seq<int>>, s: int, e: int) -> Set<Seq<int>>
    decreases e - s,
{
    if s >= e {
        paths
    } else {
        tables_after(with_tables_for(paths, s), s + 1, e)
    }
}

/// A three-level Sv39 page table. `tables[k]` holds the 512 entries of the
/// page-table page in frame `frames[k]`.
pub struct PageTable {
    page_directory: PhysPageNum,
    frames: Vec<PhysFrame>,
    tables: Vec<Vec<PageTableEntry>>,
    dir: Ghost<Map<Seq<int>, int>>,
}

impl PageTable {
    /// The page number of the frame that holds page-table page `k`.
    pub closed spec fn ppn_of(self, k: int) -> int {
        self.frame_ppns()[k]
    }

    /// Entry `i` of page-table page `k`.
    pub closed spec fn entry(self, k: int, i: int) -> PageTableEntry {
        self.tables@[k]@[i]
    }

    /// The position, among the table's pages, of the page-table page at
    /// place `p` of the tree.
    pub closed spec fn table_index(self, p: Seq<int>) -> int {
        self.dir@[p]
    }

    /// Entry `i` of the page-table page at place `p` of the tree.
    pub open spec fn entry_at(self, p: Seq<int>, i: int) -> PageTableEntry {
        self.entry(self.table_index(p), i)
    }

    /// The places in the tree that hold a page-table page.
    pub closed spec fn table_paths(self) -> Set<Seq<int>> {
        self.dir@.dom()
    }

    /// The frames that the page table holds, in the order it took them.
    pub closed spec fn frame_ppns(self) -> Seq<int> {
        self.frames@.map_values(|f: PhysFrame| f.ppn.0 as int)
    }

    /// The page number of the root page-table page.
    pub closed spec fn root_ppn(self) -> int {
        self.page_directory.0 as int
    }

    /// The leaf entry that translates virtual page `v`.
    pub closed spec fn leaf_entry(self, v: int) -> PageTableEntry {
        self.entry(self.dir@[leaf_path(v)], vpn_index(v, 0))
    }

    /// Virtual page `v` has a valid leaf entry.
    pub closed spec fn mapped(self, v: int) -> bool {
        self.dir@.contains_key(leaf_path(v)) && self.leaf_entry(v).valid()
    }

    /// The tree is consistent: every page-table page has 512 entries and a
    /// frame of its own, and an entry of the root or of a second-level page
    /// is valid exactly when the page below it exists, and then points at it.
    pub closed spec fn wf(self) -> bool {
        &&& self.frames@.len() == self.tables@.len()
        &&& forall|k: int| 0 <= k < self.tables@.len() ==> (#[trigger] self.tables@[k])@.len() == 512
        &&& forall|k: int| 0 <= k < self.frames@.len() ==> 0 <= #[trigger] self.ppn_of(k) < page_limit()
        &&& forall|k: int, l: int|
            0 <= k < self.frames@.len() && 0 <= l < self.frames@.len() && k != l ==> #[trigger] self.ppn_of(k)
                != #[trigger] self.ppn_of(l)
        &&& forall|p: Seq<int>| #[trigger]
            self.dir@.contains_key(p) ==> path_ok(p) && 0 <= self.dir@[p] < self.frames@.len()
        &&& forall|p: Seq<int>, q: Seq<int>|
            self.dir@.contains_key(p) && self.dir@.contains_key(q) && p != q ==> #[trigger] self.dir@[p]
                != #[trigger] self.dir@[q]
        &&& forall|p: Seq<int>| #[trigger]
            self.dir@.contains_key(p) && p.len() > 0 ==> self.dir@.contains_key(p.drop_last())
        &&& forall|p: Seq<int>, i: int|
            #![trigger self.entry(self.dir@[p], i)]
            #![trigger self.dir@.contains_key(p.push(i))]
            self.dir@.contains_key(p) && p.len() < 2 && 0 <= i < 512 ==> {
                &&& self.entry(self.dir@[p], i).valid() == self.dir@.contains_key(p.push(i))
                &&& self.entry(self.dir@[p], i).valid() ==> self.entry(self.dir@[p], i).spec_ppn()
                    == self.ppn_of(self.dir@[p.push(i)])
                &&& self.entry(self.dir@[p], i).valid() ==> self.entry(self.dir@[p], i)
                    == PageTableEntry::spec_new(self.ppn_of(self.dir@[p.push(i)]), PTE_V)
            }
        &&& forall|p: Seq<int>, i: int|
            #![trigger self.entry(self.dir@[p], i)]
            self.dir@.contains_key(p) && 0 <= i < 512 && !self.entry(self.dir@[p], i).valid()
                ==> self.entry(self.dir@[p], i).bits == 0
        &&& self.dir@.contains_key(Seq::empty()) ==> self.page_directory.0 == self.ppn_of(
            self.dir@[Seq::empty()],
        )
        &&& 0 <= self.page_directory.0 < page_limit()
    }

    /// The table is consistent and has its root page-table page.
    pub open spec fn initialized(self) -> bool {
        self.wf() && self.has_root()
    }

    /// The root page-table page exists.
    pub closed spec fn has_root(self) -> bool {
        self.dir@.contains_key(Seq::empty())
    }

    /// None of the page table's frames is waiting in `pool` to be handed
    /// out, and `pool` keeps its bounds and holds no page twice.
    pub open spec fn in_use_by(self, pool: FramePool) -> bool {
        &&& pool.wf()
        &&& pool.no_double_free()
        &&& self.frames_taken_from(pool)
    }

    /// None of the page table's frames is free in `pool`.
    pub open spec fn frames_taken_from(self, pool: FramePool) -> bool {
        forall|k: int| 0 <= k < self.frame_ppns().len() ==> !pool.is_free(#[trigger] self.frame_ppns()[k])
    }
}

impl View for PageTable {
    type V = Map<int, PageTableEntry>;

    /// The leaf entries: each virtual page with a valid leaf entry, to that
    /// entry.
    closed spec fn view(&self) -> Map<int, PageTableEntry> {
        Map::new(|v: int| 0 <= v < 0x800_0000 && self.mapped(v), |v: int| self.leaf_entry(v))
    }
}

impl PageTable {
    /// A page table with no page-table page yet; its root is page 0.
    pub fn new() -> (r: Self)
        ensures
            r.wf(),
            !r.initialized(),
            r@ == Map::<int, PageTableEntry>::empty(),
            r.frame_ppns() == Seq::<int>::empty(),
            r.root_ppn() == 0,
    {
        let r = Self {
            page_directory: PhysPageNum::from(0usize),
            frames: Vec::new(),
            tables: Vec::new(),
            dir: Ghost(Map::empty()),
        };
        assert(r@ =~= Map::<int, PageTableEntry>::empty());
        assert(r.frame_ppns() =~= Seq::<int>::empty());
        r
    }
}

impl PageTable {
    /// The position of the page-table page in frame `ppn`.
    fn find_table(&self, ppn: usize) -> (k: usize)
        requires
            self.wf(),
            exists|k: int| 0 <= k < self.frames@.len() && self.ppn_of(k) == ppn,
        ensures
            k < self.frames@.len(),
            self.ppn_of(k as int) == ppn,
    {
        let mut k: usize = 0;
        while k < self.frames.len()
            invariant
                self.wf(),
                exists|j: int| k <= j < self.frames@.len() && self.ppn_of(j) == ppn,
            decreases self.frames@.len() - k,
        {
            if self.frames[k].ppn.0 == ppn {
                return k;
            }
            k += 1;
        }
        k
    }

    /// Takes a frame from `allocator` for the root page-table page, whose
    /// entries all start invalid. Page-table pages from before are dropped
    /// from the tree but keep their frames.
    pub fn init(&mut self, allocator: &mut LinkedFrameAllocator)
        requires
            old(self).wf(),
            old(self).in_use_by(old(allocator)@),
            old(allocator)@.can_alloc(),
        ensures
            final(self).initialized(),
            final(self).in_use_by(final(allocator)@),
            final(self)@ == Map::<int, PageTableEntry>::empty(),
            final(self).table_paths() == set![Seq::<int>::empty()],
            final(allocator)@ == old(allocator)@.alloc_spec().0,
            final(self).frame_ppns() == old(self).frame_ppns() + old(allocator)@.handed_out(1),
            final(self).root_ppn() == old(allocator)@.alloc_spec().1,
            final(self).table_index(Seq::<int>::empty()) == old(self).frame_ppns().len(),
            forall|i: int| 0 <= i < 512 ==> (#[trigger] final(self).entry_at(Seq::<int>::empty(), i)).bits == 0,
    {
        let ghost pool = allocator@;
        proof {
            crate::frame_allocator::lemma_alloc_takes_a_free_page(pool);
        }
        let frame = alloc_frame(allocator);
        let ghost q = frame.ppn.0 as int;
        let ghost n = self.frames@.len() as int;
        self.page_directory = frame.ppn;
        self.frames.push(frame);
        self.tables.push(vec![PageTableEntry { bits: 0 }; 512]);
        proof {
            self.dir@ = map![Seq::<int>::empty() => n];
            assert(self.ppn_of(n) == q);
            assert forall|k: int| 0 <= k < self.frames@.len() implies !allocator@.is_free(
                #[trigger] self.ppn_of(k),
            ) by {
                if k < n {
                    assert(self.ppn_of(k) == old(self).ppn_of(k));
                }
            }
            assert forall|k: int, l: int|
                0 <= k < self.frames@.len() && 0 <= l < self.frames@.len() && k != l implies #[trigger] self.ppn_of(k)
                    != #[trigger] self.ppn_of(l) by {
                if k < n && l < n {
                    assert(self.ppn_of(k) == old(self).ppn_of(k));
                    assert(self.ppn_of(l) == old(self).ppn_of(l));
                } else if k < n {
                    assert(self.ppn_of(k) == old(self).ppn_of(k));
                    assert(!pool.is_free(old(self).ppn_of(k)));
                } else if l < n {
                    assert(self.ppn_of(l) == old(self).ppn_of(l));
                    assert(!pool.is_free(old(self).ppn_of(l)));
                }
            }
            assert forall|p: Seq<int>, i: int|
                self.dir@.contains_key(p) && p.len() < 2 && 0 <= i < 512 implies {
                    &&& self.entry(self.dir@[p], i).valid() == self.dir@.contains_key(p.push(i))
                    &&& self.entry(self.dir@[p], i).valid() ==> self.entry(self.dir@[p], i).spec_ppn()
                        == self.ppn_of(self.dir@[p.push(i)])
                    &&& self.entry(self.dir@[p], i).valid() ==> self.entry(self.dir@[p], i)
                        == PageTableEntry::spec_new(self.ppn_of(self.dir@[p.push(i)]), PTE_V)
                } by {
                assert(p == Seq::<int>::empty());
                assert(self.entry(n, i).bits == 0);
                assert(0usize & 1 == 0) by (bit_vector);
                assert(p.push(i).len() == 1);
            }
            assert forall|p: Seq<int>, i: int|
                self.dir@.contains_key(p) && 0 <= i < 512 && !self.entry(self.dir@[p], i).valid()
                implies self.entry(self.dir@[p], i).bits == 0 by {
                assert(p == Seq::<int>::empty());
            }
            assert forall|v: int| !self.dir@.contains_key(#[trigger] leaf_path(v)) by {
                assert(leaf_path(v).len() == 2);
            }
            assert(self@ =~= Map::<int, PageTableEntry>::empty());
            assert(self.table_paths() =~= set![Seq::<int>::empty()]);
            assert(pool.alloc_spec().0.handed_out(0) =~= Seq::<int>::empty());
            assert(pool.handed_out(1) =~= seq![q]);
            assert(self.frame_ppns() =~= old(self).frame_ppns() + pool.handed_out(1));
            assert(pool.alloc_spec().0.after_allocs(0) == pool.alloc_spec().0);
            assert(self.frames@.len() == self.tables@.len());
            assert(forall|k: int| 0 <= k < self.tables@.len() ==> (#[trigger] self.tables@[k])@.len() == 512);
            assert(allocator@ == pool.alloc_spec().0);
            assert(q == pool.alloc_spec().1);
            assert(0 <= q < page_limit());
            assert forall|k: int| 0 <= k < self.frames@.len() implies 0 <= #[trigger] self.ppn_of(k) < page_limit() by {
                if k < n {
                    assert(self.ppn_of(k) == old(self).ppn_of(k));
                }
            }
            assert(0 <= self.page_directory.0 < page_limit());
        }
    }

    /// The `satp` value that turns on Sv39 translation with this table:
    /// mode 8 in the top four bits, the root's page number below.
    pub fn token(&self) -> (r: usize)
        requires
            self.wf(),
        ensures
            r == ((0x8000_0000_0000_0000u64 + self.root_ppn()) as u64) as usize,
            usize::BITS == 64 ==> r == 0x8000_0000_0000_0000u64 as int + self.root_ppn(),
    {
        let word: u64 = (8u64 << 60u64) | (self.page_directory.0 as u64);
        proof {
            let pd = self.page_directory.0 as u64;
            assert(usize::MAX == 0xffff_ffff || usize::MAX == 0xffff_ffff_ffff_ffff);
            assert(pd <= 0xf_ffff_ffff_ffff);
            assert((8u64 << 60u64) | pd == 0x8000_0000_0000_0000u64 + pd) by (bit_vector)
                requires
                    pd <= 0xf_ffff_ffff_ffff,
            ;
        }
        word as usize
    }
}

/// The indices that the walk takes out of a virtual page number are those
/// of the virtual page it selects.
proof fn lemma_walk_indices(x: usize)
    ensures
        (x >> 18usize) & 511 == vpn_index(vpn_key(x), 2),
        (x >> 9usize) & 511 == vpn_index(vpn_key(x), 1),
        x & 511 == vpn_index(vpn_key(x), 0),
        0 <= vpn_key(x) < 0x800_0000,
{
    assert((x >> 18usize) & 511 == ((x % 0x800_0000) / 0x40000) % 512) by (bit_vector);
    assert((x >> 9usize) & 511 == ((x % 0x800_0000) / 512) % 512) by (bit_vector);
    assert(x & 511 == (x % 0x800_0000) % 512) by (bit_vector);
}

/// Two virtual pages with the same three indices are the same page.
proof fn lemma_indices_determine_page(v: int, w: int)
    requires
        0 <= v < 0x800_0000,
        0 <= w < 0x800_0000,
        leaf_path(v) == leaf_path(w),
        vpn_index(v, 0) == vpn_index(w, 0),
    ensures
        v == w,
{
    let a = v as u64;
    let b = w as u64;
    assert(leaf_path(v)[0] == leaf_path(w)[0]);
    assert(leaf_path(v)[1] == leaf_path(w)[1]);
    assert(a == b) by (bit_vector)
        requires
            a < 0x800_0000,
            b < 0x800_0000,
            (a / 0x40000) % 512 == (b / 0x40000) % 512,
            (a / 512) % 512 == (b / 512) % 512,
            a % 512 == b % 512,
    ;
}

impl PageTable {
    /// Follows entry `idx` of page-table page `k` (at place `p`) to the page
    /// below it, first taking a frame from `allocator` for that page, all of
    /// whose entries start invalid, when the entry is not valid.
    fn descend(
        &mut self,
        allocator: &mut LinkedFrameAllocator,
        k: usize,
        idx: usize,
        Ghost(p): Ghost<Seq<int>>,
    ) -> (child: usize)
        requires
            old(self).initialized(),
            old(self).in_use_by(old(allocator)@),
            old(self).dir@.contains_key(p),
            p.len() < 2,
            old(self).dir@[p] == k,
            idx < 512,
            old(allocator)@.available() >= (if old(self).dir@.contains_key(p.push(idx as int)) {
                0nat
            } else {
                1nat
            }),
        ensures
            final(self).initialized(),
            final(self).in_use_by(final(allocator)@),
            final(self).table_paths() == old(self).table_paths().insert(p.push(idx as int)),
            final(self).dir@[p.push(idx as int)] == child,
            !old(self).dir@.contains_key(p.push(idx as int)) ==> child == old(self).frames@.len(),
            forall|q: Seq<int>| #[trigger]
                old(self).dir@.contains_key(q) ==> final(self).dir@[q] == old(self).dir@[q],
            final(self)@ == old(self)@,
            final(allocator)@ == old(allocator)@.after_allocs(
                (if old(self).dir@.contains_key(p.push(idx as int)) { 0nat } else { 1nat }),
            ),
            final(self).frame_ppns() == old(self).frame_ppns() + old(allocator)@.handed_out(
                (if old(self).dir@.contains_key(p.push(idx as int)) { 0nat } else { 1nat }),
            ),
            final(self).root_ppn() == old(self).root_ppn(),
    {
        let ghost pi = p.push(idx as int);
        let e = self.tables[k][idx];
        assert(e == old(self).entry(k as int, idx as int));
        if e.is_valid() {
            let ppn = e.get_ppn();
            let ghost c0 = self.dir@[pi];
            assert(self.ppn_of(c0) == ppn.0);
            let c = self.find_table(ppn.0);
            proof {
                assert(self.ppn_of(c as int) == self.ppn_of(c0));
            }
            assert(allocator@.after_allocs(0) == allocator@);
            assert(allocator@.handed_out(0) =~= Seq::<int>::empty());
            assert(self.frame_ppns() + Seq::<int>::empty() =~= self.frame_ppns());
            assert(self.table_paths().insert(pi) =~= self.table_paths());
            c
        } else {
            let ghost pool = allocator@;
            proof {
                crate::frame_allocator::lemma_alloc_takes_a_free_page(pool);
            }
            let frame = alloc_frame(allocator);
            let ghost q = frame.ppn.0 as int;
            proof {
                crate::pagetable::lemma_entry_fields(q, PTE_V);
                assert(PTE_V & 1 == 1) by (bit_vector);
            }
            let n = self.frames.len();
            self.tables[k][idx] = PageTableEntry::new(frame.ppn, PTEFlags { bits: PTE_V });
            self.frames.push(frame);
            self.tables.push(vec![PageTableEntry { bits: 0 }; 512]);
            proof {
                self.dir@ = self.dir@.insert(pi, n as int);
                let o = *old(self);
                assert(0usize & 1 == 0) by (bit_vector);
                assert(allocator@ == pool.alloc_spec().0);
                assert(q == pool.alloc_spec().1);
                assert(!o.dir@.contains_key(pi));
                assert forall|j: int| 0 <= j < n implies #[trigger] self.ppn_of(j) == o.ppn_of(j)
                    && self.tables@[j]@ == (if j == k { o.tables@[j]@.update(idx as int, self.entry(k as int, idx as int)) } else { o.tables@[j]@ }) by {
                }
                assert(self.ppn_of(n as int) == q);
                assert forall|j: int| 0 <= j < self.frames@.len() implies !allocator@.is_free(
                    #[trigger] self.ppn_of(j),
                ) by {
                    if j < n {
                        assert(!pool.is_free(o.ppn_of(j)));
                    }
                }
                assert forall|j: int| 0 <= j < self.frames@.len() implies 0 <= #[trigger] self.ppn_of(j) < page_limit() by {
                }
                assert forall|j: int, l: int|
                    0 <= j < self.frames@.len() && 0 <= l < self.frames@.len() && j != l implies #[trigger] self.ppn_of(j)
                        != #[trigger] self.ppn_of(l) by {
                    if j < n && l < n {
                    } else if j < n {
                        assert(!pool.is_free(o.ppn_of(j)));
                    } else if l < n {
                        assert(!pool.is_free(o.ppn_of(l)));
                    }
                }
                assert forall|r: Seq<int>| #[trigger] self.dir@.contains_key(r) implies path_ok(r) && 0 <= self.dir@[r] < self.frames@.len() by {
                    if r == pi {
                        assert forall|j: int| 0 <= j < r.len() implies 0 <= #[trigger] r[j] < 512 by {
                            if j < p.len() {
                                assert(r[j] == p[j]);
                            }
                        }
                    }
                }
                assert forall|r: Seq<int>| #[trigger] self.dir@.contains_key(r) && r.len() > 0 implies self.dir@.contains_key(r.drop_last()) by {
                    if r == pi {
                        assert(r.drop_last() =~= p);
                    }
                }
                assert forall|r: Seq<int>, i: int|
                    self.dir@.contains_key(r) && r.len() < 2 && 0 <= i < 512 implies {
                        &&& self.entry(self.dir@[r], i).valid() == self.dir@.contains_key(r.push(i))
                        &&& self.entry(self.dir@[r], i).valid() ==> self.entry(self.dir@[r], i).spec_ppn()
                            == self.ppn_of(self.dir@[r.push(i)])
                        &&& self.entry(self.dir@[r], i).valid() ==> self.entry(self.dir@[r], i)
                            == PageTableEntry::spec_new(self.ppn_of(self.dir@[r.push(i)]), PTE_V)
                    } by {
                    if r == pi {
                        assert(self.entry(n as int, i).bits == 0);
                        if o.dir@.contains_key(r.push(i)) {
                            assert(r.push(i).drop_last() =~= r);
                        }
                        assert(r.push(i) != pi);
                    } else if r == p && i == idx {
                        assert(r.push(i) == pi);
                    } else {
                        assert(self.dir@[r] == o.dir@[r]);
                        assert(self.entry(self.dir@[r], i) == o.entry(o.dir@[r], i));
                        if r == p {
                            assert(r.push(i) != pi) by {
                                assert(r.push(i)[r.len() as int] == i);
                                assert(pi[p.len() as int] == idx);
                            }
                        } else {
                            if r.push(i) == pi {
                                assert(r =~= r.push(i).drop_last());
                                assert(p =~= pi.drop_last());
                            }
                        }
                    }
                }
                assert forall|r: Seq<int>, i: int|
                    self.dir@.contains_key(r) && 0 <= i < 512 && !self.entry(self.dir@[r], i).valid()
                    implies self.entry(self.dir@[r], i).bits == 0 by {
                    if r == pi {
                        assert(self.entry(n as int, i).bits == 0);
                    } else if r == p && i == idx {
                    } else {
                        assert(self.dir@[r] == o.dir@[r]);
                        assert(self.entry(self.dir@[r], i) == o.entry(o.dir@[r], i));
                    }
                }
                assert forall|v: int| 0 <= v < 0x800_0000 implies #[trigger] self.mapped(v) == o.mapped(v)
                    && (o.mapped(v) ==> self.leaf_entry(v) == o.leaf_entry(v)) by {
                    let lp = leaf_path(v);
                    if lp == pi {
                        assert(self.entry(n as int, vpn_index(v, 0)).bits == 0);
                    } else if o.dir@.contains_key(lp) {
                        assert(lp.len() == 2);
                        assert(self.dir@[lp] == o.dir@[lp]);
                        assert(o.dir@[lp] != k) by {
                            if lp != p {
                            }
                        }
                    }
                }
                assert(self@ =~= o@);
                assert(self.table_paths() =~= o.table_paths().insert(pi));
                assert(pool.alloc_spec().0.after_allocs(0) == pool.alloc_spec().0);
                assert(pool.alloc_spec().0.handed_out(0) =~= Seq::<int>::empty());
                assert(pool.handed_out(1) =~= seq![q]);
                assert(self.frame_ppns() =~= o.frame_ppns() + pool.handed_out(1));
            }
            n
        }
    }
}

impl PageTable {
    /// Maps virtual page `vpn` (its low 27 bits) to physical page `ppn` with
    /// `flags` and `V`, taking frames from `allocator` for the page-table
    /// pages on the way that do not exist yet.
    pub fn map(
        &mut self,
        allocator: &mut LinkedFrameAllocator,
        vpn: VirtPageNum,
        ppn: PhysPageNum,
        flags: PTEFlags,
    )
        requires
            old(self).initialized(),
            old(self).in_use_by(old(allocator)@),
            !old(self)@.contains_key(vpn_key(vpn.0)),
            old(allocator)@.available() >= missing_tables(old(self).table_paths(), vpn_key(vpn.0)),
        ensures
            final(self).initialized(),
            final(self).in_use_by(final(allocator)@),
            final(self)@ == old(self)@.insert(
                vpn_key(vpn.0),
                PageTableEntry::spec_new(ppn.0 as int, PTE_V | flags.bits),
            ),
            final(self).table_paths() == with_tables_for(old(self).table_paths(), vpn_key(vpn.0)),
            final(allocator)@ == old(allocator)@.after_allocs(
                missing_tables(old(self).table_paths(), vpn_key(vpn.0)),
            ),
            final(self).frame_ppns() == old(self).frame_ppns() + old(allocator)@.handed_out(
                missing_tables(old(self).table_paths(), vpn_key(vpn.0)),
            ),
            final(self).root_ppn() == old(self).root_ppn(),
            forall|p: Seq<int>| #[trigger] old(self).table_paths().contains(p) ==> final(self).table_index(p)
                == old(self).table_index(p),
            !old(self).table_paths().contains(mid_path(vpn_key(vpn.0))) ==> final(self).table_index(
                mid_path(vpn_key(vpn.0)),
            ) == old(self).frame_ppns().len(),
            !old(self).table_paths().contains(leaf_path(vpn_key(vpn.0))) ==> final(self).table_index(
                leaf_path(vpn_key(vpn.0)),
            ) == final(self).frame_ppns().len() - 1,
    {
        let ghost key = vpn_key(vpn.0);
        let ghost pool = allocator@;
        let ghost paths = self.table_paths();
        proof {
            lemma_walk_indices(vpn.0);
        }
        let ghost a: nat = if paths.contains(mid_path(key)) { 0nat } else { 1nat };
        let ghost b: nat = if paths.contains(leaf_path(key)) { 0nat } else { 1nat };
        let ghost root_path = Seq::<int>::empty();
        let root = self.find_table(self.page_directory.0);
        assert(root == self.dir@[root_path]);
        let i2 = (vpn.0 >> 18) & 511;
        assert(root_path.push(i2 as int) =~= mid_path(key));
        let t1 = self.descend(allocator, root, i2, Ghost(root_path));
        proof {
            if a == 1 {
                crate::frame_allocator::lemma_alloc_uses_one(pool);
                assert(pool.after_allocs(1) == pool.alloc_spec().0.after_allocs(0));
            }
            assert(mid_path(key) != leaf_path(key));
        }
        let i1 = (vpn.0 >> 9) & 511;
        assert(mid_path(key).push(i1 as int) =~= leaf_path(key));
        let ghost n1 = self.frames@.len();
        let ghost pool1 = allocator@;
        let t0 = self.descend(allocator, t1, i1, Ghost(mid_path(key)));
        proof {
            if b == 1 {
                assert(t0 == n1);
                assert(pool1.alloc_spec().0.handed_out(0) =~= Seq::<int>::empty());
                assert(pool1.handed_out(1).len() == 1);
                assert(self.frame_ppns().len() == n1 + 1);
            }
        }
        let i0 = vpn.0 & 511;
        let ghost mid = *self;
        proof {
            assert(self.dir@.contains_key(leaf_path(key)));
            assert(0 <= self.dir@[leaf_path(key)] < self.frames@.len());
            assert(self.tables@[t0 as int]@.len() == 512);
        }
        self.tables[t0][i0] = PageTableEntry::new(ppn, PTEFlags { bits: PTE_V }.union(flags));
        proof {
            crate::frame_allocator::lemma_allocs_compose(pool, a, b);
            let e = PageTableEntry::spec_new(ppn.0 as int, PTE_V | flags.bits);
            let pb = ppn.0;
            let fb = flags.bits;
            assert(((((pb << 10usize) | ((1u8 | fb) as usize)) & 1) == 1)) by (bit_vector);
            assert(e.valid());
            assert(PTE_V == 1u8);
            let lp = leaf_path(key);
            assert(mid.dir@[lp] == t0);
            assert forall|j: int| 0 <= j < self.tables@.len() && j != t0 implies #[trigger] self.tables@[j] == mid.tables@[j] by {
            }
            assert forall|r: Seq<int>, i: int|
                self.dir@.contains_key(r) && r.len() < 2 && 0 <= i < 512 implies self.entry(self.dir@[r], i) == mid.entry(mid.dir@[r], i) by {
                assert(r != lp);
            }
            assert forall|k: int| 0 <= k < self.tables@.len() implies (#[trigger] self.tables@[k])@.len() == 512 by {
                if k != t0 {
                    assert(self.tables@[k] == mid.tables@[k]);
                }
            }
            assert forall|v: int| 0 <= v < 0x800_0000 && v != key implies #[trigger] self.mapped(v) == mid.mapped(v)
                && (mid.mapped(v) ==> self.leaf_entry(v) == mid.leaf_entry(v)) by {
                if leaf_path(v) == lp && vpn_index(v, 0) == vpn_index(key, 0) {
                    lemma_indices_determine_page(v, key);
                }
                if mid.dir@.contains_key(leaf_path(v)) && mid.dir@[leaf_path(v)] == t0 {
                    assert(leaf_path(v) == lp);
                }
            }
            assert(self.frames@ == mid.frames@);
            assert(self.dir@ == mid.dir@);
            assert(forall|k: int| 0 <= k < self.frames@.len() ==> #[trigger] self.ppn_of(k) == mid.ppn_of(k));
            assert forall|r: Seq<int>, i: int|
                self.dir@.contains_key(r) && r.len() < 2 && 0 <= i < 512 implies {
                    &&& self.entry(self.dir@[r], i).valid() == self.dir@.contains_key(r.push(i))
                    &&& self.entry(self.dir@[r], i).valid() ==> self.entry(self.dir@[r], i).spec_ppn()
                        == self.ppn_of(self.dir@[r.push(i)])
                    &&& self.entry(self.dir@[r], i).valid() ==> self.entry(self.dir@[r], i)
                        == PageTableEntry::spec_new(self.ppn_of(self.dir@[r.push(i)]), PTE_V)
                } by {
                assert(self.entry(self.dir@[r], i) == mid.entry(mid.dir@[r], i));
            }
            assert forall|r: Seq<int>, i: int|
                self.dir@.contains_key(r) && 0 <= i < 512 && !self.entry(self.dir@[r], i).valid()
                implies self.entry(self.dir@[r], i).bits == 0 by {
                if r == lp && i == vpn_index(key, 0) {
                } else if r == lp {
                    assert(self.entry(t0 as int, i) == mid.entry(t0 as int, i));
                } else {
                    assert(self.entry(self.dir@[r], i) == mid.entry(mid.dir@[r], i));
                }
            }
            assert(self.wf());
            assert(self.mapped(key));
            assert(self.leaf_entry(key) == e);
            assert(self@ =~= old(self)@.insert(key, e));
            assert(self.table_paths() =~= with_tables_for(paths, key));
            assert(old(self).frame_ppns() + pool.handed_out(a) + pool.after_allocs(a).handed_out(b)
                =~= old(self).frame_ppns() + pool.handed_out(a + b));
        }
    }

    /// Changes nothing: the table is left exactly as it was.
    pub fn unmap(&mut self, vpn: VirtPageNum)
        ensures
            *final(self) == *old(self),
    {
    }
}

impl PageTable {
    /// The page-table page held in frame `ppn`, if the table holds it.
    pub closed spec fn table_in_frame(self, ppn: int) -> Option<int> {
        if exists|k: int| 0 <= k < self.frames@.len() && self.ppn_of(k) == ppn {
            Some(choose|k: int| 0 <= k < self.frames@.len() && self.ppn_of(k) == ppn)
        } else {
            None
        }
    }

    /// Entry `i` of the page-table page in frame `ppn`, if the table holds
    /// that frame.
    pub closed spec fn read_entry(self, ppn: int, i: int) -> Option<PageTableEntry> {
        match self.table_in_frame(ppn) {
            Some(k) => Some(self.entry(k, i)),
            None => None,
        }
    }

    /// What the processor finds for virtual page `v`: the entry its walk
    /// stops at. It starts at the root frame; a valid entry with `R`, `W` or
    /// `X` at the root or second level ends the walk there (a gigapage or
    /// megapage), any other valid entry leads to the frame it names; at the
    /// last level a valid entry translates `v`. An invalid entry, or a frame
    /// the table does not hold, gives nothing.
    pub closed spec fn walk(self, v: int) -> Option<PageTableEntry> {
        match self.read_entry(self.root_ppn(), vpn_index(v, 2)) {
            Some(e2) if e2.valid() => if e2.is_leaf() {
                Some(e2)
            } else {
                match self.read_entry(e2.spec_ppn(), vpn_index(v, 1)) {
                    Some(e1) if e1.valid() => if e1.is_leaf() {
                        Some(e1)
                    } else {
                        match self.read_entry(e1.spec_ppn(), vpn_index(v, 0)) {
                            Some(e0) if e0.valid() => Some(e0),
                            _ => None,
                        }
                    },
                    _ => None,
                }
            },
            _ => None,
        }
    }
}

/// An entry that points at a page-table page, with flags `V` alone, is not
/// a leaf.
proof fn lemma_directory_entries_not_leaves()
    ensures
        forall|p: int| #![trigger PageTableEntry::spec_new(p, PTE_V)] !PageTableEntry::spec_new(p, PTE_V).is_leaf(),
{
    assert forall|p: int| #![trigger PageTableEntry::spec_new(p, PTE_V)] !PageTableEntry::spec_new(p, PTE_V).is_leaf() by {
        let q = p as usize;
        assert(((q << 10usize) | (1u8 as usize)) & 0xe == 0) by (bit_vector);
    }
}

/// In a table with a root, the frame-by-frame walk that the processor makes
/// for a virtual page, under Sv39's rule that a valid entry with `R`, `W` or
/// `X` ends the walk, finds exactly the leaf entry that the table maps the
/// page to, and nothing for a page that it does not map.
pub proof fn lemma_walk_finds_mapping(pt: PageTable, v: int)
    requires
        pt.initialized(),
        0 <= v < 0x800_0000,
    ensures
        pt.walk(v) == (if pt@.contains_key(v) { Some(pt@[v]) } else { Option::<PageTableEntry>::None }),
{
    let root = Seq::<int>::empty();
    let r = pt.dir@[root];
    lemma_directory_entries_not_leaves();
    assert(pt.table_in_frame(pt.root_ppn()) == Some(r)) by {
        let k = choose|k: int| 0 <= k < pt.frames@.len() && pt.ppn_of(k) == pt.root_ppn();
        assert(pt.ppn_of(r) == pt.root_ppn());
        assert(k == r);
    }
    let i2 = vpn_index(v, 2);
    let i1 = vpn_index(v, 1);
    let p1 = root.push(i2);
    assert(p1 =~= mid_path(v));
    let e2 = pt.entry(r, i2);
    if e2.valid() {
        let t1 = pt.dir@[p1];
        assert(pt.table_in_frame(e2.spec_ppn()) == Some(t1)) by {
            let k = choose|k: int| 0 <= k < pt.frames@.len() && pt.ppn_of(k) == e2.spec_ppn();
            assert(k == t1);
        }
        let p0 = p1.push(i1);
        assert(p0 =~= leaf_path(v));
        let e1 = pt.entry(t1, i1);
        if e1.valid() {
            let t0 = pt.dir@[p0];
            assert(pt.table_in_frame(e1.spec_ppn()) == Some(t0)) by {
                let k = choose|k: int| 0 <= k < pt.frames@.len() && pt.ppn_of(k) == e1.spec_ppn();
                assert(k == t0);
            }
        } else {
            assert(!pt.mapped(v));
        }
    } else {
        assert(!pt.dir@.contains_key(p1));
        assert(!pt.dir@.contains_key(leaf_path(v))) by {
            if pt.dir@.contains_key(leaf_path(v)) {
                assert(leaf_path(v).drop_last() =~= p1);
            }
        }
    }
}

/// Once a table maps one more page, the processor's walk finds the new
/// entry for that page and what it found before for every other page.
pub proof fn lemma_walk_after_map(before: PageTable, after: PageTable, v: int, e: PageTableEntry)
    requires
        before.initialized(),
        after.initialized(),
        0 <= v < 0x800_0000,
        after@ == before@.insert(v, e),
    ensures
        after.walk(v) == Some(e),
        forall|w: int| 0 <= w < 0x800_0000 && w != v ==> #[trigger] after.walk(w) == before.walk(w),
{
    lemma_walk_finds_mapping(after, v);
    assert forall|w: int| 0 <= w < 0x800_0000 && w != v implies #[trigger] after.walk(w) == before.walk(w) by {
        lemma_walk_finds_mapping(after, w);
        lemma_walk_finds_mapping(before, w);
    }
}

/// Allocations that can be served leave the table's frames in use.
pub proof fn lemma_in_use_after_allocs(pt: PageTable, pool: FramePool, n: nat)
    requires
        pt.in_use_by(pool),
        pool.available() >= n,
    ensures
        pt.in_use_by(pool.after_allocs(n)),
{
    crate::frame_allocator::lemma_allocs_keep_used_pages(pool, n);
    assert forall|k: int| 0 <= k < pt.frames@.len() implies !pool.after_allocs(n).is_free(#[trigger] pt.ppn_of(k)) by {
        assert(!pool.is_free(pt.ppn_of(k)));
    }
}

/// Mapping one more page after a run adds its missing pages to the count
/// and its places to the tree.
pub proof fn lemma_tables_step(paths: Set<Seq<int>>, s: int, i: int)
    requires
        s <= i,
    ensures
        tables_after(paths, s, i + 1) == with_tables_for(tables_after(paths, s, i), i),
        tables_needed(paths, s, i + 1) == tables_needed(paths, s, i) + missing_tables(
            tables_after(paths, s, i),
            i,
        ),
    decreases i - s,
{
    if s < i {
        lemma_tables_step(with_tables_for(paths, s), s + 1, i);
    } else {
        assert(tables_after(with_tables_for(paths, s), s + 1, i + 1) == with_tables_for(paths, s));
        assert(tables_needed(with_tables_for(paths, s), s + 1, i + 1) == 0);
    }
}

/// The pages a run needs are those of its first part and then those of the
/// rest, counted from the tree the first part leaves.
pub proof fn lemma_tables_split(paths: Set<Seq<int>>, s: int, i: int, e: int)
    requires
        s <= i <= e,
    ensures
        tables_needed(paths, s, e) == tables_needed(paths, s, i) + tables_needed(
            tables_after(paths, s, i),
            i,
            e,
        ),
    decreases i - s,
{
    if s < i {
        lemma_tables_split(with_tables_for(paths, s), s + 1, i, e);
    }
}

/// A table that holds no frame has none of them free in any pool.
pub proof fn lemma_no_frames_in_use(pt: PageTable, pool: FramePool)
    requires
        pt.frame_ppns().len() == 0,
        pool.wf(),
        pool.no_double_free(),
    ensures
        pt.in_use_by(pool),
{
}

impl PageTable {
    /// Gives every frame of the table back to `allocator`, in the order the
    /// table took them.
    pub fn release(self, allocator: &mut LinkedFrameAllocator)
        requires
            forall|k: int| 0 <= k < self.frame_ppns().len() ==> #[trigger] self.frame_ppns()[k] < old(allocator)@.current,
        ensures
            final(allocator)@ == old(allocator)@.dealloc_all(self.frame_ppns()),
    {
        let frames = self.frames;
        let ghost ps = self.frame_ppns();
        let mut i: usize = 0;
        while i < frames.len()
            invariant
                0 <= i <= frames@.len(),
                ps == frames@.map_values(|f: PhysFrame| f.ppn.0 as int),
                forall|k: int| 0 <= k < ps.len() ==> #[trigger] ps[k] < old(allocator)@.current,
                allocator@ == old(allocator)@.dealloc_all(ps.take(i as int)),
            decreases frames@.len() - i,
        {
            assert(ps[i as int] == frames@[i as int].ppn.0);
            crate::frame_allocator::dealloc_frame(allocator, frames[i].ppn);
            assert(ps.take(i as int + 1) =~= ps.take(i as int).push(ps[i as int]));
            assert(old(allocator)@.recycle + ps.take(i as int + 1) =~= (old(allocator)@.recycle + ps.take(i as int)).push(ps[i as int]));
            i += 1;
        }
        assert(ps.take(frames@.len() as int) =~= ps);
    }

    /// The frame-by-frame walk that the processor makes for `vpn`: the leaf
    /// entry that translates it, if there is one.
    pub fn translate(&self, vpn: VirtPageNum) -> (r: Option<PageTableEntry>)
        requires
            self.wf(),
        ensures
            r == self.walk(vpn_key(vpn.0)),
    {
        proof {
            lemma_walk_indices(vpn.0);
        }
        let e2 = match self.read_entry_exec(self.page_directory.0, (vpn.0 >> 18) & 511) {
            Some(e) => e,
            None => return None,
        };
        if !e2.is_valid() {
            return None;
        }
        if e2.bits & 0xe != 0 {
            return Some(e2);
        }
        let e1 = match self.read_entry_exec(e2.get_ppn().0, (vpn.0 >> 9) & 511) {
            Some(e) => e,
            None => return None,
        };
        if !e1.is_valid() {
            return None;
        }
        if e1.bits & 0xe != 0 {
            return Some(e1);
        }
        let e0 = match self.read_entry_exec(e1.get_ppn().0, vpn.0 & 511) {
            Some(e) => e,
            None => return None,
        };
        if !e0.is_valid() {
            return None;
        }
        Some(e0)
    }

    /// Entry `i` of the page-table page in frame `ppn`, if the table holds
    /// that frame.
    fn read_entry_exec(&self, ppn: usize, i: usize) -> (r: Option<PageTableEntry>)
        requires
            self.wf(),
            i < 512,
        ensures
            r == self.read_entry(ppn as int, i as int),
    {
        let mut k: usize = 0;
        while k < self.frames.len()
            invariant
                self.wf(),
                i < 512,
                forall|j: int| 0 <= j < k ==> self.ppn_of(j) != ppn,
            decreases self.frames@.len() - k,
        {
            if self.frames[k].ppn.0 == ppn {
                proof {
                    let c = choose|j: int| 0 <= j < self.frames@.len() && self.ppn_of(j) == ppn;
                    assert(self.ppn_of(k as int) == ppn);
                    assert(c == k);
                }
                return Some(self.tables[k][i]);
            }
            k += 1;
        }
        None
    }
}

impl PageTable {
    /// How many page-table pages the table holds, including any dropped
    /// from the tree by a second `init`.
    pub fn table_count(&self) -> (r: usize)
        requires
            self.wf(),
        ensures
            r == self.frame_ppns().len(),
    {
        self.frames.len()
    }

    /// The frame that holds page-table page `k`.
    pub fn table_frame(&self, k: usize) -> (r: PhysPageNum)
        requires
            self.wf(),
            k < self.frame_ppns().len(),
        ensures
            r.0 == self.frame_ppns()[k as int],
    {
        self.frames[k].ppn
    }

    /// Entry `i` of page-table page `k`: what the frame that holds the page
    /// is to contain at byte `8 * i`.
    pub fn table_entry(&self, k: usize, i: usize) -> (r: PageTableEntry)
        requires
            self.wf(),
            k < self.frame_ppns().len(),
            i < 512,
        ensures
            r == self.entry(k as int, i as int),
    {
        self.tables[k][i]
    }
}

/// The page-table page at each place of the tree has a position of its
/// own among the table's pages. An entry of the root or of a second-level
/// page holds, with flags `V` alone, the frame of the page below it when
/// that page exists, and is 0 otherwise. Entry `i` of the leaf page at
/// `[a, b]` is the table's entry for virtual page `a * 2^18 + b * 512 + i`
/// when it maps that page, and is 0 otherwise.
pub proof fn lemma_table_contents(pt: PageTable)
    requires
        pt.wf(),
    ensures
        forall|p: Seq<int>| #[trigger] pt.table_paths().contains(p) ==> path_ok(p) && 0 <= pt.table_index(p)
            < pt.frame_ppns().len(),
        forall|p: Seq<int>, q: Seq<int>|
            pt.table_paths().contains(p) && pt.table_paths().contains(q) && p != q ==> #[trigger] pt.table_index(p)
                != #[trigger] pt.table_index(q),
        pt.has_root() ==> pt.table_paths().contains(Seq::<int>::empty()) && pt.frame_ppns()[pt.table_index(
            Seq::<int>::empty(),
        )] == pt.root_ppn(),
        forall|p: Seq<int>, i: int|
            pt.table_paths().contains(p) && p.len() < 2 && 0 <= i < 512 ==> #[trigger] pt.entry_at(p, i) == (
            if pt.table_paths().contains(p.push(i)) {
                PageTableEntry::spec_new(pt.frame_ppns()[pt.table_index(p.push(i))], PTE_V)
            } else {
                PageTableEntry { bits: 0 }
            }),
        forall|p: Seq<int>, i: int|
            pt.table_paths().contains(p) && p.len() == 2 && 0 <= i < 512 ==> #[trigger] pt.entry_at(p, i) == (
            if pt@.contains_key(p[0] * 0x40000 + p[1] * 512 + i) {
                pt@[p[0] * 0x40000 + p[1] * 512 + i]
            } else {
                PageTableEntry { bits: 0 }
            }),
{
    assert forall|p: Seq<int>, i: int|
        pt.table_paths().contains(p) && p.len() < 2 && 0 <= i < 512 implies #[trigger] pt.entry_at(p, i) == (
        if pt.table_paths().contains(p.push(i)) {
            PageTableEntry::spec_new(pt.frame_ppns()[pt.table_index(p.push(i))], PTE_V)
        } else {
            PageTableEntry { bits: 0 }
        }) by {
        let e = pt.entry(pt.dir@[p], i);
        if !e.valid() {
            assert(e.bits == 0);
        }
    }
    assert forall|p: Seq<int>, i: int|
        pt.table_paths().contains(p) && p.len() == 2 && 0 <= i < 512 implies #[trigger] pt.entry_at(p, i) == (
        if pt@.contains_key(p[0] * 0x40000 + p[1] * 512 + i) {
            pt@[p[0] * 0x40000 + p[1] * 512 + i]
        } else {
            PageTableEntry { bits: 0 }
        }) by {
        let a = p[0];
        let b = p[1];
        assert(path_ok(p));
        assert(0 <= a < 512 && 0 <= b < 512);
        let v = a * 0x40000 + b * 512 + i;
        assert(0 <= v < 0x800_0000 && (v / 0x40000) % 512 == a && (v / 512) % 512 == b && v % 512 == i)
            by (nonlinear_arith)
            requires
                0 <= a < 512,
                0 <= b < 512,
                0 <= i < 512,
                v == a * 0x40000 + b * 512 + i,
        ;
        assert(leaf_path(v) =~= p);
        let e = pt.entry(pt.dir@[p], i);
        if !e.valid() {
            assert(e.bits == 0);
        }
    }
}

} // verus!
