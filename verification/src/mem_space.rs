use vstd::prelude::*;

use std::collections::BTreeMap;

use crate::address::{PhysPageNum, VirtPageNum};
use crate::frame_allocator::{alloc_frame, FramePool, LinkedFrameAllocator, PhysFrame};
use crate::pagetable::{
    missing_tables, tables_after, tables_needed, vpn_key, with_tables_for, PTEFlags, PageTable,
    PageTableEntry, PTE_V,
};

verus! {

/// The page may be read.
pub const MAP_R: u8 = 2;
/// The page may be written.
pub const MAP_W: u8 = 4;
/// The page may be executed.
pub const MAP_X: u8 = 8;
/// The page is reachable from user mode.
pub const MAP_U: u8 = 16;

/// The permissions of a mapped area: the `R W X U` bits of a page-table
/// entry, in the same places.
#[derive(Clone, Copy, PartialEq, Eq, Structural)]
pub struct MapPermission {
    pub bits: u8,
}

impl MapPermission {
    /// The permissions named by `bits`, when `bits` names only `R W X U`.
    pub fn from_bits(bits: u8) -> (r: Option<MapPermission>)
        ensures
            r == (if bits & !0x1eu8 == 0 { Some(MapPermission { bits: bits }) } else { None }),
    {
        if bits & !0x1eu8 == 0 {
            Some(MapPermission { bits: bits })
        } else {
            None
        }
    }

    /// The permissions in either.
    pub fn union(self, other: MapPermission) -> (r: MapPermission)
        ensures
            r.bits == self.bits | other.bits,
    {
        MapPermission { bits: self.bits | other.bits }
    }
}

/// How an area finds the physical page for each of its virtual pages.
#[derive(Clone, Copy, PartialEq, Eq, Structural)]
pub enum MapType {
    /// The physical page with the same number.
    Identical,
    /// A frame taken from the allocator.
    Framed,
}

/// A run of virtual pages `[start, end)` mapped one way with one set of
/// permissions, with the frames behind its mapped pages.
pub struct MapArea {
    vpn_range: (VirtPageNum, VirtPageNum),
    frames: BTreeMap<usize, PhysFrame>,
    map_type: MapType,
    map_perm: MapPermission,
}

/// The number of pages in `[s, e)`.
pub open spec fn range_len(s: int, e: int) -> nat {
    if s < e { (e - s) as nat } else { 0 }
}

/// The allocator's pool when page `v` gets its turn, as the pages from `s`
/// on are mapped in order, each taking `d` frames for itself and then the
/// page-table pages it adds to the tree at `paths`.
pub open spec fn pool_at_turn(pool: FramePool, paths: Set<Seq<int>>, s: int, v: int, d: nat) -> FramePool {
    pool.after_allocs(tables_needed(paths, s, v) + d * range_len(s, v))
}

/// The frames that the page table takes, in order, as the pages `s` to
/// `i - 1` are mapped in order, each taking `d` frames for itself first.
pub open spec fn table_frames_taken(pool: FramePool, paths: Set<Seq<int>>, s: int, i: int, d: nat) -> Seq<int>
    decreases i - s,
{
    if i <= s {
        Seq::empty()
    } else {
        table_frames_taken(pool, paths, s, i - 1, d) + pool_at_turn(pool, paths, s, i - 1, d).after_allocs(
            d,
        ).handed_out(missing_tables(tables_after(paths, s, i - 1), i - 1))
    }
}

/// The physical page that an identical mapping gives virtual page `vpn`.
pub open spec fn identical_page(vpn: int) -> int {
    vpn % 0x1000_0000_0000
}

/// The physical pages of `m` for the virtual pages `s` to `e - 1` that it
/// holds, in order of virtual page.
pub open spec fn ppns_in_order(m: Map<int, int>, s: int, e: int) -> Seq<int>
    decreases e - s,
{
    if s >= e {
        Seq::empty()
    } else {
        (if m.contains_key(s) { seq![m[s]] } else { Seq::empty() }) + ppns_in_order(m, s + 1, e)
    }
}

/// Taking one more virtual page at the end of a run adds its page, if any.
proof fn lemma_ppns_in_order_step(m: Map<int, int>, s: int, v: int)
    requires
        s <= v,
    ensures
        ppns_in_order(m, s, v + 1) == ppns_in_order(m, s, v) + (if m.contains_key(v) {
            seq![m[v]]
        } else {
            Seq::<int>::empty()
        }),
    decreases v - s,
{
    if s < v {
        lemma_ppns_in_order_step(m, s + 1, v);
        let h = if m.contains_key(s) { seq![m[s]] } else { Seq::<int>::empty() };
        let t = if m.contains_key(v) { seq![m[v]] } else { Seq::<int>::empty() };
        assert(h + (ppns_in_order(m, s + 1, v) + t) =~= (h + ppns_in_order(m, s + 1, v)) + t);
    } else {
        assert(ppns_in_order(m, s + 1, v + 1) == Seq::<int>::empty());
        assert(ppns_in_order(m, s, v) == Seq::<int>::empty());
        let t = if m.contains_key(v) { seq![m[v]] } else { Seq::<int>::empty() };
        assert(t + Seq::<int>::empty() =~= Seq::<int>::empty() + t);
    }
}

/// The pages of `m` in order over `[s, e)` list the page of every virtual
/// page in that range that `m` holds.
pub proof fn lemma_ppns_in_order_lists(m: Map<int, int>, s: int, e: int, v: int)
    requires
        s <= v < e,
        m.contains_key(v),
    ensures
        ppns_in_order(m, s, e).contains(m[v]),
    decreases e - s,
{
    let h = if m.contains_key(s) { seq![m[s]] } else { Seq::<int>::empty() };
    let t = ppns_in_order(m, s + 1, e);
    assert(ppns_in_order(m, s, e) == h + t);
    if v == s {
        assert((h + t)[0] == m[v]);
    } else {
        lemma_ppns_in_order_lists(m, s + 1, e, v);
        let j = choose|j: int| 0 <= j < t.len() && t[j] == m[v];
        assert((h + t)[h.len() + j] == m[v]);
    }
}

impl MapArea {
    /// Every page that the area keeps a frame for lies in the area.
    #[verifier::type_invariant]
    closed spec fn frames_in_range(self) -> bool {
        forall|v: usize| #[trigger] self.frames@.contains_key(v) ==> self.vpn_range.0.0 <= v < self.vpn_range.1.0
    }

    /// The first virtual page of the area.
    pub closed spec fn start(self) -> int {
        self.vpn_range.0.0 as int
    }

    /// The virtual page just past the area.
    pub closed spec fn end(self) -> int {
        self.vpn_range.1.0 as int
    }

    /// How the area maps its pages.
    pub closed spec fn kind(self) -> MapType {
        self.map_type
    }

    /// The area's permissions.
    pub closed spec fn perm(self) -> MapPermission {
        self.map_perm
    }

    /// The frames behind the mapped pages: virtual page to physical page.
    pub closed spec fn frames_map(self) -> Map<int, int> {
        Map::new(
            |v: int| self.frames@.contains_key(v as usize) && 0 <= v <= usize::MAX,
            |v: int| self.frames@[v as usize].ppn.0 as int,
        )
    }

    /// Frames that mapping one page takes from the allocator for the page
    /// itself.
    pub open spec fn data_frames_per_page(self) -> nat {
        if self.kind() == MapType::Framed { 1 } else { 0 }
    }

    /// An area for the virtual pages `[svpn, evpn)`, with no page mapped.
    pub fn new(svpn: VirtPageNum, evpn: VirtPageNum, map_type: MapType, map_perm: MapPermission) -> (r: Self)
        ensures
            r.start() == svpn.0,
            r.end() == evpn.0,
            r.kind() == map_type,
            r.perm() == map_perm,
            r.frames_map() == Map::<int, int>::empty(),
    {
        let r = Self { vpn_range: (svpn, evpn), frames: BTreeMap::new(), map_type: map_type, map_perm: map_perm };
        assert(r.frames_map() =~= Map::<int, int>::empty());
        r
    }
}

impl MapArea {
    /// Maps virtual page `vpn` of the area in `pagetable` and keeps the frame
    /// behind it. A framed area's new frame is taken as it is: the caller,
    /// which writes physical memory, clears it.
    fn map_one(&mut self, pagetable: &mut PageTable, allocator: &mut LinkedFrameAllocator, vpn: VirtPageNum)
        requires
            old(self).start() <= vpn.0 < old(self).end(),
            !old(self).frames_map().contains_key(vpn.0 as int),
            old(pagetable).initialized(),
            old(pagetable).in_use_by(old(allocator)@),
            !old(pagetable)@.contains_key(vpn_key(vpn.0)),
            old(allocator)@.available() >= missing_tables(old(pagetable).table_paths(), vpn_key(vpn.0))
                + old(self).data_frames_per_page(),
        ensures
            final(self).start() == old(self).start(),
            final(self).end() == old(self).end(),
            final(self).kind() == old(self).kind(),
            final(self).perm() == old(self).perm(),
            final(self).frames_map() == old(self).frames_map().insert(
                vpn.0 as int,
                if old(self).kind() == MapType::Identical {
                    identical_page(vpn.0 as int)
                } else {
                    old(allocator)@.alloc_spec().1
                },
            ),
            final(pagetable)@ == old(pagetable)@.insert(
                vpn_key(vpn.0),
                PageTableEntry::spec_new(final(self).frames_map()[vpn.0 as int], PTE_V | old(self).perm().bits),
            ),
            final(pagetable).initialized(),
            final(pagetable).in_use_by(final(allocator)@),
            final(pagetable).table_paths() == with_tables_for(old(pagetable).table_paths(), vpn_key(vpn.0)),
            final(pagetable).root_ppn() == old(pagetable).root_ppn(),
            final(pagetable).frame_ppns() == old(pagetable).frame_ppns() + old(allocator)@.after_allocs(
                old(self).data_frames_per_page(),
            ).handed_out(missing_tables(old(pagetable).table_paths(), vpn_key(vpn.0))),
            final(allocator)@ == old(allocator)@.after_allocs(
                old(self).data_frames_per_page() + missing_tables(old(pagetable).table_paths(), vpn_key(vpn.0)),
            ),
            old(self).kind() == MapType::Framed ==> {
                let p = old(allocator)@.alloc_spec().1;
                &&& old(allocator)@.is_free(p)
                &&& !final(allocator)@.is_free(p)
                &&& forall|q: int| q != p && !old(allocator)@.is_free(q) ==> !final(allocator)@.is_free(q)
            },
    {
        proof {
            use_type_invariant(&*self);
        }
        let ghost pool = allocator@;
        let ghost paths = pagetable.table_paths();
        let ghost m = missing_tables(paths, vpn_key(vpn.0));
        let flags = PTEFlags::from_bits(self.map_perm.bits).unwrap();
        match self.map_type {
            MapType::Identical => {
                let ppn = PhysPageNum::from(vpn.0);
                pagetable.map(allocator, vpn, ppn, flags);
                let mut frames = BTreeMap::new();
                std::mem::swap(&mut frames, &mut self.frames);
                frames.insert(vpn.0, PhysFrame::new_nonzero(ppn));
                self.frames = frames;
                proof {
                    assert(self.frames_map() =~= old(self).frames_map().insert(vpn.0 as int, identical_page(vpn.0 as int)));
                    assert(pool.after_allocs(0 + m) == pool.after_allocs(m));
                    assert(pool.after_allocs(0) == pool);
                }
            },
            MapType::Framed => {
                proof {
                    crate::frame_allocator::lemma_alloc_takes_a_free_page(pool);
                    crate::frame_allocator::lemma_alloc_uses_one(pool);
                }
                let frame = alloc_frame(allocator);
                let ghost mid_pool = allocator@;
                proof {
                    crate::pagetable::lemma_in_use_after_allocs(*pagetable, pool, 1);
                    assert(pool.after_allocs(1) == mid_pool) by {
                        assert(pool.alloc_spec().0.after_allocs(0) == pool.alloc_spec().0);
                    }
                }
                pagetable.map(allocator, vpn, frame.ppn, flags);
                let ghost p = frame.ppn.0 as int;
                let mut frames = BTreeMap::new();
                std::mem::swap(&mut frames, &mut self.frames);
                frames.insert(vpn.0, frame);
                self.frames = frames;
                proof {
                    assert(self.frames_map() =~= old(self).frames_map().insert(vpn.0 as int, p));
                    crate::frame_allocator::lemma_allocs_compose(pool, 1, m);
                    crate::frame_allocator::lemma_allocs_keep_used_pages(mid_pool, m);
                }
            },
        }
    }
}

impl MapArea {
    /// Maps every virtual page of the area in `pagetable`, in order.
    ///
    /// For a framed area the frames are taken as they are: their contents
    /// are cleared by the caller, which writes physical memory, for the
    /// pages that `frames_map()` names once this returns.
    fn map(&mut self, pagetable: &mut PageTable, allocator: &mut LinkedFrameAllocator)
        requires
            old(self).start() >= old(self).end() || old(self).end() <= 0x800_0000,
            forall|v: int| old(self).start() <= v < old(self).end() ==> !old(self).frames_map().contains_key(v),
            old(pagetable).initialized(),
            old(pagetable).in_use_by(old(allocator)@),
            forall|v: int| old(self).start() <= v < old(self).end() ==> !old(pagetable)@.contains_key(v),
            old(allocator)@.available() >= tables_needed(old(pagetable).table_paths(), old(self).start(), old(self).end())
                + old(self).data_frames_per_page() * range_len(old(self).start(), old(self).end()),
        ensures
            final(self).start() == old(self).start(),
            final(self).end() == old(self).end(),
            final(self).kind() == old(self).kind(),
            final(self).perm() == old(self).perm(),
            forall|v: int| #[trigger] final(self).frames_map().contains_key(v)
                <==> old(self).frames_map().contains_key(v) || old(self).start() <= v < old(self).end(),
            forall|v: int| #[trigger] old(self).frames_map().contains_key(v) ==> final(self).frames_map()[v]
                == old(self).frames_map()[v],
            old(self).kind() == MapType::Identical ==> forall|v: int|
                old(self).start() <= v < old(self).end() ==> #[trigger] final(self).frames_map()[v] == v,
            forall|v: int| #[trigger] final(pagetable)@.contains_key(v)
                <==> old(pagetable)@.contains_key(v) || old(self).start() <= v < old(self).end(),
            forall|v: int| #[trigger] old(pagetable)@.contains_key(v) ==> final(pagetable)@[v] == old(pagetable)@[v],
            forall|v: int| old(self).start() <= v < old(self).end() ==> #[trigger] final(pagetable)@[v]
                == PageTableEntry::spec_new(final(self).frames_map()[v], PTE_V | old(self).perm().bits),
            final(pagetable).initialized(),
            final(pagetable).in_use_by(final(allocator)@),
            final(pagetable).table_paths() == tables_after(old(pagetable).table_paths(), old(self).start(), old(self).end()),
            final(pagetable).root_ppn() == old(pagetable).root_ppn(),
            old(self).kind() == MapType::Identical ==> final(pagetable).frame_ppns() == old(pagetable).frame_ppns()
                + old(allocator)@.handed_out(tables_needed(old(pagetable).table_paths(), old(self).start(), old(self).end())),
            final(allocator)@ == old(allocator)@.after_allocs(
                tables_needed(old(pagetable).table_paths(), old(self).start(), old(self).end())
                + old(self).data_frames_per_page() * range_len(old(self).start(), old(self).end()),
            ),
            old(self).kind() == MapType::Framed ==> forall|v: int|
                old(self).start() <= v < old(self).end() ==> {
                    &&& old(allocator)@.is_free(#[trigger] final(self).frames_map()[v])
                    &&& !final(allocator)@.is_free(final(self).frames_map()[v])
                },
            old(self).kind() == MapType::Framed ==> forall|v: int, w: int|
                old(self).start() <= v < old(self).end() && old(self).start() <= w < old(self).end() && v != w
                    ==> #[trigger] final(self).frames_map()[v] != #[trigger] final(self).frames_map()[w],
            old(self).kind() == MapType::Framed ==> forall|v: int|
                old(self).start() <= v < old(self).end() ==> #[trigger] final(self).frames_map()[v] == pool_at_turn(
                    old(allocator)@,
                    old(pagetable).table_paths(),
                    old(self).start(),
                    v,
                    1,
                ).alloc_spec().1,
            final(pagetable).frame_ppns() == old(pagetable).frame_ppns() + table_frames_taken(
                old(allocator)@,
                old(pagetable).table_paths(),
                old(self).start(),
                old(self).end(),
                old(self).data_frames_per_page(),
            ),
    {
        let ghost pool = allocator@;
        let ghost paths = pagetable.table_paths();
        let ghost pt0 = *pagetable;
        let ghost area0 = *self;
        let ghost d = self.data_frames_per_page();
        let s = self.vpn_range.0.0;
        let e = self.vpn_range.1.0;
        if s >= e {
            proof {
                assert(tables_after(paths, s as int, e as int) == paths);
                assert(pool.after_allocs(0) == pool);
                assert(d * range_len(s as int, e as int) == 0);
                assert(pool.handed_out(0) =~= Seq::<int>::empty());
                assert(pt0.frame_ppns() + Seq::<int>::empty() =~= pt0.frame_ppns());
                assert(table_frames_taken(pool, paths, s as int, e as int, d) == Seq::<int>::empty());
            }
            return;
        }
        let mut i: usize = s;
        assert(pool.after_allocs(0) == pool);
        assert(tables_needed(paths, s as int, s as int) + d * 0nat == 0);
        assert(tables_after(paths, s as int, s as int) == paths);
        assert(pool.handed_out(0) =~= Seq::<int>::empty());
        assert(pt0.frame_ppns() + Seq::<int>::empty() =~= pt0.frame_ppns());
        assert(table_frames_taken(pool, paths, s as int, s as int, d) == Seq::<int>::empty());
        while i < e
            invariant
                s <= i <= e <= 0x800_0000,
                s == area0.start(),
                e == area0.end(),
                d == area0.data_frames_per_page(),
                self.start() == area0.start(),
                self.end() == area0.end(),
                self.kind() == area0.kind(),
                self.perm() == area0.perm(),
                forall|v: int| #[trigger] self.frames_map().contains_key(v)
                    <==> area0.frames_map().contains_key(v) || s <= v < i,
                forall|v: int| #[trigger] area0.frames_map().contains_key(v) && !(s <= v < e) ==> self.frames_map()[v]
                    == area0.frames_map()[v],
                forall|v: int| s <= v < e ==> !area0.frames_map().contains_key(v),
                area0.kind() == MapType::Identical ==> forall|v: int|
                    s <= v < i ==> #[trigger] self.frames_map()[v] == v,
                forall|v: int| #[trigger] pagetable@.contains_key(v) <==> pt0@.contains_key(v) || s <= v < i,
                forall|v: int| s <= v < e ==> !pt0@.contains_key(v),
                forall|v: int| #[trigger] pt0@.contains_key(v) ==> pagetable@[v] == pt0@[v],
                forall|v: int| s <= v < i ==> #[trigger] pagetable@[v]
                    == PageTableEntry::spec_new(self.frames_map()[v], PTE_V | area0.perm().bits),
                pagetable.initialized(),
                pagetable.in_use_by(allocator@),
                pagetable.table_paths() == tables_after(paths, s as int, i as int),
                pagetable.root_ppn() == pt0.root_ppn(),
                area0.kind() == MapType::Identical ==> pagetable.frame_ppns() == pt0.frame_ppns() + pool.handed_out(
                    tables_needed(paths, s as int, i as int),
                ),
                allocator@ == pool.after_allocs(tables_needed(paths, s as int, i as int) + d * (i - s) as nat),
                pool.available() >= tables_needed(paths, s as int, e as int) + d * (e - s) as nat,
                pool.wf(),
                pool.no_double_free(),
                area0.kind() == MapType::Framed ==> forall|v: int|
                    s <= v < i ==> {
                        &&& pool.is_free(#[trigger] self.frames_map()[v])
                        &&& !allocator@.is_free(self.frames_map()[v])
                    },
                area0.kind() == MapType::Framed ==> forall|v: int, w: int|
                    s <= v < i && s <= w < i && v != w ==> #[trigger] self.frames_map()[v]
                        != #[trigger] self.frames_map()[w],
                area0.kind() == MapType::Framed ==> forall|v: int|
                    s <= v < i ==> #[trigger] self.frames_map()[v] == pool_at_turn(pool, paths, s as int, v, 1).alloc_spec().1,
                pagetable.frame_ppns() == pt0.frame_ppns() + table_frames_taken(pool, paths, s as int, i as int, d),
            decreases e - i,
        {
            let ghost used = tables_needed(paths, s as int, i as int) + d * (i - s) as nat;
            let ghost before = allocator@;
            let ghost pt_before = *pagetable;
            let ghost area_before = *self;
            proof {
                crate::pagetable::lemma_tables_step(paths, s as int, i as int);
                crate::pagetable::lemma_tables_split(paths, s as int, i as int, e as int);
                crate::pagetable::lemma_tables_split(tables_after(paths, s as int, i as int), i as int, i as int + 1, e as int);
                crate::frame_allocator::lemma_allocs_keep_used_pages(pool, used);
                assert(tables_needed(tables_after(paths, s as int, i as int), i as int, i as int + 1)
                    == missing_tables(tables_after(paths, s as int, i as int), i as int)) by {
                    assert(tables_needed(with_tables_for(tables_after(paths, s as int, i as int), i as int), i as int + 1, i as int + 1) == 0);
                }
                assert(d * (e - s) as nat == d * (i - s) as nat + d * (e - i) as nat) by (nonlinear_arith)
                    requires
                        s <= i <= e,
                ;
                assert(d * (e - i) as nat >= d) by (nonlinear_arith)
                    requires
                        i < e,
                ;
                assert(vpn_key(i) == i as int);
            }
            let vpn = VirtPageNum::from(i);
            assert(vpn.0 == i);
            self.map_one(pagetable, allocator, vpn);
            proof {
                let m = missing_tables(tables_after(paths, s as int, i as int), i as int);
                crate::frame_allocator::lemma_allocs_compose(pool, used, d + m);
                assert(range_len(s as int, i as int) == (i - s) as nat);
                assert(before == pool_at_turn(pool, paths, s as int, i as int, d));
                assert(table_frames_taken(pool, paths, s as int, i as int + 1, d) == table_frames_taken(
                    pool, paths, s as int, i as int, d) + before.after_allocs(d).handed_out(m));
                assert(pt0.frame_ppns() + table_frames_taken(pool, paths, s as int, i as int, d)
                    + before.after_allocs(d).handed_out(m) =~= pt0.frame_ppns() + (table_frames_taken(
                    pool, paths, s as int, i as int, d) + before.after_allocs(d).handed_out(m)));
                if area0.kind() == MapType::Identical {
                    assert(d == 0);
                    assert(used == tables_needed(paths, s as int, i as int));
                    assert(before == pool.after_allocs(used));
                    assert(before.after_allocs(0) == before);
                    assert(pt0.frame_ppns() + pool.handed_out(used) + before.handed_out(m) =~= pt0.frame_ppns() + (
                    pool.handed_out(used) + before.handed_out(m)));
                }
                assert(tables_needed(paths, s as int, i as int + 1) + d * (i + 1 - s) as nat == used + (d + m)) by {
                    assert(d * (i + 1 - s) as nat == d * (i - s) as nat + d) by (nonlinear_arith)
                        requires
                            s <= i,
                    ;
                }
                if area0.kind() == MapType::Framed {
                    let p = before.alloc_spec().1;
                    assert forall|v: int| s <= v < i + 1 implies {
                        &&& pool.is_free(#[trigger] self.frames_map()[v])
                        &&& !allocator@.is_free(self.frames_map()[v])
                    } by {
                        if v < i {
                            assert(self.frames_map()[v] == area_before.frames_map()[v]);
                        } else {
                            assert(self.frames_map()[v] == p);
                            assert(!pool.is_free(p) ==> !before.is_free(p));
                        }
                    }
                    assert forall|v: int, w: int|
                        s <= v < i + 1 && s <= w < i + 1 && v != w implies #[trigger] self.frames_map()[v]
                            != #[trigger] self.frames_map()[w] by {
                        if v < i && w < i {
                            assert(self.frames_map()[v] == area_before.frames_map()[v]);
                            assert(self.frames_map()[w] == area_before.frames_map()[w]);
                        } else if v < i {
                            assert(self.frames_map()[v] == area_before.frames_map()[v]);
                            assert(!before.is_free(area_before.frames_map()[v]));
                        } else {
                            assert(self.frames_map()[w] == area_before.frames_map()[w]);
                            assert(!before.is_free(area_before.frames_map()[w]));
                        }
                    }
                }
            }
            i += 1;
        }
    }
}

/// An address space: a page table and the areas mapped in it.
pub struct MemSpace {
    pagetable: PageTable,
    map_areas: Vec<MapArea>,
}

/// Where the linker put the kernel's sections, and the top of physical
/// memory.
#[derive(Clone, Copy)]
pub struct KernelLayout {
    pub stext: usize,
    pub etext: usize,
    pub srodata: usize,
    pub erodata: usize,
    pub sdata: usize,
    pub edata: usize,
    pub boot_stack: usize,
    pub boot_stack_top: usize,
    pub sbss: usize,
    pub ebss: usize,
    pub ekernel: usize,
    pub phystop: usize,
}

/// The virtual pages `[first, past)` that cover the bytes `[start, end)`:
/// from the page of `start` to the page after that of `end - 1`, each
/// taken to its low 27 bits.
pub open spec fn section_pages(start: int, end: int) -> (int, int) {
    ((start / 4096) % 0x800_0000, ((end - 1) / 4096 + 1) % 0x800_0000)
}

/// The kernel's areas in the order they are mapped: text (`R X`), read-only
/// data (`R`), data, boot stack, bss, and the rest of physical memory
/// (`R W`); each is first page, page past the end, permission bits.
pub open spec fn kernel_areas(l: KernelLayout) -> Seq<(int, int, u8)> {
    let t = section_pages(l.stext as int, l.etext as int);
    let r = section_pages(l.srodata as int, l.erodata as int);
    let d = section_pages(l.sdata as int, l.edata as int);
    let s = section_pages(l.boot_stack as int, l.boot_stack_top as int);
    let b = section_pages(l.sbss as int, l.ebss as int);
    let m = section_pages(l.ekernel as int, l.phystop as int);
    seq![
        (t.0, t.1, MAP_R | MAP_X),
        (r.0, r.1, MAP_R),
        (d.0, d.1, MAP_R | MAP_W),
        (s.0, s.1, MAP_R | MAP_W),
        (b.0, b.1, MAP_R | MAP_W),
        (m.0, m.1, MAP_R | MAP_W),
    ]
}

/// The end of every section lies past address 0, so that its last byte
/// has an address.
pub open spec fn layout_ends_positive(l: KernelLayout) -> bool {
    l.etext >= 1 && l.erodata >= 1 && l.edata >= 1 && l.boot_stack_top >= 1 && l.ebss >= 1
        && l.phystop >= 1
}

/// `s <= v < e`.
pub open spec fn in_range(s: int, e: int, v: int) -> bool {
    s <= v < e
}

/// Virtual page `v` lies in area `a`.
pub open spec fn in_area(a: (int, int, u8), v: int) -> bool {
    in_range(a.0, a.1, v)
}

/// No virtual page lies in two of the areas.
pub open spec fn areas_disjoint(areas: Seq<(int, int, u8)>) -> bool {
    forall|k: int, j: int, v: int|
        0 <= k < j < areas.len() ==> !(#[trigger] in_area(areas[k], v) && #[trigger] in_area(areas[j], v))
}

/// The page-table pages that exist once the first `n` areas are mapped.
pub open spec fn paths_after_areas(paths: Set<Seq<int>>, areas: Seq<(int, int, u8)>, n: nat) -> Set<
    Seq<int>,
>
    decreases n,
{
    if n == 0 {
        paths
    } else {
        let a = areas[n - 1];
        tables_after(paths_after_areas(paths, areas, (n - 1) as nat), a.0, a.1)
    }
}

/// How many page-table pages mapping the first `n` areas adds.
pub open spec fn tables_for_areas(paths: Set<Seq<int>>, areas: Seq<(int, int, u8)>, n: nat) -> nat
    decreases n,
{
    if n == 0 {
        0
    } else {
        let a = areas[n - 1];
        tables_for_areas(paths, areas, (n - 1) as nat) + tables_needed(
            paths_after_areas(paths, areas, (n - 1) as nat),
            a.0,
            a.1,
        )
    }
}

/// How many frames setting up the kernel's address space takes: the root
/// page-table page and the page-table pages of its areas.
pub open spec fn kernel_frames_needed(l: KernelLayout) -> nat {
    1 + tables_for_areas(set![Seq::<int>::empty()], kernel_areas(l), 6)
}

impl MemSpace {
    /// The address space's page table.
    pub closed spec fn table(self) -> PageTable {
        self.pagetable
    }

    /// The areas, in the order they were mapped.
    pub closed spec fn areas(self) -> Seq<MapArea> {
        self.map_areas@
    }

    /// An address space with no area and a page table with no page-table
    /// page yet.
    pub fn new() -> (r: Self)
        ensures
            r.table().wf(),
            !r.table().initialized(),
            r.table()@ == Map::<int, PageTableEntry>::empty(),
            r.table().frame_ppns() == Seq::<int>::empty(),
            r.areas() == Seq::<MapArea>::empty(),
            r.table().root_ppn() == 0,
    {
        Self { pagetable: PageTable::new(), map_areas: Vec::new() }
    }

    /// Maps every page of `map_area` and keeps the area.
    fn insert(&mut self, map_area: MapArea, allocator: &mut LinkedFrameAllocator)
        requires
            map_area.start() >= map_area.end() || map_area.end() <= 0x800_0000,
            forall|v: int| map_area.start() <= v < map_area.end() ==> !map_area.frames_map().contains_key(v),
            old(self).table().initialized(),
            old(self).table().in_use_by(old(allocator)@),
            forall|v: int| map_area.start() <= v < map_area.end() ==> !old(self).table()@.contains_key(v),
            old(allocator)@.available() >= tables_needed(old(self).table().table_paths(), map_area.start(), map_area.end())
                + map_area.data_frames_per_page() * range_len(map_area.start(), map_area.end()),
        ensures
            final(self).areas().len() == old(self).areas().len() + 1,
            forall|k: int| 0 <= k < old(self).areas().len() ==> #[trigger] final(self).areas()[k] == old(self).areas()[k],
            ({
                let a = final(self).areas().last();
                &&& a.start() == map_area.start()
                &&& a.end() == map_area.end()
                &&& a.kind() == map_area.kind()
                &&& a.perm() == map_area.perm()
                &&& forall|v: int| #[trigger] a.frames_map().contains_key(v)
                    <==> map_area.frames_map().contains_key(v) || map_area.start() <= v < map_area.end()
                &&& forall|v: int| #[trigger] map_area.frames_map().contains_key(v) ==> a.frames_map()[v]
                    == map_area.frames_map()[v]
                &&& map_area.kind() == MapType::Identical ==> forall|v: int|
                    map_area.start() <= v < map_area.end() ==> #[trigger] a.frames_map()[v] == v
                &&& forall|v: int| map_area.start() <= v < map_area.end() ==> #[trigger] final(self).table()@[v]
                    == PageTableEntry::spec_new(a.frames_map()[v], PTE_V | map_area.perm().bits)
            }),
            forall|v: int| #[trigger] final(self).table()@.contains_key(v)
                <==> old(self).table()@.contains_key(v) || map_area.start() <= v < map_area.end(),
            forall|v: int| #[trigger] old(self).table()@.contains_key(v) ==> final(self).table()@[v] == old(self).table()@[v],
            final(self).table().initialized(),
            final(self).table().in_use_by(final(allocator)@),
            final(self).table().table_paths() == tables_after(old(self).table().table_paths(), map_area.start(), map_area.end()),
            final(self).table().root_ppn() == old(self).table().root_ppn(),
            map_area.kind() == MapType::Identical ==> final(self).table().frame_ppns() == old(self).table().frame_ppns()
                + old(allocator)@.handed_out(tables_needed(old(self).table().table_paths(), map_area.start(), map_area.end())),
            final(allocator)@ == old(allocator)@.after_allocs(
                tables_needed(old(self).table().table_paths(), map_area.start(), map_area.end())
                + map_area.data_frames_per_page() * range_len(map_area.start(), map_area.end()),
            ),
    {
        let mut map_area = map_area;
        map_area.map(&mut self.pagetable, allocator);
        self.map_areas.push(map_area);
    }
}

/// The virtual pages that cover the bytes `[start, end)`.
fn section_vpns(start: usize, end: usize) -> (r: (VirtPageNum, VirtPageNum))
    requires
        end >= 1,
    ensures
        (r.0.0 as int, r.1.0 as int) == section_pages(start as int, end as int),
{
    proof {
        assert(start >> 12usize == start / 4096) by (bit_vector);
        let e1 = (end - 1) as usize;
        assert(e1 >> 12usize == e1 / 4096) by (bit_vector);
    }
    (VirtPageNum::from(start >> 12), VirtPageNum::from(((end - 1) >> 12) + 1))
}

/// The first areas take no more page-table pages than all of them.
proof fn lemma_tables_for_areas_grows(paths: Set<Seq<int>>, areas: Seq<(int, int, u8)>, k: nat, n: nat)
    requires
        k <= n,
    ensures
        tables_for_areas(paths, areas, k) <= tables_for_areas(paths, areas, n),
    decreases n,
{
    if k < n {
        lemma_tables_for_areas_grows(paths, areas, k, (n - 1) as nat);
    }
}

impl MemSpace {
    /// Sets up the kernel's address space: a new root page-table page, then
    /// each kernel area mapped page for page to the physical page with the
    /// same number.
    fn init_kernel_memspace(&mut self, allocator: &mut LinkedFrameAllocator, layout: &KernelLayout)
        requires
            old(self).table().wf(),
            old(self).table().in_use_by(old(allocator)@),
            layout_ends_positive(*layout),
            areas_disjoint(kernel_areas(*layout)),
            old(allocator)@.available() >= kernel_frames_needed(*layout),
        ensures
            final(self).table().initialized(),
            final(self).table().in_use_by(final(allocator)@),
            forall|v: int| #[trigger] final(self).table()@.contains_key(v)
                <==> exists|k: int| 0 <= k < 6 && in_area(kernel_areas(*layout)[k], v),
            forall|k: int, v: int| 0 <= k < 6 && #[trigger] in_area(kernel_areas(*layout)[k], v)
                ==> final(self).table()@[v] == PageTableEntry::spec_new(v, PTE_V | kernel_areas(*layout)[k].2),
            final(allocator)@ == old(allocator)@.after_allocs(kernel_frames_needed(*layout)),
            final(self).table().root_ppn() == old(allocator)@.alloc_spec().1,
            final(self).table().frame_ppns() == old(self).table().frame_ppns() + old(allocator)@.handed_out(
                kernel_frames_needed(*layout),
            ),
            final(self).areas().len() == old(self).areas().len() + 6,
            forall|k: int| 0 <= k < old(self).areas().len() ==> #[trigger] final(self).areas()[k] == old(self).areas()[k],
            forall|k: int| 0 <= k < 6 ==> {
                let a = #[trigger] final(self).areas()[old(self).areas().len() + k];
                &&& a.start() == kernel_areas(*layout)[k].0
                &&& a.end() == kernel_areas(*layout)[k].1
                &&& a.kind() == MapType::Identical
                &&& a.perm().bits == kernel_areas(*layout)[k].2
                &&& a.frames_map() == Map::new(|v: int| in_area(kernel_areas(*layout)[k], v), |v: int| v)
            },
    {
        let ghost pool0 = allocator@;
        let ghost areas = kernel_areas(*layout);
        let ghost root_paths = set![Seq::<int>::empty()];
        let ghost n0 = self.map_areas@.len();
        proof {
            crate::frame_allocator::lemma_alloc_uses_one(pool0);
        }
        self.pagetable.init(allocator);
        let ghost pool1 = allocator@;
        proof {
            assert(pool1 == pool0.alloc_spec().0) by {
                assert(pool0.alloc_spec().0.after_allocs(0) == pool0.alloc_spec().0);
            }
            crate::frame_allocator::lemma_allocs_compose(pool0, 1, tables_for_areas(root_paths, areas, 6));
            assert(pool1.handed_out(0) =~= Seq::<int>::empty());
            assert(old(self).table().frame_ppns() + pool0.handed_out(1) + Seq::<int>::empty()
                =~= old(self).table().frame_ppns() + pool0.handed_out(1));
        }
        let r = MapPermission { bits: MAP_R };
        let w = MapPermission { bits: MAP_W };
        let x = MapPermission { bits: MAP_X };
        let mut sections: Vec<(VirtPageNum, VirtPageNum, MapPermission)> = Vec::new();
        let t = section_vpns(layout.stext, layout.etext);
        sections.push((t.0, t.1, r.union(x)));
        let t = section_vpns(layout.srodata, layout.erodata);
        sections.push((t.0, t.1, r));
        let t = section_vpns(layout.sdata, layout.edata);
        sections.push((t.0, t.1, r.union(w)));
        let t = section_vpns(layout.boot_stack, layout.boot_stack_top);
        sections.push((t.0, t.1, r.union(w)));
        let t = section_vpns(layout.sbss, layout.ebss);
        sections.push((t.0, t.1, r.union(w)));
        let t = section_vpns(layout.ekernel, layout.phystop);
        sections.push((t.0, t.1, r.union(w)));
        assert(sections@.len() == 6);
        assert forall|k: int| 0 <= k < 6 implies (sections@[k].0.0 as int, sections@[k].1.0 as int, sections@[k].2.bits)
            == #[trigger] areas[k] by {
        }
        let mut k: usize = 0;
        while k < sections.len()
            invariant
                sections@.len() == 6,
                forall|j: int| 0 <= j < 6 ==> (sections@[j].0.0 as int, sections@[j].1.0 as int, sections@[j].2.bits)
                    == #[trigger] areas[j],
                areas == kernel_areas(*layout),
                areas_disjoint(areas),
                0 <= k <= 6,
                self.table().initialized(),
                self.table().in_use_by(allocator@),
                forall|v: int| #[trigger] self.table()@.contains_key(v)
                    <==> exists|j: int| 0 <= j < k && in_area(areas[j], v),
                forall|j: int, v: int| 0 <= j < k && #[trigger] in_area(areas[j], v)
                    ==> self.table()@[v] == PageTableEntry::spec_new(v, PTE_V | areas[j].2),
                self.table().table_paths() == paths_after_areas(root_paths, areas, k as nat),
                self.table().root_ppn() == pool0.alloc_spec().1,
                self.table().frame_ppns() == old(self).table().frame_ppns() + pool0.handed_out(1) + pool1.handed_out(
                    tables_for_areas(root_paths, areas, k as nat),
                ),
                allocator@ == pool1.after_allocs(tables_for_areas(root_paths, areas, k as nat)),
                pool1.available() >= tables_for_areas(root_paths, areas, 6),
                pool1.wf(),
                pool1.no_double_free(),
                self.areas().len() == n0 + k,
                forall|j: int| 0 <= j < n0 ==> #[trigger] self.areas()[j] == old(self).areas()[j],
                forall|j: int| 0 <= j < k ==> {
                    let a = #[trigger] self.areas()[n0 + j];
                    &&& a.start() == areas[j].0
                    &&& a.end() == areas[j].1
                    &&& a.kind() == MapType::Identical
                    &&& a.perm().bits == areas[j].2
                    &&& a.frames_map() == Map::new(|v: int| in_area(areas[j], v), |v: int| v)
                },
            decreases 6 - k,
        {
            let (svpn, evpn, perm) = sections[k];
            let area = MapArea::new(svpn, evpn, MapType::Identical, perm);
            let ghost a = areas[k as int];
            let ghost before = *self;
            proof {
                lemma_tables_for_areas_grows(root_paths, areas, k as nat, 6);
                crate::frame_allocator::lemma_allocs_keep_used_pages(pool1, tables_for_areas(root_paths, areas, k as nat));
                lemma_tables_for_areas_grows(root_paths, areas, (k + 1) as nat, 6);
                assert(paths_after_areas(root_paths, areas, (k + 1) as nat) == tables_after(
                    paths_after_areas(root_paths, areas, k as nat), a.0, a.1));
                assert(area.data_frames_per_page() * range_len(a.0, a.1) == 0);
                assert forall|v: int| area.start() <= v < area.end() implies !self.table()@.contains_key(v) by {
                    assert(in_area(a, v));
                    if self.table()@.contains_key(v) {
                        let j = choose|j: int| 0 <= j < k && in_area(areas[j], v);
                        assert(!(in_area(areas[j], v) && in_area(areas[k as int], v)));
                    }
                }
            }
            self.insert(area, allocator);
            proof {
                crate::frame_allocator::lemma_allocs_compose(
                    pool1,
                    tables_for_areas(root_paths, areas, k as nat),
                    tables_needed(paths_after_areas(root_paths, areas, k as nat), a.0, a.1),
                );
                assert(tables_needed(paths_after_areas(root_paths, areas, k as nat), a.0, a.1) + 0
                    == tables_needed(paths_after_areas(root_paths, areas, k as nat), a.0, a.1));
                let t = tables_for_areas(root_paths, areas, k as nat);
                let b = tables_needed(paths_after_areas(root_paths, areas, k as nat), a.0, a.1);
                assert(old(self).table().frame_ppns() + pool0.handed_out(1) + pool1.handed_out(t)
                    + pool1.after_allocs(t).handed_out(b) =~= old(self).table().frame_ppns() + pool0.handed_out(1)
                    + (pool1.handed_out(t) + pool1.after_allocs(t).handed_out(b)));
                assert forall|v: int| #[trigger] self.table()@.contains_key(v)
                    <==> exists|j: int| 0 <= j < k + 1 && in_area(areas[j], v) by {
                    if in_area(a, v) {
                        assert(0 <= k < k + 1 && in_area(areas[k as int], v));
                    }
                    if exists|j: int| 0 <= j < k + 1 && in_area(areas[j], v) {
                        let j = choose|j: int| 0 <= j < k + 1 && in_area(areas[j], v);
                        if j < k {
                            assert(before.table()@.contains_key(v));
                        }
                    }
                }
                assert forall|j: int, v: int| 0 <= j < k + 1 && #[trigger] in_area(areas[j], v)
                    implies self.table()@[v] == PageTableEntry::spec_new(v, PTE_V | areas[j].2) by {
                    if j < k {
                        assert(before.table()@.contains_key(v));
                    } else {
                        let last = self.areas().last();
                        assert(last.frames_map()[v] == v);
                    }
                }
                assert forall|j: int| 0 <= j < k + 1 implies {
                    let a = #[trigger] self.areas()[n0 + j];
                    &&& a.start() == areas[j].0
                    &&& a.end() == areas[j].1
                    &&& a.kind() == MapType::Identical
                    &&& a.perm().bits == areas[j].2
                    &&& a.frames_map() == Map::new(|v: int| in_area(areas[j], v), |v: int| v)
                } by {
                    if j < k {
                        assert(self.areas()[n0 + j] == before.areas()[n0 + j]);
                    }
                }
            }
            k += 1;
        }
        assert(old(self).table().frame_ppns() + pool0.handed_out(1) + pool1.handed_out(
            tables_for_areas(root_paths, areas, 6)) =~= old(self).table().frame_ppns() + (pool0.handed_out(1)
            + pool0.after_allocs(1).handed_out(tables_for_areas(root_paths, areas, 6))));
        assert(pool0.after_allocs(1) == pool1) by {
            assert(pool0.alloc_spec().0.after_allocs(0) == pool0.alloc_spec().0);
        }
    }
}

/// Sets up the kernel's address space in `space`, taking frames from
/// `allocator`.
pub fn kernel_memspace_init(space: &mut MemSpace, allocator: &mut LinkedFrameAllocator, layout: &KernelLayout)
    requires
        old(space).table().wf(),
        old(space).table().in_use_by(old(allocator)@),
        layout_ends_positive(*layout),
        areas_disjoint(kernel_areas(*layout)),
        old(allocator)@.available() >= kernel_frames_needed(*layout),
    ensures
        final(space).table().initialized(),
        final(space).table().in_use_by(final(allocator)@),
        forall|v: int| #[trigger] final(space).table()@.contains_key(v)
            <==> exists|k: int| 0 <= k < 6 && in_area(kernel_areas(*layout)[k], v),
        forall|k: int, v: int| 0 <= k < 6 && #[trigger] in_area(kernel_areas(*layout)[k], v)
            ==> final(space).table()@[v] == PageTableEntry::spec_new(v, PTE_V | kernel_areas(*layout)[k].2),
        final(allocator)@ == old(allocator)@.after_allocs(kernel_frames_needed(*layout)),
        final(space).table().root_ppn() == old(allocator)@.alloc_spec().1,
        final(space).table().frame_ppns() == old(space).table().frame_ppns() + old(allocator)@.handed_out(
            kernel_frames_needed(*layout),
        ),
        final(space).areas().len() == old(space).areas().len() + 6,
        forall|k: int| 0 <= k < old(space).areas().len() ==> #[trigger] final(space).areas()[k] == old(space).areas()[k],
        forall|k: int| 0 <= k < 6 ==> {
            let a = #[trigger] final(space).areas()[old(space).areas().len() + k];
            &&& a.start() == kernel_areas(*layout)[k].0
            &&& a.end() == kernel_areas(*layout)[k].1
            &&& a.kind() == MapType::Identical
            &&& a.perm().bits == kernel_areas(*layout)[k].2
            &&& a.frames_map() == Map::new(|v: int| in_area(kernel_areas(*layout)[k], v), |v: int| v)
        },
{
    space.init_kernel_memspace(allocator, layout);
}

impl MemSpace {
    /// The address space's page table.
    pub fn page_table(&self) -> (r: &PageTable)
        ensures
            *r == self.table(),
    {
        &self.pagetable
    }

    /// The `satp` value that turns on translation with this address space.
    pub fn token(&self) -> (r: usize)
        requires
            self.table().wf(),
        ensures
            r == ((0x8000_0000_0000_0000u64 + self.table().root_ppn()) as u64) as usize,
            usize::BITS == 64 ==> r == 0x8000_0000_0000_0000u64 as int + self.table().root_ppn(),
    {
        self.pagetable.token()
    }
}

impl MapArea {
    /// Gives the frames behind the area's pages back to `allocator`, in
    /// order of virtual page. Every frame the area keeps lies in its range,
    /// so every one of them comes back.
    pub fn release(self, allocator: &mut LinkedFrameAllocator)
        requires
            forall|v: int| #[trigger] self.frames_map().contains_key(v) ==> self.frames_map()[v] < old(allocator)@.current,
        ensures
            forall|v: int| #[trigger] self.frames_map().contains_key(v) ==> self.start() <= v < self.end(),
            forall|v: int| #[trigger] self.frames_map().contains_key(v) ==> ppns_in_order(
                self.frames_map(),
                self.start(),
                self.end(),
            ).contains(self.frames_map()[v]),
            final(allocator)@ == old(allocator)@.dealloc_all(ppns_in_order(self.frames_map(), self.start(), self.end())),
    {
        proof {
            use_type_invariant(&self);
            assert forall|v: int| #[trigger] self.frames_map().contains_key(v) implies ppns_in_order(
                self.frames_map(),
                self.start(),
                self.end(),
            ).contains(self.frames_map()[v]) by {
                lemma_ppns_in_order_lists(self.frames_map(), self.start(), self.end(), v);
            }
        }
        let ghost m = self.frames_map();
        let s = self.vpn_range.0.0;
        let e = self.vpn_range.1.0;
        let mut frames = self.frames;
        if s >= e {
            proof {
                assert(ppns_in_order(m, s as int, e as int) =~= Seq::<int>::empty());
                assert(old(allocator)@.recycle + Seq::<int>::empty() =~= old(allocator)@.recycle);
            }
            return;
        }
        let mut v: usize = s;
        while v < e
            invariant
                s <= v <= e,
                forall|u: usize| #[trigger] frames@.contains_key(u) <==> m.contains_key(u as int) && v <= u,
                forall|u: usize| #[trigger] frames@.contains_key(u) ==> frames@[u].ppn.0 as int == m[u as int],
                forall|u: int| #[trigger] m.contains_key(u) ==> m[u] < old(allocator)@.current && 0 <= u <= usize::MAX,
                allocator@ == old(allocator)@.dealloc_all(ppns_in_order(m, s as int, v as int)),
            decreases e - v,
        {
            let ghost before = allocator@;
            proof {
                lemma_ppns_in_order_step(m, s as int, v as int);
            }
            match frames.remove(&v) {
                Some(f) => {
                    assert(m.contains_key(v as int));
                    crate::frame_allocator::dealloc_frame(allocator, f.ppn);
                    assert(before.recycle.push(m[v as int]) =~= old(allocator)@.recycle + ppns_in_order(m, s as int, v as int + 1));
                },
                None => {
                    assert(!m.contains_key(v as int));
                    assert(ppns_in_order(m, s as int, v as int) + Seq::<int>::empty() =~= ppns_in_order(m, s as int, v as int));
                },
            }
            v += 1;
        }
    }
}

/// The frames of `areas`, area by area from the last one, each in order of
/// virtual page.
pub open spec fn areas_ppns_from_back(areas: Seq<MapArea>) -> Seq<int>
    decreases areas.len(),
{
    if areas.len() == 0 {
        Seq::empty()
    } else {
        let a = areas.last();
        ppns_in_order(a.frames_map(), a.start(), a.end()) + areas_ppns_from_back(areas.drop_last())
    }
}

impl MemSpace {
    /// Gives every frame back to `allocator`: those of the areas, from the
    /// last area to the first, then those of the page table.
    pub fn release(self, allocator: &mut LinkedFrameAllocator)
        requires
            forall|k: int, v: int| 0 <= k < self.areas().len() && #[trigger] self.areas()[k].frames_map().contains_key(v)
                ==> self.areas()[k].frames_map()[v] < old(allocator)@.current,
            forall|k: int| 0 <= k < self.table().frame_ppns().len() ==> #[trigger] self.table().frame_ppns()[k]
                < old(allocator)@.current,
        ensures
            final(allocator)@ == old(allocator)@.dealloc_all(
                areas_ppns_from_back(self.areas()) + self.table().frame_ppns(),
            ),
    {
        let ghost areas0 = self.areas();
        let ghost pt0 = self.table();
        let pagetable = self.pagetable;
        let mut map_areas = self.map_areas;
        while map_areas.len() > 0
            invariant
                areas0.len() >= map_areas@.len(),
                forall|k: int| 0 <= k < map_areas@.len() ==> #[trigger] map_areas@[k] == areas0[k],
                forall|k: int, v: int| 0 <= k < areas0.len() && #[trigger] areas0[k].frames_map().contains_key(v)
                    ==> areas0[k].frames_map()[v] < old(allocator)@.current,
                allocator@.current == old(allocator)@.current,
                pagetable == pt0,
                forall|k: int| 0 <= k < pt0.frame_ppns().len() ==> #[trigger] pt0.frame_ppns()[k]
                    < old(allocator)@.current,
                allocator@ == old(allocator)@.dealloc_all(
                    areas_ppns_from_back(areas0) .subrange(0, areas_ppns_from_back(areas0).len() - areas_ppns_from_back(map_areas@).len())
                ),
                areas_ppns_from_back(areas0).len() >= areas_ppns_from_back(map_areas@).len(),
                areas_ppns_from_back(areas0) =~= areas_ppns_from_back(areas0).subrange(0, areas_ppns_from_back(areas0).len() - areas_ppns_from_back(map_areas@).len()) + areas_ppns_from_back(map_areas@),
            decreases map_areas@.len(),
        {
            let ghost rest = map_areas@;
            let a = map_areas.pop().unwrap();
            let ghost before = allocator@;
            proof {
                assert(map_areas@ == rest.drop_last());
                assert(a == rest.last());
                assert(a == areas0[rest.len() - 1]);
            }
            a.release(allocator);
            proof {
                let whole = areas_ppns_from_back(areas0);
                let mine = ppns_in_order(a.frames_map(), a.start(), a.end());
                let done = whole.subrange(0, whole.len() - areas_ppns_from_back(rest).len());
                assert(areas_ppns_from_back(rest) == mine + areas_ppns_from_back(map_areas@));
                assert(whole.subrange(0, whole.len() - areas_ppns_from_back(map_areas@).len()) =~= done + mine);
                assert(before.recycle + mine =~= old(allocator)@.recycle + (done + mine));
            }
        }
        proof {
            let whole = areas_ppns_from_back(areas0);
            assert(areas_ppns_from_back(map_areas@) == Seq::<int>::empty());
            assert(whole.subrange(0, whole.len() as int) =~= whole);
        }
        pagetable.release(allocator);
        assert(old(allocator)@.recycle + areas_ppns_from_back(areas0) + pagetable.frame_ppns()
            =~= old(allocator)@.recycle + (areas_ppns_from_back(areas0) + pagetable.frame_ppns()));
    }
}

/// The page-table places that exist while counting: the root, the
/// second-level pages by root index, and the leaf pages by
/// `512 * root index + second-level index`.
struct TableCounter {
    mids: Vec<usize>,
    leaves: Vec<usize>,
}

/// Appending `a` adds `a` and keeps what was there.
proof fn lemma_push_contains(s: Seq<usize>, a: usize, x: usize)
    ensures
        s.push(a).contains(x) == (s.contains(x) || x == a),
{
    if s.contains(x) {
        let i = choose|i: int| 0 <= i < s.len() && s[i] == x;
        assert(s.push(a)[i] == x);
    }
    if x == a {
        assert(s.push(a)[s.len() as int] == x);
    }
    if s.push(a).contains(x) {
        let i = choose|i: int| 0 <= i < s.len() + 1 && s.push(a)[i] == x;
        if i < s.len() {
            assert(s[i] == x);
        }
    }
}

/// `x` is among the elements of `v`.
fn vec_contains(v: &Vec<usize>, x: usize) -> (r: bool)
    ensures
        r == v@.contains(x),
{
    let mut i: usize = 0;
    while i < v.len()
        invariant
            0 <= i <= v@.len(),
            forall|j: int| 0 <= j < i ==> v@[j] != x,
        decreases v@.len() - i,
    {
        if v[i] == x {
            return true;
        }
        i += 1;
    }
    false
}

impl TableCounter {
    spec fn paths(self) -> Set<Seq<int>> {
        Set::new(
            |p: Seq<int>|
                p.len() == 0 || (p.len() == 1 && 0 <= p[0] <= usize::MAX && self.mids@.contains(
                    p[0] as usize,
                )) || (p.len() == 2 && 0 <= p[0] && 0 <= p[1] < 512 && p[0] * 512 + p[1] <= usize::MAX
                    && self.leaves@.contains((p[0] * 512 + p[1]) as usize)),
        )
    }

    /// Counts the pages that mapping virtual page `v` adds, and adds them.
    fn add(&mut self, v: usize) -> (m: usize)
        requires
            v < 0x800_0000,
        ensures
            final(self).paths() == with_tables_for(old(self).paths(), v as int),
            m == missing_tables(old(self).paths(), v as int),
    {
        let mid = v >> 18;
        let leaf = v >> 9;
        proof {
            assert(v >> 18usize == v / 0x40000) by (bit_vector);
            assert(v >> 9usize == v / 512) by (bit_vector);
            assert(v / 512 == (v / 0x40000) * 512 + (v / 512) % 512) by (bit_vector)
                requires
                    v < 0x800_0000,
            ;
            assert((v / 0x40000) % 512 == v / 0x40000) by (bit_vector)
                requires
                    v < 0x800_0000,
            ;
        }
        let ghost i2 = crate::pagetable::vpn_index(v as int, 2);
        let ghost i1 = crate::pagetable::vpn_index(v as int, 1);
        assert(mid == i2);
        assert(leaf == i2 * 512 + i1);
        let ghost old_paths = self.paths();
        let ghost mp = crate::pagetable::mid_path(v as int);
        let ghost lp = crate::pagetable::leaf_path(v as int);
        proof {
            assert(mp[0] == i2);
            assert(lp[0] == i2 && lp[1] == i1);
            assert(old_paths.contains(mp) == self.mids@.contains(mid));
            assert(old_paths.contains(lp) == self.leaves@.contains(leaf));
        }
        let mut m: usize = 0;
        if !vec_contains(&self.mids, mid) {
            self.mids.push(mid);
            m += 1;
        }
        if !vec_contains(&self.leaves, leaf) {
            self.leaves.push(leaf);
            m += 1;
        }
        proof {
            let want = with_tables_for(old_paths, v as int);
            assert forall|p: Seq<int>| self.paths().contains(p) == want.contains(p) by {
                if p.len() == 1 {
                    if 0 <= p[0] <= usize::MAX {
                        if p[0] == mid {
                            assert(p =~= mp);
                            if !old(self).mids@.contains(mid) {
                                lemma_push_contains(old(self).mids@, mid, mid);
                            }
                        } else {
                            if self.mids@.len() != old(self).mids@.len() {
                                assert(self.mids@ == old(self).mids@.push(mid));
                                lemma_push_contains(old(self).mids@, mid, p[0] as usize);
                            }
                            assert(self.mids@.contains(p[0] as usize) == old(self).mids@.contains(p[0] as usize));
                            assert(p != mp);
                        }
                    } else {
                        assert(p != mp);
                    }
                    assert(p != lp);
                } else if p.len() == 2 {
                    if 0 <= p[0] && 0 <= p[1] < 512 && p[0] * 512 + p[1] <= usize::MAX {
                        if p[0] * 512 + p[1] == leaf {
                            assert(p[0] == i2 && p[1] == i1) by (nonlinear_arith)
                                requires
                                    p[0] * 512 + p[1] == i2 * 512 + i1,
                                    0 <= p[1] < 512,
                                    0 <= i1 < 512,
                            ;
                            assert(p =~= lp);
                            if !old(self).leaves@.contains(leaf) {
                                lemma_push_contains(old(self).leaves@, leaf, leaf);
                            }
                        } else {
                            if self.leaves@.len() != old(self).leaves@.len() {
                                assert(self.leaves@ == old(self).leaves@.push(leaf));
                                lemma_push_contains(old(self).leaves@, leaf, (p[0] * 512 + p[1]) as usize);
                            }
                            assert(self.leaves@.contains((p[0] * 512 + p[1]) as usize)
                                == old(self).leaves@.contains((p[0] * 512 + p[1]) as usize));
                            assert(p != lp);
                        }
                    } else {
                        assert(p != lp);
                    }
                    assert(p != mp);
                } else if p.len() != 0 {
                    assert(p != mp && p != lp);
                }
            }
            assert(self.paths() =~= want);
        }
        m
    }

    /// Counts the pages that mapping the virtual pages `[s, e)` in order
    /// adds, and adds them.
    fn add_range(&mut self, s: usize, e: usize) -> (n: usize)
        requires
            e <= 0x800_0000,
        ensures
            final(self).paths() == tables_after(old(self).paths(), s as int, e as int),
            n == tables_needed(old(self).paths(), s as int, e as int),
            n <= 2 * range_len(s as int, e as int),
    {
        let ghost p0 = self.paths();
        if s >= e {
            return 0;
        }
        let mut n: usize = 0;
        let mut i: usize = s;
        while i < e
            invariant
                s <= i <= e <= 0x800_0000,
                self.paths() == tables_after(p0, s as int, i as int),
                n == tables_needed(p0, s as int, i as int),
                n <= 2 * (i - s),
            decreases e - i,
        {
            proof {
                crate::pagetable::lemma_tables_step(p0, s as int, i as int);
            }
            let m = self.add(i);
            n += m;
            i += 1;
        }
        n
    }
}

/// How many frames setting up the kernel's address space takes, for a
/// layout whose sections all end past address 0.
pub fn count_kernel_frames(layout: &KernelLayout) -> (r: usize)
    requires
        layout_ends_positive(*layout),
    ensures
        r == kernel_frames_needed(*layout),
{
    let ghost areas = kernel_areas(*layout);
    let ghost root_paths = set![Seq::<int>::empty()];
    let mut bounds: Vec<(VirtPageNum, VirtPageNum)> = Vec::new();
    bounds.push(section_vpns(layout.stext, layout.etext));
    bounds.push(section_vpns(layout.srodata, layout.erodata));
    bounds.push(section_vpns(layout.sdata, layout.edata));
    bounds.push(section_vpns(layout.boot_stack, layout.boot_stack_top));
    bounds.push(section_vpns(layout.sbss, layout.ebss));
    bounds.push(section_vpns(layout.ekernel, layout.phystop));
    let mut counter = TableCounter { mids: Vec::new(), leaves: Vec::new() };
    proof {
        assert forall|p: Seq<int>| counter.paths().contains(p) == root_paths.contains(p) by {
            if p.len() == 0 {
                assert(p =~= Seq::<int>::empty());
            }
        }
        assert(counter.paths() =~= root_paths);
    }
    let mut total: usize = 0;
    let mut k: usize = 0;
    while k < bounds.len()
        invariant
            bounds@.len() == 6,
            forall|j: int| 0 <= j < 6 ==> (#[trigger] bounds@[j]).0.0 == areas[j].0 && bounds@[j].1.0 == areas[j].1,
            areas == kernel_areas(*layout),
            0 <= k <= 6,
            counter.paths() == paths_after_areas(root_paths, areas, k as nat),
            total == tables_for_areas(root_paths, areas, k as nat),
            total <= k * 0x1000_0000,
        decreases 6 - k,
    {
        let (s, e) = bounds[k];
        let n = counter.add_range(s.0, e.0);
        proof {
            assert(n <= 0x1000_0000) by {
                assert(range_len(s.0 as int, e.0 as int) <= 0x800_0000);
            }
        }
        total += n;
        k += 1;
    }
    total + 1
}

/// The intervals `[a.0, a.1)` and `[b.0, b.1)` share a virtual page.
fn ranges_overlap(a: (usize, usize), b: (usize, usize)) -> (r: bool)
    ensures
        r == exists|v: int| #[trigger] in_range(a.0 as int, a.1 as int, v) && in_range(b.0 as int, b.1 as int, v),
{
    let lo = if a.0 > b.0 { a.0 } else { b.0 };
    let hi = if a.1 < b.1 { a.1 } else { b.1 };
    let r = lo < hi;
    proof {
        if r {
            assert(in_range(a.0 as int, a.1 as int, lo as int) && in_range(b.0 as int, b.1 as int, lo as int));
        }
    }
    r
}

/// The layout can be set up: every section ends past address 0 and no
/// virtual page lies in two of the kernel's areas.
pub fn kernel_layout_is_valid(layout: &KernelLayout) -> (r: bool)
    ensures
        r == (layout_ends_positive(*layout) && areas_disjoint(kernel_areas(*layout))),
{
    if !(layout.etext >= 1 && layout.erodata >= 1 && layout.edata >= 1 && layout.boot_stack_top >= 1
        && layout.ebss >= 1 && layout.phystop >= 1) {
        return false;
    }
    let ghost areas = kernel_areas(*layout);
    let mut bounds: Vec<(usize, usize)> = Vec::new();
    let t = section_vpns(layout.stext, layout.etext);
    bounds.push((t.0.0, t.1.0));
    let t = section_vpns(layout.srodata, layout.erodata);
    bounds.push((t.0.0, t.1.0));
    let t = section_vpns(layout.sdata, layout.edata);
    bounds.push((t.0.0, t.1.0));
    let t = section_vpns(layout.boot_stack, layout.boot_stack_top);
    bounds.push((t.0.0, t.1.0));
    let t = section_vpns(layout.sbss, layout.ebss);
    bounds.push((t.0.0, t.1.0));
    let t = section_vpns(layout.ekernel, layout.phystop);
    bounds.push((t.0.0, t.1.0));
    assert forall|j: int| 0 <= j < 6 implies (#[trigger] bounds@[j]).0 == areas[j].0 && bounds@[j].1 == areas[j].1 by {
    }
    let mut j: usize = 1;
    while j < 6
        invariant
            bounds@.len() == 6,
            forall|q: int| 0 <= q < 6 ==> (#[trigger] bounds@[q]).0 == areas[q].0 && bounds@[q].1 == areas[q].1,
            areas == kernel_areas(*layout),
            1 <= j <= 6,
            forall|a: int, b: int, v: int| 0 <= a < b < j ==> !(#[trigger] in_area(areas[a], v) && #[trigger] in_area(areas[b], v)),
        decreases 6 - j,
    {
        let mut k: usize = 0;
        while k < j
            invariant
                bounds@.len() == 6,
                forall|q: int| 0 <= q < 6 ==> (#[trigger] bounds@[q]).0 == areas[q].0 && bounds@[q].1 == areas[q].1,
                areas == kernel_areas(*layout),
                1 <= j < 6,
                0 <= k <= j,
                forall|a: int, b: int, v: int| 0 <= a < b < j ==> !(#[trigger] in_area(areas[a], v) && #[trigger] in_area(areas[b], v)),
                forall|a: int, v: int| 0 <= a < k ==> !(#[trigger] in_area(areas[a], v) && in_area(areas[j as int], v)),
            decreases j - k,
        {
            if ranges_overlap(bounds[k], bounds[j]) {
                proof {
                    let v = choose|v: int| #[trigger] in_range(bounds@[k as int].0 as int, bounds@[k as int].1 as int, v) && in_range(bounds@[j as int].0 as int, bounds@[j as int].1 as int, v);
                    assert(bounds@[k as int].0 == areas[k as int].0 && bounds@[k as int].1 == areas[k as int].1);
                    assert(bounds@[j as int].0 == areas[j as int].0 && bounds@[j as int].1 == areas[j as int].1);
                    assert(in_area(areas[k as int], v) && in_area(areas[j as int], v));
                    assert(!areas_disjoint(areas));
                }
                return false;
            }
            k += 1;
        }
        j += 1;
    }
    true
}

/// The bytes `[start, end)` of kernel section `k` of `l`, in the order of
/// `kernel_areas`: text, read-only data, data, boot stack, bss, and the rest
/// of physical memory.
pub open spec fn kernel_section(l: KernelLayout, k: int) -> (int, int) {
    if k == 0 {
        (l.stext as int, l.etext as int)
    } else if k == 1 {
        (l.srodata as int, l.erodata as int)
    } else if k == 2 {
        (l.sdata as int, l.edata as int)
    } else if k == 3 {
        (l.boot_stack as int, l.boot_stack_top as int)
    } else if k == 4 {
        (l.sbss as int, l.ebss as int)
    } else {
        (l.ekernel as int, l.phystop as int)
    }
}

/// Every byte of a section lies in a page of the section's pages: the
/// page that holds a section's first byte is its first page, whether or not
/// the section starts on a page boundary. (For sections below the last
/// page of the 2^39-byte space, where page numbers do not wrap.)
pub proof fn lemma_section_pages_cover_bytes(start: int, end: int, a: int)
    requires
        0 <= start <= a < end <= 0x7f_ffff_f000,
    ensures
        section_pages(start, end).0 <= a / 4096 < section_pages(start, end).1,
{
}

/// Every page of a section's pages holds a byte of the section: the pages
/// are rounded outward to whole pages and no further.
pub proof fn lemma_section_pages_hold_bytes(start: int, end: int, v: int)
    requires
        0 <= start < end <= 0x7f_ffff_f000,
        section_pages(start, end).0 <= v < section_pages(start, end).1,
    ensures
        ({
            let a = if v * 4096 < start { start } else { v * 4096 };
            start <= a < end && a / 4096 == v
        }),
{
}

/// Each kernel area covers its section: for every byte of section `k`, the
/// page that holds it lies in area `k`, so it is mapped by
/// `kernel_memspace_init`.
pub proof fn lemma_kernel_areas_cover_sections(l: KernelLayout, k: int, a: int)
    requires
        0 <= k < 6,
        kernel_section(l, k).0 <= a < kernel_section(l, k).1 <= 0x7f_ffff_f000,
    ensures
        in_area(kernel_areas(l)[k], a / 4096),
{
    lemma_section_pages_cover_bytes(kernel_section(l, k).0, kernel_section(l, k).1, a);
}

/// A layout is valid exactly when the end of every section lies past
/// address 0 and no virtual page lies in two of its areas.
pub proof fn lemma_layout_valid_exactly(l: KernelLayout)
    ensures
        layout_ends_positive(l) <==> (l.etext >= 1 && l.erodata >= 1 && l.edata >= 1 && l.boot_stack_top >= 1
            && l.ebss >= 1 && l.phystop >= 1),
        areas_disjoint(kernel_areas(l)) <==> (forall|k: int, j: int, v: int|
            0 <= k < j < 6 ==> !(#[trigger] in_range(kernel_areas(l)[k].0, kernel_areas(l)[k].1, v)
                && #[trigger] in_range(kernel_areas(l)[j].0, kernel_areas(l)[j].1, v))),
{
    let areas = kernel_areas(l);
    assert(areas.len() == 6);
    if areas_disjoint(areas) {
        assert forall|k: int, j: int, v: int| 0 <= k < j < 6 implies !(#[trigger] in_range(areas[k].0, areas[k].1, v)
            && #[trigger] in_range(areas[j].0, areas[j].1, v)) by {
            assert(!(in_area(areas[k], v) && in_area(areas[j], v)));
        }
    }
    if forall|k: int, j: int, v: int| 0 <= k < j < 6 ==> !(#[trigger] in_range(areas[k].0, areas[k].1, v)
        && #[trigger] in_range(areas[j].0, areas[j].1, v)) {
        assert forall|k: int, j: int, v: int| 0 <= k < j < areas.len() implies !(#[trigger] in_area(areas[k], v)
            && #[trigger] in_area(areas[j], v)) by {
            assert(!(in_range(areas[k].0, areas[k].1, v) && in_range(areas[j].0, areas[j].1, v)));
        }
    }
}

/// The kernel's permissions: text may be read and executed but not
/// written, read-only data only read, and the data, boot stack, bss and the
/// rest of memory read and written but not executed; no area is reachable
/// from user mode.
pub proof fn lemma_kernel_area_permissions(l: KernelLayout)
    ensures
        kernel_areas(l)[0].2 & MAP_R != 0 && kernel_areas(l)[0].2 & MAP_X != 0 && kernel_areas(l)[0].2 & MAP_W == 0,
        kernel_areas(l)[1].2 & MAP_R != 0 && kernel_areas(l)[1].2 & MAP_X == 0 && kernel_areas(l)[1].2 & MAP_W == 0,
        forall|k: int| 2 <= k < 6 ==> #[trigger] kernel_areas(l)[k].2 & MAP_R != 0 && kernel_areas(l)[k].2 & MAP_W
            != 0 && kernel_areas(l)[k].2 & MAP_X == 0,
        forall|k: int| 0 <= k < 6 ==> #[trigger] kernel_areas(l)[k].2 & MAP_U == 0,
{
    assert((2u8 | 8u8) & 2u8 != 0 && (2u8 | 8u8) & 8u8 != 0 && (2u8 | 8u8) & 4u8 == 0 && (2u8 | 8u8) & 16u8 == 0)
        by (bit_vector);
    assert(2u8 & 2u8 != 0 && 2u8 & 8u8 == 0 && 2u8 & 4u8 == 0 && 2u8 & 16u8 == 0) by (bit_vector);
    assert((2u8 | 4u8) & 2u8 != 0 && (2u8 | 4u8) & 4u8 != 0 && (2u8 | 4u8) & 8u8 == 0 && (2u8 | 4u8) & 16u8 == 0)
        by (bit_vector);
}

} // verus!
