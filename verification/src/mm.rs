//! Sv39 page tables (three levels, 4 KiB pages, 2 MiB / 1 GiB superpages).
//! Every payload gets its own address space; the kernel's RAM is a single
//! supervisor gigapage (U=0) in every table, so the trap handler can run
//! under a payload's table while a U-mode touch of kernel memory faults.
//! A payload's ELF segments are not mapped into its space here: the loader
//! (`elf`) copies them into the load arena, so a fresh space holds only the
//! kernel gigapage, and `map_page` is the primitive for user pages (it sets
//! whatever R/W/X/U bits it is given; W^X is not enforced by this module).
//! All page-table memory lives in the frame pool and is reached only through
//! the bounds-checked physical accessors.
use vstd::prelude::*;
use crate::phys::{PhysMem, POOL_BASE, POOL_END, POOL_SIZE, in_pool, u64_at, le_u64, u64_le_bytes, phys_write,
    lemma_u64_le_roundtrip, phys_read_u64, phys_write_u64, phys_read};
use crate::frames::{FrameAllocator, lemma_full_iff, FRAME_SIZE, POOL_FRAMES, alloc_frame, alloc_post, free, free_post, frame_pa,
    without_pas, lemma_free_drops, lemma_without_union};

verus! {

pub const PAGE_SIZE: usize = 4096;

pub const V: u64 = 1;
pub const R: u64 = 2;
pub const W: u64 = 4;
pub const X: u64 = 8;
pub const U: u64 = 16;
pub const G: u64 = 32;
pub const A: u64 = 64;
pub const D: u64 = 128;
pub const PERM_MASK: u64 = 14;

/// Virtual (== physical) address of the kernel identity gigapage.
pub const KERNEL_GIGAPAGE_VA: usize = 0x8000_0000;

#[derive(Clone, Copy, Debug, PartialEq, Eq)]
pub enum MmError {
    /// Pool exhausted.
    NoFrame,
    /// The VA is already mapped.
    Overlap,
    /// A superpage PA/VA is not aligned.
    Unaligned,
}

/// A completed address space: the root table frame, ready to load into satp.
#[derive(Clone, Copy)]
pub struct AddressSpace {
    root: usize,
}

// ---- PTE helpers ----------------------------------------------------------

/// The page-table index of `va` at `level`.
pub open spec fn vpn_of(va: usize, level: int) -> int {
    if level == 0 { ((va >> 12usize) & 0x1ff) as int }
    else if level == 1 { ((va >> 21usize) & 0x1ff) as int }
    else { ((va >> 30usize) & 0x1ff) as int }
}

/// The in-page offset mask of a leaf at `level`.
pub open spec fn page_mask(level: int) -> usize {
    if level == 0 { 0xfff } else if level == 1 { 0x1f_ffff } else { 0x3fff_ffff }
}

/// The physical address a PTE points at.
pub open spec fn pte_target(e: u64) -> u64 {
    ((e >> 10u64) & 0xfff_ffff_ffffu64) << 12u64
}

/// The PTE at physical address `a` (0 where no aligned pool entry is).
pub open spec fn rd(m: Seq<u8>, a: int) -> u64 {
    match u64_at(m, a) {
        Some(v) => v,
        None => 0,
    }
}

/// Entry `idx` of the table at `table`.
pub open spec fn entry(m: Seq<u8>, table: u64, idx: int) -> u64 {
    rd(m, table + 8 * idx)
}

pub open spec fn valid(e: u64) -> bool {
    e & V != 0
}

/// A valid entry with any of R/W/X is a leaf; without, it points at a table.
pub open spec fn leafy(e: u64) -> bool {
    e & PERM_MASK != 0
}

/// The leaf entry mapping `pa` with `perms` (V, A and D added).
pub open spec fn leaf_pte(pa: usize, perms: u64) -> u64 {
    (((pa as u64) >> 12u64) << 10u64) | perms | V | A | D
}

/// The entry pointing at the table at `pa`.
pub open spec fn nonleaf_pte(pa: usize) -> u64 {
    (((pa as u64) >> 12u64) << 10u64) | V
}

pub fn vpn(va: usize, level: usize) -> (r: usize)
    requires
        level <= 2,
    ensures
        r == vpn_of(va, level as int),
        r < 512,
{
    let s: usize = if level == 0 { 12 } else if level == 1 { 21 } else { 30 };
    let r = (va >> s) & 0x1ff;
    assert(r < 512) by (bit_vector)
        requires r == (va >> s) & 0x1ff;
    r
}

pub fn read_pte(mem: &PhysMem, pa: usize) -> (r: u64)
    requires
        mem.wf(),
    ensures
        r == rd(mem@, pa as int),
{
    match phys_read_u64(mem, pa) {
        Some(v) => v,
        None => 0,
    }
}

pub fn write_pte(mem: &mut PhysMem, pa: usize, val: u64)
    requires
        old(mem).wf(),
    ensures
        final(mem).wf(),
        pa % 8 == 0 && in_pool(pa as int, 8) ==> final(mem)@ == old(mem)@.take(pa - POOL_BASE) + u64_le_bytes(val)
            + old(mem)@.skip(pa - POOL_BASE + 8),
        !(pa % 8 == 0 && in_pool(pa as int, 8)) ==> final(mem)@ == old(mem)@,
{
    phys_write_u64(mem, pa, val);
}

pub fn pte_pa(pte: u64) -> (r: usize)
    ensures
        r == pte_target(pte) as usize,
{
    (((pte >> 10u64) & 0xfff_ffff_ffffu64) << 12u64) as usize
}

pub fn nonleaf(pa: usize) -> (r: u64)
    ensures
        r == nonleaf_pte(pa),
{
    (((pa as u64) >> 12u64) << 10u64) | V
}

pub fn leaf(pa: usize, perms: u64) -> (r: u64)
    ensures
        r == leaf_pte(pa, perms),
{
    (((pa as u64) >> 12u64) << 10u64) | perms | V | A | D
}

/// What a PTE points at is a page-aligned address below 2^56.
pub proof fn lemma_pte_target(e: u64)
    ensures
        pte_target(e) % 4096 == 0,
        pte_target(e) < 0x100_0000_0000_0000,
{
    assert(((((e >> 10u64) & 0xfff_ffff_ffffu64) << 12u64) & 0xfff == 0)
        && ((((e >> 10u64) & 0xfff_ffff_ffffu64) << 12u64) < 0x100_0000_0000_0000)) by (bit_vector);
    assert(pte_target(e) % 4096 == pte_target(e) & 0xfff) by (bit_vector);
}

/// A leaf built from an aligned address with flag-only permissions points
/// back at that address and keeps its permission bits; a table entry points
/// at its table and is valid without permissions.
pub proof fn lemma_pte_build(pa: u64, perms: u64)
    requires
        pa % 4096 == 0,
        pa < 0x100_0000_0000_0000,
        perms < 256,
    ensures
        pte_target(((pa >> 12u64) << 10u64) | perms | V | A | D) == pa,
        (((pa >> 12u64) << 10u64) | perms | V | A | D) & V != 0,
        (((pa >> 12u64) << 10u64) | perms | V | A | D) & PERM_MASK == perms & PERM_MASK,
        (((pa >> 12u64) << 10u64) | perms | V | A | D) & U == perms & U,
        pte_target(((pa >> 12u64) << 10u64) | V) == pa,
        (((pa >> 12u64) << 10u64) | V) & V != 0,
        (((pa >> 12u64) << 10u64) | V) & PERM_MASK == 0,
{
    assert(pa & 0xfff == 0) by (bit_vector)
        requires pa % 4096 == 0;
    assert(
        ((((((pa >> 12u64) << 10u64) | perms | 1u64 | 64u64 | 128u64) >> 10u64) & 0xfff_ffff_ffffu64) << 12u64 == pa)
        && ((((pa >> 12u64) << 10u64) | perms | 1u64 | 64u64 | 128u64) & 1u64 != 0)
        && ((((pa >> 12u64) << 10u64) | perms | 1u64 | 64u64 | 128u64) & 14u64 == perms & 14u64)
        && ((((pa >> 12u64) << 10u64) | perms | 1u64 | 64u64 | 128u64) & 16u64 == perms & 16u64)
        && (((((((pa >> 12u64) << 10u64) | 1u64) >> 10u64) & 0xfff_ffff_ffffu64) << 12u64) == pa)
        && ((((pa >> 12u64) << 10u64) | 1u64) & 1u64 != 0)
        && ((((pa >> 12u64) << 10u64) | 1u64) & 14u64 == 0)
    ) by (bit_vector)
        requires
            pa & 0xfff == 0,
            pa < 0x100_0000_0000_0000,
            perms < 256;
}

/// The zero entry is invalid.
pub proof fn lemma_zero_invalid()
    ensures
        !valid(0),
{
    assert(0u64 & 1u64 == 0) by (bit_vector);
}

// ---- Memory locality ------------------------------------------------------

/// `m2` equals `m` except possibly within `[lo, lo + n)` (physical addresses).
pub open spec fn agree_except(m: Seq<u8>, m2: Seq<u8>, lo: int, n: int) -> bool {
    &&& m2.len() == m.len()
    &&& forall|k: int| 0 <= k < m.len() && !(lo - POOL_BASE <= k < lo - POOL_BASE + n) ==> #[trigger] m2[k] == m[k]
}

/// An entry whose eight bytes lie outside the changed range reads the same.
pub proof fn lemma_rd_unchanged(m: Seq<u8>, m2: Seq<u8>, lo: int, n: int, a: int)
    requires
        m.len() == POOL_SIZE,
        agree_except(m, m2, lo, n),
        a + 8 <= lo || a >= lo + n,
    ensures
        rd(m2, a) == rd(m, a),
{
    if a % 8 == 0 && in_pool(a, 8) {
        assert(m2.subrange(a - POOL_BASE, a - POOL_BASE + 8) =~= m.subrange(a - POOL_BASE, a - POOL_BASE + 8));
    }
}

/// A write of `val` at the aligned pool address `s` reads back `val`, and
/// changes nothing outside its eight bytes.
pub proof fn lemma_write_effect(m: Seq<u8>, m2: Seq<u8>, s: int, val: u64)
    requires
        m.len() == POOL_SIZE,
        s % 8 == 0,
        in_pool(s, 8),
        m2 == m.take(s - POOL_BASE) + u64_le_bytes(val) + m.skip(s - POOL_BASE + 8),
    ensures
        agree_except(m, m2, s, 8),
        rd(m2, s) == val,
        m2.len() == POOL_SIZE,
{
    lemma_u64_le_roundtrip(val);
    assert(m2.subrange(s - POOL_BASE, s - POOL_BASE + 8) =~= u64_le_bytes(val));
}

/// A zeroed frame holds only invalid entries, and the zeroing changed nothing
/// outside the frame.
pub proof fn lemma_zero_effect(m: Seq<u8>, m2: Seq<u8>, t: int)
    requires
        m.len() == POOL_SIZE,
        t % 4096 == 0,
        in_pool(t, 4096),
        m2 == m.take(t - POOL_BASE) + Seq::new(FRAME_SIZE as nat, |k: int| 0u8) + m.skip(t - POOL_BASE + FRAME_SIZE),
    ensures
        agree_except(m, m2, t, 4096),
        forall|j: int| 0 <= j < 512 ==> #[trigger] entry(m2, t as u64, j) == 0,
        m2.len() == POOL_SIZE,
{
    assert forall|j: int| 0 <= j < 512 implies #[trigger] entry(m2, t as u64, j) == 0 by {
        let a = t + 8 * j;
        let z = m2.subrange(a - POOL_BASE, a - POOL_BASE + 8);
        assert(z[0] == 0 && z[1] == 0 && z[2] == 0 && z[3] == 0 && z[4] == 0 && z[5] == 0 && z[6] == 0 && z[7] == 0);
        lemma_le_zero(z);
    }
}

/// Eight zero bytes read as zero.
pub proof fn lemma_le_zero(z: Seq<u8>)
    requires
        z.len() == 8,
        z[0] == 0 && z[1] == 0 && z[2] == 0 && z[3] == 0 && z[4] == 0 && z[5] == 0 && z[6] == 0 && z[7] == 0,
    ensures
        le_u64(z) == 0,
{
    let o: u64 = 0;
    assert(o | (o << 8u64) | (o << 16u64) | (o << 24u64) | (o << 32u64) | (o << 40u64) | (o << 48u64) | (o << 56u64) == 0)
        by (bit_vector)
        requires o == 0;
}

/// Distinct page-aligned tables have disjoint entries.
pub proof fn lemma_tables_disjoint(t: int, u: int, j: int, k: int)
    requires
        t % 4096 == 0,
        u % 4096 == 0,
        t != u,
        0 <= j < 512,
        0 <= k < 512,
    ensures
        t + 8 * j + 8 <= u + 8 * k || t + 8 * j >= u + 8 * k + 8,
        t + 8 * j + 8 <= u || t + 8 * j >= u + 4096,
{
    assert(t == 4096 * (t / 4096));
    assert(u == 4096 * (u / 4096));
    if t / 4096 < u / 4096 {
        assert(t / 4096 + 1 <= u / 4096);
    } else {
        assert(u / 4096 + 1 <= t / 4096);
    }
}

// ---- Well-formed address spaces -----------------------------------------

/// The frame index of pool address `a`.
pub open spec fn frame_of(a: int) -> int {
    (a - POOL_BASE) / (FRAME_SIZE as int)
}

/// `t` is a page-aligned pool frame the allocator has handed out.
pub open spec fn table_ok(fa: FrameAllocator, t: int) -> bool {
    &&& t % 4096 == 0
    &&& in_pool(t, 4096)
    &&& fa.frames().contains(frame_of(t))
}

/// A table entry pointing further down.
pub open spec fn points_down(e: u64) -> bool {
    valid(e) && !leafy(e)
}

/// A second-level table under `root`: an allocated frame other than the
/// root, whose table entries point at allocated frames other than the root
/// and itself.
pub open spec fn l1_ok(m: Seq<u8>, fa: FrameAllocator, root: int, t1: int) -> bool {
    &&& table_ok(fa, t1)
    &&& t1 != root
    &&& forall|j: int| 0 <= j < 512 && points_down(#[trigger] entry(m, t1 as u64, j)) ==> {
        let t0 = pte_target(entry(m, t1 as u64, j)) as int;
        &&& table_ok(fa, t0)
        &&& t0 != root
        &&& t0 != t1
    }
}

/// The page tables rooted at `root` are well formed: every table on every
/// walk is an allocated frame distinct from the tables above it.
pub open spec fn space_wf(m: Seq<u8>, fa: FrameAllocator, root: int) -> bool {
    &&& table_ok(fa, root)
    &&& forall|i: int| 0 <= i < 512 && points_down(#[trigger] entry(m, root as u64, i)) ==>
            l1_ok(m, fa, root, pte_target(entry(m, root as u64, i)) as int)
}

// ---- Walks ----------------------------------------------------------------

/// Walking from `table` at `level` toward `va`: the physical address `va`
/// translates to, if a valid leaf is reached.
pub open spec fn walk_from(m: Seq<u8>, table: u64, va: usize, level: int) -> Option<int>
    decreases level,
{
    let e = entry(m, table, vpn_of(va, level));
    if !valid(e) {
        None
    } else if leafy(e) {
        Some(pte_target(e) + (va & page_mask(level)))
    } else if level <= 0 {
        None
    } else {
        walk_from(m, pte_target(e), va, level - 1)
    }
}

/// What `va` translates to in the address space rooted at `root`.
pub open spec fn translation(m: Seq<u8>, root: usize, va: usize) -> Option<usize> {
    match walk_from(m, root as u64, va, 2) {
        Some(a) => Some(a as usize),
        None => None,
    }
}

/// The (level, PTE) pairs a walk for `va` reads from `level` down, stopping
/// after an invalid entry or a leaf.
pub open spec fn walk_chain(m: Seq<u8>, table: u64, va: usize, level: int) -> Seq<(u8, u64)>
    decreases level,
{
    let e = entry(m, table, vpn_of(va, level));
    if !valid(e) || leafy(e) || level <= 0 {
        seq![(level as u8, e)]
    } else {
        seq![(level as u8, e)] + walk_chain(m, pte_target(e), va, level - 1)
    }
}

/// The PTE target, as a physical address.
fn target(e: u64) -> (r: u64)
    ensures
        r == pte_target(e),
        r < 0x100_0000_0000_0000,
        r % 4096 == 0,
{
    proof { lemma_pte_target(e); }
    ((e >> 10u64) & 0xfff_ffff_ffffu64) << 12u64
}

/// Entry `idx` of the table at `table`.
fn read_entry(mem: &PhysMem, table: u64, idx: usize) -> (r: u64)
    requires
        mem.wf(),
        idx < 512,
    ensures
        r == entry(mem@, table, idx as int),
{
    if table > POOL_END as u64 {
        return 0;
    }
    read_pte(mem, (table as usize) + idx * 8)
}

/// Write entry `idx` of the table at `table` (refused, like any write
/// outside the pool, when the slot is not an aligned pool address).
#[verifier::spinoff_prover]
fn write_slot(mem: &mut PhysMem, table: u64, idx: usize, val: u64)
    requires
        old(mem).wf(),
        idx < 512,
    ensures
        final(mem).wf(),
        table % 4096 == 0 && in_pool(table as int, 4096) ==> agree_except(old(mem)@, final(mem)@, table + 8 * idx, 8)
            && entry(final(mem)@, table, idx as int) == val,
        (table + 8 * idx) % 8 == 0 && in_pool(table + 8 * idx, 8) ==> entry(final(mem)@, table, idx as int) == val,
        !((table + 8 * idx) % 8 == 0 && in_pool(table + 8 * idx, 8)) ==> final(mem)@ == old(mem)@,
{
    if table > POOL_END as u64 {
        return;
    }
    let slot = (table as usize) + idx * 8;
    write_pte(mem, slot, val);
    proof {
        if slot % 8 == 0 && in_pool(slot as int, 8) {
            lemma_write_effect(old(mem)@, mem@, slot as int, val);
        }
    }
}

/// `va & mask` stays within the mask.
proof fn lemma_and_mask(va: usize, mask: usize)
    ensures
        va & mask <= mask,
{
    assert(va & mask <= mask) by (bit_vector);
}

/// Up to three (level, pte) pairs from a page-table walk.
#[derive(Clone, Copy)]
pub struct WalkChain {
    levels: [u8; 3],
    ptes: [u64; 3],
    len: usize,
}

impl WalkChain {
    /// The recorded pairs, outermost first.
    pub closed spec fn pairs(&self) -> Seq<(u8, u64)> {
        Seq::new(self.len as nat, |i: int| (self.levels@[i], self.ptes@[i]))
    }

    pub closed spec fn wf(&self) -> bool {
        self.len <= 3
    }

    pub fn new() -> (c: WalkChain)
        ensures
            c.wf(),
            c.pairs() == Seq::<(u8, u64)>::empty(),
    {
        let c = WalkChain { levels: [0; 3], ptes: [0; 3], len: 0 };
        assert(c.pairs() =~= Seq::<(u8, u64)>::empty());
        c
    }

    /// Record one more pair (ignored once three are held).
    pub fn push(&mut self, level: u8, pte: u64)
        requires
            old(self).wf(),
        ensures
            final(self).wf(),
            final(self).pairs() == (if old(self).pairs().len() < 3 { old(self).pairs().push((level, pte)) } else { old(self).pairs() }),
    {
        if self.len < 3 {
            self.levels[self.len] = level;
            self.ptes[self.len] = pte;
            self.len += 1;
            assert(self.pairs() =~= old(self).pairs().push((level, pte)));
        }
    }

    /// The recorded pairs.
    pub fn entries(&self) -> (r: Vec<(u8, u64)>)
        requires
            self.wf(),
        ensures
            r@ == self.pairs(),
    {
        let mut v: Vec<(u8, u64)> = Vec::new();
        let mut i: usize = 0;
        while i < self.len
            invariant
                self.wf(),
                i <= self.len,
                v@ == self.pairs().take(i as int),
            decreases self.len - i,
        {
            v.push((self.levels[i], self.ptes[i]));
            i += 1;
            assert(v@ =~= self.pairs().take(i as int));
        }
        assert(self.pairs().take(self.len as int) =~= self.pairs());
        v
    }
}

impl AddressSpace {
    /// The root table frame.
    pub closed spec fn root_pa(&self) -> usize {
        self.root
    }

    /// Allocate an empty address space (a zeroed root table).
    pub fn new(fa: &mut FrameAllocator, mem: &mut PhysMem) -> (r: Option<AddressSpace>)
        requires
            old(fa).wf(),
            old(mem).wf(),
        ensures
            final(fa).wf(),
            final(mem).wf(),
            r is Some <==> exists|f: int| 0 <= f < POOL_FRAMES && !old(fa).frames().contains(f),
            alloc_post(*old(fa), *final(fa), old(mem)@, final(mem)@, match r { Some(s) => Some(s.root_pa()), None => None }),
            r matches Some(s) ==> space_wf(final(mem)@, *final(fa), s.root_pa() as int)
                && forall|va: usize| translation(final(mem)@, s.root_pa(), va) is None,
            r matches Some(s) ==> forall|j: int| 0 <= j < 512 ==> #[trigger] entry(final(mem)@, s.root_pa() as u64, j) == 0,
    {
        match alloc_frame(fa, mem) {
            Some(root) => {
                let s = AddressSpace { root };
                proof {
                    lemma_zero_effect(old(mem)@, mem@, root as int);
                    lemma_zero_invalid();
                    assert forall|va: usize| translation(mem@, s.root, va) is None by {
                        assert(entry(mem@, root as u64, vpn_of(va, 2)) == 0) by {
                            if vpn_of(va, 2) >= 512 || vpn_of(va, 2) < 0 {
                                assert(vpn_of(va, 2) < 512) by {
                                    assert((va >> 30usize) & 0x1ff < 512) by (bit_vector);
                                }
                            }
                        }
                    }
                }
                Some(s)
            },
            None => {
                proof {
                    assert forall|f: int| 0 <= f < POOL_FRAMES implies old(fa).frames().contains(f) by {}
                }
                None
            },
        }
    }

    /// Reconstruct a handle to an existing address space from its root frame.
    pub fn from_root(root: usize) -> (s: AddressSpace)
        ensures
            s.root_pa() == root,
    {
        AddressSpace { root }
    }

    pub fn root(&self) -> (r: usize)
        ensures
            r == self.root_pa(),
    {
        self.root
    }

    /// satp value that activates this address space (MODE=8 Sv39, ASID=0).
    pub fn satp(&self) -> (r: u64)
        ensures
            r == (8u64 << 60u64) | ((self.root_pa() as u64) >> 12u64),
    {
        (8u64 << 60u64) | ((self.root as u64) >> 12u64)
    }

    /// Translate a VA to a physical address, if mapped.
    pub fn translate(&self, mem: &PhysMem, va: usize) -> (r: Option<usize>)
        requires
            mem.wf(),
        ensures
            r == translation(mem@, self.root_pa(), va),
    {
        let mut table: u64 = self.root as u64;
        let mut level: usize = 2;
        loop
            invariant
                mem.wf(),
                level <= 2,
                translation(mem@, self.root, va) == (match walk_from(mem@, table, va, level as int) {
                    Some(a) => Some(a as usize),
                    None => None,
                }),
            decreases level,
        {
            let e = read_entry(mem, table, vpn(va, level));
            if e & V == 0 {
                return None;
            }
            if e & PERM_MASK != 0 {
                let mask: usize = if level == 0 { 0xfff } else if level == 1 { 0x1f_ffff } else { 0x3fff_ffff };
                let t = target(e);
                proof { lemma_and_mask(va, mask); }
                return Some((t + ((va & mask) as u64)) as usize);
            }
            if level == 0 {
                return None;
            }
            table = target(e);
            level -= 1;
        }
    }

    /// Whether `va` is mapped by a leaf U-mode may access.
    pub fn user_mapped(&self, mem: &PhysMem, va: usize) -> (r: bool)
        requires
            mem.wf(),
        ensures
            r == walk_user(mem@, self.root_pa() as u64, va, 2),
    {
        let mut table: u64 = self.root as u64;
        let mut level: usize = 2;
        loop
            invariant
                mem.wf(),
                level <= 2,
                walk_user(mem@, self.root as u64, va, 2) == walk_user(mem@, table, va, level as int),
            decreases level,
        {
            let e = read_entry(mem, table, vpn(va, level));
            if e & V == 0 {
                return false;
            }
            if e & PERM_MASK != 0 {
                return e & U != 0;
            }
            if level == 0 {
                return false;
            }
            table = target(e);
            level -= 1;
        }
    }

    /// Walk the table for `va`, returning each level's PTE until the leaf or
    /// the first invalid entry.
    pub fn walk(&self, mem: &PhysMem, va: usize) -> (c: WalkChain)
        requires
            mem.wf(),
        ensures
            c.wf(),
            c.pairs() == walk_chain(mem@, self.root_pa() as u64, va, 2),
    {
        let mut chain = WalkChain::new();
        let mut table: u64 = self.root as u64;
        let mut level: usize = 2;
        loop
            invariant
                mem.wf(),
                level <= 2,
                chain.wf(),
                chain.pairs().len() == 2 - level,
                chain.pairs() + walk_chain(mem@, table, va, level as int) == walk_chain(mem@, self.root as u64, va, 2),
            decreases level,
        {
            let pte = read_entry(mem, table, vpn(va, level));
            let ghost before = chain.pairs();
            chain.push(level as u8, pte);
            if pte & V == 0 || pte & PERM_MASK != 0 || level == 0 {
                assert(chain.pairs() =~= walk_chain(mem@, self.root as u64, va, 2));
                return chain;
            }
            proof {
                assert(before + walk_chain(mem@, table, va, level as int)
                    =~= chain.pairs() + walk_chain(mem@, pte_target(pte), va, level - 1));
            }
            table = target(pte);
            level -= 1;
        }
    }
}

// ---- Keeping address spaces well formed ----------------------------------

/// Entries outside a changed range read the same in every table of a
/// well-formed space, provided the range lies in a frame that holds none
/// of its tables.
pub proof fn lemma_wf_fresh_change(m: Seq<u8>, m2: Seq<u8>, fa: FrameAllocator, fa2: FrameAllocator, root: int, f: int)
    requires
        m.len() == POOL_SIZE,
        space_wf(m, fa, root),
        fa.frames().subset_of(fa2.frames()),
        f % 4096 == 0,
        !fa.frames().contains(frame_of(f)),
        agree_except(m, m2, f, 4096),
    ensures
        space_wf(m2, fa2, root),
        forall|t: int, j: int| table_ok(fa, t) && 0 <= j < 512 ==> #[trigger] entry(m2, t as u64, j) == entry(m, t as u64, j),
{
    assert forall|t: int, j: int| table_ok(fa, t) && 0 <= j < 512 implies #[trigger] entry(m2, t as u64, j) == entry(m, t as u64, j) by {
        assert(t != f);
        lemma_tables_disjoint(t, f, j, 0);
        lemma_rd_unchanged(m, m2, f, 4096, t + 8 * j);
    }
    lemma_wf_same_entries(m, m2, fa, fa2, root);
}

/// A space whose table entries all read the same stays well formed as the
/// allocator grows.
pub proof fn lemma_wf_same_entries(m: Seq<u8>, m2: Seq<u8>, fa: FrameAllocator, fa2: FrameAllocator, root: int)
    requires
        space_wf(m, fa, root),
        fa.frames().subset_of(fa2.frames()),
        forall|t: int, j: int| table_ok(fa, t) && 0 <= j < 512 ==> #[trigger] entry(m2, t as u64, j) == entry(m, t as u64, j),
    ensures
        space_wf(m2, fa2, root),
{
    assert forall|i: int| 0 <= i < 512 && points_down(#[trigger] entry(m2, root as u64, i)) implies
        l1_ok(m2, fa2, root, pte_target(entry(m2, root as u64, i)) as int) by {
        assert(entry(m2, root as u64, i) == entry(m, root as u64, i));
        let t1 = pte_target(entry(m, root as u64, i)) as int;
        assert(l1_ok(m, fa, root, t1));
        assert forall|j: int| 0 <= j < 512 && points_down(#[trigger] entry(m2, t1 as u64, j)) implies {
            let t0 = pte_target(entry(m2, t1 as u64, j)) as int;
            &&& table_ok(fa2, t0)
            &&& t0 != root
            &&& t0 != t1
        } by {
            assert(entry(m2, t1 as u64, j) == entry(m, t1 as u64, j));
        }
    }
}

/// Changing one entry of a table of the space keeps the other entries of
/// every table: those of other frames, and the other slots of that frame.
pub proof fn lemma_entry_kept(m1: Seq<u8>, m2: Seq<u8>, t: int, k: int, u: int, j: int)
    requires
        m1.len() == POOL_SIZE,
        agree_except(m1, m2, t + 8 * k, 8),
        t % 4096 == 0,
        u % 4096 == 0,
        0 <= k < 512,
        0 <= j < 512,
        u != t || j != k,
        0 <= u <= u64::MAX,
    ensures
        entry(m2, u as u64, j) == entry(m1, u as u64, j),
{
    if u != t {
        lemma_tables_disjoint(u, t, j, k);
    }
    lemma_rd_unchanged(m1, m2, t + 8 * k, 8, u + 8 * j);
}

/// Every address that translates in `m0` translates the same way in `m1`.
pub open spec fn mappings_kept(m0: Seq<u8>, m1: Seq<u8>, root: usize) -> bool {
    forall|va: usize| #[trigger] translation(m0, root, va) is Some ==> translation(m1, root, va) == translation(m0, root, va)
}

/// A walk that completes in `m1` never read the entry at `t + 8 * k` if
/// that entry was invalid, so writing there leaves the walk as it was.
proof fn lemma_invalid_write_walk(m1: Seq<u8>, m2: Seq<u8>, t: int, k: int, u: int, va: usize, level: int)
    requires
        m1.len() == POOL_SIZE,
        agree_except(m1, m2, t + 8 * k, 8),
        t % 4096 == 0,
        0 <= k < 512,
        !valid(entry(m1, t as u64, k)),
        u % 4096 == 0,
        0 <= u <= u64::MAX,
        0 <= level <= 2,
        walk_from(m1, u as u64, va, level) is Some,
    ensures
        walk_from(m2, u as u64, va, level) == walk_from(m1, u as u64, va, level),
    decreases level,
{
    let i = vpn_of(va, level);
    assert(0 <= i < 512) by {
        assert((va >> 30usize) & 0x1ff < 512 && (va >> 21usize) & 0x1ff < 512 && (va >> 12usize) & 0x1ff < 512) by (bit_vector);
    }
    if u == t && i == k {
        assert(walk_from(m1, u as u64, va, level) is None);
    } else {
        lemma_entry_kept(m1, m2, t, k, u, i);
        let e = entry(m1, u as u64, i);
        if valid(e) && !leafy(e) && level > 0 {
            lemma_pte_target(e);
            lemma_invalid_write_walk(m1, m2, t, k, pte_target(e) as int, va, level - 1);
        }
    }
}

/// Filling an invalid entry of an aligned table keeps every existing
/// mapping of a root-aligned space.
pub proof fn lemma_invalid_write_keeps(m1: Seq<u8>, m2: Seq<u8>, root: usize, t: int, k: int)
    requires
        m1.len() == POOL_SIZE,
        agree_except(m1, m2, t + 8 * k, 8),
        t % 4096 == 0,
        0 <= k < 512,
        !valid(entry(m1, t as u64, k)),
        root % 4096 == 0,
    ensures
        mappings_kept(m1, m2, root),
{
    assert forall|va: usize| #[trigger] translation(m1, root, va) is Some implies translation(m2, root, va) == translation(m1, root, va) by {
        lemma_invalid_write_walk(m1, m2, t, k, root as int, va, 2);
    }
}

/// Keeping mappings is transitive.
pub proof fn lemma_mappings_kept_trans(m0: Seq<u8>, m1: Seq<u8>, m2: Seq<u8>, root: usize)
    requires
        mappings_kept(m0, m1, root),
        mappings_kept(m1, m2, root),
    ensures
        mappings_kept(m0, m2, root),
{
    assert forall|va: usize| #[trigger] translation(m0, root, va) is Some implies translation(m2, root, va) == translation(m0, root, va) by {
        assert(translation(m1, root, va) == translation(m0, root, va));
    }
}

/// Zeroing a frame outside the allocated ones keeps a well-formed space's
/// mappings.
pub proof fn lemma_fresh_zero_keeps(m1: Seq<u8>, m2: Seq<u8>, fa: FrameAllocator, root: usize)
    requires
        m1.len() == POOL_SIZE,
        keeps_frames(m1, m2, fa.frames()),
        space_wf(m1, fa, root as int),
    ensures
        mappings_kept(m1, m2, root),
{
    assert forall|va: usize| #[trigger] translation(m1, root, va) is Some implies translation(m2, root, va) == translation(m1, root, va) by {
        lemma_keeps_translation(m1, m2, fa, root, va);
    }
}

/// Pointing an invalid root slot at a fresh, empty table keeps the space
/// well formed.
pub proof fn lemma_wf_root_write(m1: Seq<u8>, m2: Seq<u8>, fa: FrameAllocator, root: int, k: int, n: int, val: u64)
    requires
        m1.len() == POOL_SIZE,
        space_wf(m1, fa, root),
        0 <= k < 512,
        !points_down(entry(m1, root as u64, k)),
        points_down(val) ==> table_ok(fa, n) && n != root,
        points_down(val) ==> forall|j: int| 0 <= j < 512 ==> #[trigger] entry(m1, n as u64, j) == 0,
        agree_except(m1, m2, root + 8 * k, 8),
        entry(m2, root as u64, k) == val,
        points_down(val) ==> pte_target(val) == n,
    ensures
        space_wf(m2, fa, root),
{
    lemma_zero_invalid();
    assert forall|i: int| 0 <= i < 512 && points_down(#[trigger] entry(m2, root as u64, i)) implies
        l1_ok(m2, fa, root, pte_target(entry(m2, root as u64, i)) as int) by {
        if i != k {
            lemma_entry_kept(m1, m2, root, k, root, i);
            let t1 = pte_target(entry(m1, root as u64, i)) as int;
            assert(l1_ok(m1, fa, root, t1));
            assert forall|j: int| 0 <= j < 512 && points_down(#[trigger] entry(m2, t1 as u64, j)) implies {
                let t0 = pte_target(entry(m2, t1 as u64, j)) as int;
                &&& table_ok(fa, t0)
                &&& t0 != root
                &&& t0 != t1
            } by {
                lemma_entry_kept(m1, m2, root, k, t1, j);
            }
        } else {
            assert forall|j: int| 0 <= j < 512 && points_down(#[trigger] entry(m2, n as u64, j)) implies {
                let t0 = pte_target(entry(m2, n as u64, j)) as int;
                &&& table_ok(fa, t0)
                &&& t0 != root
                &&& t0 != n
            } by {
                lemma_entry_kept(m1, m2, root, k, n, j);
            }
        }
    }
}

/// Pointing an invalid slot of a second-level table at a fresh, empty
/// table keeps the space well formed.
pub proof fn lemma_wf_l1_write(m1: Seq<u8>, m2: Seq<u8>, fa: FrameAllocator, root: int, t1: int, k: int, n: int, val: u64)
    requires
        m1.len() == POOL_SIZE,
        space_wf(m1, fa, root),
        l1_ok(m1, fa, root, t1),
        0 <= k < 512,
        table_ok(fa, n),
        n != root,
        n != t1,
        agree_except(m1, m2, t1 + 8 * k, 8),
        entry(m2, t1 as u64, k) == val,
        points_down(val) ==> pte_target(val) == n,
    ensures
        space_wf(m2, fa, root),
{
    assert forall|i: int| 0 <= i < 512 && points_down(#[trigger] entry(m2, root as u64, i)) implies
        l1_ok(m2, fa, root, pte_target(entry(m2, root as u64, i)) as int) by {
        lemma_entry_kept(m1, m2, t1, k, root, i);
        let u = pte_target(entry(m1, root as u64, i)) as int;
        assert(l1_ok(m1, fa, root, u));
        assert forall|j: int| 0 <= j < 512 && points_down(#[trigger] entry(m2, u as u64, j)) implies {
            let t0 = pte_target(entry(m2, u as u64, j)) as int;
            &&& table_ok(fa, t0)
            &&& t0 != root
            &&& t0 != u
        } by {
            if u != t1 || j != k {
                lemma_entry_kept(m1, m2, t1, k, u, j);
            }
        }
    }
}

/// Writing a non-table entry into a last-level table (not the root) keeps
/// the space well formed.
pub proof fn lemma_wf_leaf_write(m1: Seq<u8>, m2: Seq<u8>, fa: FrameAllocator, root: int, t0: int, k: int, val: u64)
    requires
        m1.len() == POOL_SIZE,
        space_wf(m1, fa, root),
        t0 % 4096 == 0,
        t0 != root,
        0 <= k < 512,
        agree_except(m1, m2, t0 + 8 * k, 8),
        entry(m2, t0 as u64, k) == val,
        !points_down(val),
    ensures
        space_wf(m2, fa, root),
{
    assert forall|i: int| 0 <= i < 512 && points_down(#[trigger] entry(m2, root as u64, i)) implies
        l1_ok(m2, fa, root, pte_target(entry(m2, root as u64, i)) as int) by {
        lemma_entry_kept(m1, m2, t0, k, root, i);
        let u = pte_target(entry(m1, root as u64, i)) as int;
        assert(l1_ok(m1, fa, root, u));
        assert forall|j: int| 0 <= j < 512 && points_down(#[trigger] entry(m2, u as u64, j)) implies {
            let t = pte_target(entry(m2, u as u64, j)) as int;
            &&& table_ok(fa, t)
            &&& t != root
            &&& t != u
        } by {
            if u != t0 || j != k {
                lemma_entry_kept(m1, m2, t0, k, u, j);
            }
        }
    }
}

/// A walk down two table entries to a leaf translates into the leaf's page.
pub proof fn lemma_walk_path(m: Seq<u8>, root: usize, va: usize, t1: u64, t0: u64, pa: usize, perms: u64)
    requires
        points_down(entry(m, root as u64, vpn_of(va, 2))),
        pte_target(entry(m, root as u64, vpn_of(va, 2))) == t1,
        points_down(entry(m, t1, vpn_of(va, 1))),
        pte_target(entry(m, t1, vpn_of(va, 1))) == t0,
        entry(m, t0, vpn_of(va, 0)) == leaf_pte(pa, perms),
        pa % 4096 == 0,
        pa < 0x100_0000_0000_0000,
        perms < 256,
        perms & PERM_MASK != 0,
    ensures
        translation(m, root, va) == Some((pa + (va & 0xfff)) as usize),
        walk_chain(m, root as u64, va, 2).len() == 3,
        walk_chain(m, root as u64, va, 2)[2] == (0u8, leaf_pte(pa, perms)),
{
    lemma_pte_build(pa as u64, perms);
    let e0 = entry(m, t0, vpn_of(va, 0));
    assert(valid(e0) && leafy(e0));
    assert(walk_from(m, t0, va, 0) == Some(pa + (va & 0xfff)));
    assert(walk_from(m, t1, va, 1) == walk_from(m, t0, va, 0));
    assert(walk_from(m, root as u64, va, 2) == walk_from(m, t1, va, 1));
    assert(walk_chain(m, t0, va, 0) == seq![(0u8, e0)]);
    assert(walk_chain(m, t1, va, 1) == seq![(1u8, entry(m, t1, vpn_of(va, 1)))] + walk_chain(m, t0, va, 0));
    assert(walk_chain(m, root as u64, va, 2) == seq![(2u8, entry(m, root as u64, vpn_of(va, 2)))] + walk_chain(m, t1, va, 1));
}

/// Which tables `map_page` must create for `va`: 2, 1 or 0.
pub open spec fn tables_needed(m: Seq<u8>, root: usize, va: usize) -> int {
    let e2 = entry(m, root as u64, vpn_of(va, 2));
    if !valid(e2) { 2 } else if !valid(entry(m, pte_target(e2), vpn_of(va, 1))) { 1 } else { 0 }
}

/// Whether an existing mapping covers `va`'s page: a superpage leaf on its
/// walk, or a valid entry in its last-level slot.
pub open spec fn map_conflict(m: Seq<u8>, root: usize, va: usize) -> bool {
    let e2 = entry(m, root as u64, vpn_of(va, 2));
    let t1 = pte_target(e2);
    let e1 = entry(m, t1, vpn_of(va, 1));
    let t0 = pte_target(e1);
    ||| valid(e2) && leafy(e2)
    ||| points_down(e2) && valid(e1) && leafy(e1)
    ||| points_down(e2) && points_down(e1) && valid(entry(m, t0, vpn_of(va, 0)))
}

/// The result `map_page` owes on a well-formed space.
pub open spec fn map_outcome(m: Seq<u8>, fa: FrameAllocator, root: usize, va: usize) -> Result<(), MmError> {
    if map_conflict(m, root, va) {
        Err(MmError::Overlap)
    } else if tables_needed(m, root, va) > POOL_FRAMES - fa.count() {
        Err(MmError::NoFrame)
    } else {
        Ok(())
    }
}

/// `a` and `b` lie in the same 4 KiB page.
pub open spec fn same_page(a: usize, b: usize) -> bool {
    a >> 12usize == b >> 12usize
}

pub proof fn lemma_same_page_vpns(a: usize, b: usize)
    requires
        same_page(a, b),
    ensures
        vpn_of(a, 0) == vpn_of(b, 0),
        vpn_of(a, 1) == vpn_of(b, 1),
        vpn_of(a, 2) == vpn_of(b, 2),
        0 <= vpn_of(a, 0) < 512,
        0 <= vpn_of(a, 1) < 512,
        0 <= vpn_of(a, 2) < 512,
{
    assert(((a >> 12usize) & 0x1ff == (b >> 12usize) & 0x1ff)
        && ((a >> 21usize) & 0x1ff == (b >> 21usize) & 0x1ff)
        && ((a >> 30usize) & 0x1ff == (b >> 30usize) & 0x1ff)
        && ((a >> 12usize) & 0x1ff < 512) && ((a >> 21usize) & 0x1ff < 512) && ((a >> 30usize) & 0x1ff < 512))
        by (bit_vector)
        requires a >> 12usize == b >> 12usize;
}


impl AddressSpace {
    /// Map one 4 KiB page `va -> pa` with `perms` (R/W/X/U bits; V, A and D
    /// are added), creating the intermediate tables it needs.
    /// Map a 1 GiB gigapage (a root-level leaf).
    pub fn map_gigapage(&self, fa: &FrameAllocator, mem: &mut PhysMem, va: usize, pa: usize, perms: u64) -> (r: Result<(), MmError>)
        requires
            old(mem).wf(),
        ensures
            final(mem).wf(),
            (va % 0x4000_0000 != 0 || pa % 0x4000_0000 != 0) ==> r == Err::<(), MmError>(MmError::Unaligned) && final(mem)@ == old(mem)@,
            (va % 0x4000_0000 == 0 && pa % 0x4000_0000 == 0 && valid(entry(old(mem)@, self.root_pa() as u64, vpn_of(va, 2))))
                ==> r == Err::<(), MmError>(MmError::Overlap) && final(mem)@ == old(mem)@,
            (va % 0x4000_0000 == 0 && pa % 0x4000_0000 == 0 && !valid(entry(old(mem)@, self.root_pa() as u64, vpn_of(va, 2))))
                ==> r is Ok,
            r is Ok && table_ok(*fa, self.root_pa() as int) ==>
                agree_except(old(mem)@, final(mem)@, self.root_pa() + 8 * vpn_of(va, 2), 8)
                && entry(final(mem)@, self.root_pa() as u64, vpn_of(va, 2)) == leaf_pte(pa, perms),
            r is Ok && space_wf(old(mem)@, *fa, self.root_pa() as int) && perms & PERM_MASK != 0 ==>
                space_wf(final(mem)@, *fa, self.root_pa() as int),
            r is Ok && self.root_pa() % 4096 == 0 && in_pool(self.root_pa() as int, 4096) && perms & PERM_MASK != 0
                && perms < 256 && pa < 0x100_0000_0000_0000 ==> forall|va2: usize| va2 >> 30usize == va >> 30usize ==>
                    #[trigger] translation(final(mem)@, self.root_pa(), va2) == Some((pa + (va2 & 0x3fff_ffff)) as usize),
    {
        if va % 0x4000_0000 != 0 || pa % 0x4000_0000 != 0 {
            return Err(MmError::Unaligned);
        }
        let root64 = self.root as u64;
        let i2 = vpn(va, 2);
        if read_entry(mem, root64, i2) & V != 0 {
            return Err(MmError::Overlap);
        }
        let ghost m0 = mem@;
        let lf = leaf(pa, perms);
        write_slot(mem, root64, i2, lf);
        proof {
            if space_wf(m0, *fa, self.root as int) && perms & PERM_MASK != 0 {
                assert(leafy(lf)) by {
                    assert(perms & 14u64 != 0 ==> (((((pa as u64) >> 12u64) << 10u64) | perms | 1u64 | 64u64 | 128u64) & 14u64 != 0)) by (bit_vector);
                }
                lemma_wf_root_write(m0, mem@, *fa, self.root as int, i2 as int, 0, lf);
            }
            if self.root % 4096 == 0 && in_pool(self.root as int, 4096) && perms & PERM_MASK != 0 {
                assert(leafy(lf)) by {
                    assert(perms & 14u64 != 0 ==> (((((pa as u64) >> 12u64) << 10u64) | perms | 1u64 | 64u64 | 128u64) & 14u64 != 0)) by (bit_vector);
                }
                if perms < 256 && pa < 0x100_0000_0000_0000 {
                    assert(pa % 4096 == 0);
                    lemma_pte_build(pa as u64, perms);
                    assert forall|va2: usize| va2 >> 30usize == va >> 30usize implies
                        #[trigger] translation(mem@, self.root, va2) == Some((pa + (va2 & 0x3fff_ffff)) as usize) by {
                        assert((va2 >> 30usize) & 0x1ff == (va >> 30usize) & 0x1ff) by (bit_vector)
                            requires va2 >> 30usize == va >> 30usize;
                        let e = entry(mem@, root64, vpn_of(va2, 2));
                        assert(valid(e) && leafy(e));
                    }
                }
            }
        }
        Ok(())
    }

    #[verifier::rlimit(80)]
    #[verifier::spinoff_prover]
    pub fn map_page(&self, fa: &mut FrameAllocator, mem: &mut PhysMem, va: usize, pa: usize, perms: u64) -> (r: Result<(), MmError>)
        requires
            old(fa).wf(),
            old(mem).wf(),
        ensures
            final(fa).wf(),
            final(mem).wf(),
            old(fa).frames().subset_of(final(fa).frames()),
            r == Err::<(), MmError>(MmError::NoFrame) ==> translation(final(mem)@, self.root_pa(), va) is None,
            r == Err::<(), MmError>(MmError::NoFrame) ==> final(fa).count() == POOL_FRAMES,
            space_wf(old(mem)@, *old(fa), self.root_pa() as int) ==> {
                &&& r == map_outcome(old(mem)@, *old(fa), self.root_pa(), va)
                &&& (r is Err || perms & PERM_MASK != 0) ==> space_wf(final(mem)@, *final(fa), self.root_pa() as int)
                &&& r == Err::<(), MmError>(MmError::Overlap) ==> final(mem)@ == old(mem)@ && *final(fa) == *old(fa)
                &&& mappings_kept(old(mem)@, final(mem)@, self.root_pa())
                &&& (r == Err::<(), MmError>(MmError::NoFrame) && final(fa).count() > old(fa).count()) ==>
                    points_down(entry(final(mem)@, self.root_pa() as u64, vpn_of(va, 2)))
                &&& r is Ok ==> final(fa).count() == old(fa).count() + tables_needed(old(mem)@, self.root_pa(), va)
                &&& (r is Ok && pa % 4096 == 0 && pa < 0x100_0000_0000_0000 && perms < 256 && perms & PERM_MASK != 0) ==>
                    (forall|va2: usize| same_page(va, va2) ==>
                        #[trigger] translation(final(mem)@, self.root_pa(), va2) == Some((pa + (va2 & 0xfff)) as usize))
                    && walk_chain(final(mem)@, self.root_pa() as u64, va, 2).len() == 3
                    && walk_chain(final(mem)@, self.root_pa() as u64, va, 2)[2] == (0u8, leaf_pte(pa, perms))
                    && root_pas(final(mem)@, self.root_pa(), 512)
                        == root_pas(old(mem)@, self.root_pa(), 512).union(fresh_pas(*old(fa), *final(fa))).insert(pa as int)
            },
    {
        let ghost m0 = mem@;
        let ghost fa0 = *fa;
        let ghost root = self.root as int;
        let root64 = self.root as u64;
        let i2 = vpn(va, 2);
        let i1 = vpn(va, 1);
        let i0 = vpn(va, 0);
        proof {
            lemma_full_iff(*fa);
            lemma_same_page_vpns(va, va);
        }
        let e2 = read_entry(mem, root64, i2);
        let t1: u64;
        if e2 & V == 0 {
            let next = match alloc_frame(fa, mem) {
                Some(n) => n,
                None => {
                    proof {
                        lemma_full_iff(*fa);
                        assert(!valid(entry(mem@, root64, vpn_of(va, 2))));
                    }
                    return Err(MmError::NoFrame);
                },
            };
            let ghost m1 = mem@;
            proof {
                lemma_zero_effect(m0, m1, next as int);
                if space_wf(m0, fa0, root) {
                    lemma_alloc_keeps(fa0, *fa, m0, m1, next);
                    lemma_fresh_zero_keeps(m0, m1, fa0, self.root);
                    lemma_wf_fresh_change(m0, m1, fa0, *fa, root, next as int);
                    crate::owned::lemma_keeps_root_pas(m0, m1, fa0, self.root);
                    lemma_fresh_pas_none(fa0);
                    lemma_fresh_pas_step(fa0, fa0, *fa, frame_of(next as int));
                }
            }
            write_slot(mem, root64, i2, nonleaf(next));
            proof {
                lemma_pte_build(next as u64, 0);
                if space_wf(m0, fa0, root) {
                    lemma_wf_root_write(m1, mem@, *fa, root, i2 as int, next as int, nonleaf_pte(next));
                    assert(entry(m1, root64, i2 as int) == e2);
                    lemma_invalid_write_keeps(m1, mem@, self.root, root, i2 as int);
                    lemma_mappings_kept_trans(m0, m1, mem@, self.root);
                }
                if space_wf(m0, fa0, root) {
                    assert forall|j: int| 0 <= j < 512 implies #[trigger] entry(mem@, next as u64, j) == 0 by {
                        lemma_entry_kept(m1, mem@, root, i2 as int, next as int, j);
                    }
                    assert(next != self.root);
                    crate::owned::lemma_root_link_pas(m1, mem@, *fa, self.root, i2 as int, next);
                }
            }
            t1 = next as u64;
        } else if e2 & PERM_MASK != 0 {
            return Err(MmError::Overlap);
        } else {
            t1 = target(e2);
        }
        let ghost mb = mem@;
        let ghost fab = *fa;
        let ghost fresh1 = e2 & V == 0;
        proof {
            lemma_zero_invalid();
            if !fresh1 {
                assert(mb == m0);
                assert(fab == fa0);
            }
            if space_wf(m0, fa0, root) {
                assert(mappings_kept(m0, mb, self.root));
                if !fresh1 {
                    lemma_fresh_pas_none(fa0);
                }
                assert(root_pas(mb, self.root, 512) =~= root_pas(m0, self.root, 512).union(fresh_pas(fa0, fab)));
            }
            if fresh1 && space_wf(m0, fa0, root) {
                assert(entry(mb, t1, i1 as int) == 0);
                assert(tables_needed(m0, self.root, va) == 2);
                assert(!map_conflict(m0, self.root, va));
                assert(fab.count() == fa0.count() + 1);
            }
            lemma_pte_target(e2);
            if space_wf(m0, fa0, root) {
                assert(points_down(entry(mb, root64, i2 as int)));
                assert(pte_target(entry(mb, root64, i2 as int)) == t1);
                assert(l1_ok(mb, fab, root, t1 as int));
            }
        }
        let e1 = read_entry(mem, t1, i1);
        let t0: u64;
        if e1 & V == 0 {
            let next = match alloc_frame(fa, mem) {
                Some(n) => n,
                None => {
                    proof {
                        lemma_full_iff(*fa);
                        lemma_zero_invalid();
                        let w = root + 8 * vpn_of(va, 2);
                        if fresh1 && !(w % 8 == 0 && in_pool(w, 8)) {
                            assert(!valid(entry(mem@, root64, vpn_of(va, 2))));
                        } else {
                            if fresh1 {
                                lemma_pte_build(t1, 0);
                            }
                            assert(points_down(entry(mem@, root64, vpn_of(va, 2))));
                            assert(pte_target(entry(mem@, root64, vpn_of(va, 2))) == t1);
                            assert(!valid(entry(mem@, t1, vpn_of(va, 1))));
                            assert(walk_from(mem@, t1, va, 1) is None);
                        }
                        assert(walk_from(mem@, root64, va, 2) is None);
                    }
                    return Err(MmError::NoFrame);
                },
            };
            let ghost m1 = mem@;
            proof {
                lemma_zero_effect(mb, m1, next as int);
                if space_wf(m0, fa0, root) {
                    lemma_alloc_keeps(fab, *fa, mb, m1, next);
                    lemma_fresh_zero_keeps(mb, m1, fab, self.root);
                    lemma_mappings_kept_trans(m0, mb, m1, self.root);
                    lemma_wf_fresh_change(mb, m1, fab, *fa, root, next as int);
                    assert(l1_ok(m1, *fa, root, t1 as int));
                    assert(entry(m1, root64, i2 as int) == entry(mb, root64, i2 as int));
                    crate::owned::lemma_keeps_root_pas(mb, m1, fab, self.root);
                    lemma_fresh_pas_step(fa0, fab, *fa, frame_of(next as int));
                }
            }
            write_slot(mem, t1, i1, nonleaf(next));
            proof {
                lemma_pte_build(next as u64, 0);
                if space_wf(m0, fa0, root) {
                    lemma_wf_l1_write(m1, mem@, *fa, root, t1 as int, i1 as int, next as int, nonleaf_pte(next));
                    assert(entry(m1, t1, i1 as int) == e1);
                    lemma_invalid_write_keeps(m1, mem@, self.root, t1 as int, i1 as int);
                    lemma_mappings_kept_trans(m0, m1, mem@, self.root);
                    lemma_entry_kept(m1, mem@, t1 as int, i1 as int, root, i2 as int);
                    assert forall|j: int| 0 <= j < 512 implies #[trigger] entry(mem@, next as u64, j) == 0 by {
                        lemma_entry_kept(m1, mem@, t1 as int, i1 as int, next as int, j);
                    }
                    assert(next as u64 != t1);
                    crate::owned::lemma_l1_link_pas(m1, mem@, *fa, self.root, i2 as int, t1 as usize, i1 as int, next);
                }
            }
            t0 = next as u64;
        } else if e1 & PERM_MASK != 0 {
            proof {
                if space_wf(m0, fa0, root) {
                    assert(!fresh1);
                    assert(map_conflict(m0, self.root, va));
                }
            }
            return Err(MmError::Overlap);
        } else {
            t0 = target(e1);
        }
        let ghost mc = mem@;
        let ghost fac = *fa;
        proof {
            lemma_full_iff(fac);
            if space_wf(m0, fa0, root) {
                if fresh1 {
                    assert(e1 == 0);
                }
                assert(fac.count() == fa0.count() + tables_needed(m0, self.root, va));
            }
            lemma_pte_target(e1);
            lemma_zero_invalid();
            if space_wf(m0, fa0, root) {
                assert(points_down(entry(mc, root64, i2 as int)));
                assert(pte_target(entry(mc, root64, i2 as int)) == t1);
                assert(points_down(entry(mc, t1, i1 as int)));
                assert(pte_target(entry(mc, t1, i1 as int)) == t0);
                assert(table_ok(fac, t0 as int) && t0 != root && t0 != t1);
                assert(mappings_kept(m0, mc, self.root));
                assert(root_pas(mc, self.root, 512) =~= root_pas(m0, self.root, 512).union(fresh_pas(fa0, fac)));
            }
        }
        if read_entry(mem, t0, i0) & V != 0 {
            return Err(MmError::Overlap);
        }
        let lf = leaf(pa, perms);
        write_slot(mem, t0, i0, lf);
        proof {
            if space_wf(m0, fa0, root) {
                lemma_invalid_write_keeps(mc, mem@, self.root, t0 as int, i0 as int);
                lemma_mappings_kept_trans(m0, mc, mem@, self.root);
                lemma_entry_kept(mc, mem@, t0 as int, i0 as int, root, i2 as int);
                lemma_entry_kept(mc, mem@, t0 as int, i0 as int, t1 as int, i1 as int);
                if perms & PERM_MASK != 0 {
                    assert(leafy(lf)) by {
                        assert(perms & 14u64 != 0 ==> (((((pa as u64) >> 12u64) << 10u64) | perms | 1u64 | 64u64 | 128u64) & 14u64 != 0)) by (bit_vector);
                    }
                    lemma_wf_leaf_write(mc, mem@, fac, root, t0 as int, i0 as int, lf);
                }
                assert(!map_conflict(m0, self.root, va));
                assert(tables_needed(m0, self.root, va) <= POOL_FRAMES - fa0.count());
                if pa % 4096 == 0 && pa < 0x100_0000_0000_0000 && perms < 256 && perms & PERM_MASK != 0 {
                    assert forall|va2: usize| same_page(va, va2) implies
                        #[trigger] translation(mem@, self.root, va2) == Some((pa + (va2 & 0xfff)) as usize) by {
                        lemma_same_page_vpns(va, va2);
                        lemma_walk_path(mem@, self.root, va2, t1, t0, pa, perms);
                    }
                    lemma_walk_path(mem@, self.root, va, t1, t0, pa, perms);
                    lemma_pte_build(pa as u64, perms);
                    crate::owned::lemma_leaf_pas(mc, mem@, fac, self.root, i2 as int, t1 as usize, i1 as int, t0 as usize, i0 as int);
                    assert(root_pas(mem@, self.root, 512)
                        =~= root_pas(m0, self.root, 512).union(fresh_pas(fa0, fac)).insert(pa as int));
                }
            }
        }
        Ok(())
    }

}

/// A completed walk lands below 2^57: a 44-bit frame number plus an offset.
pub proof fn lemma_walk_bound(m: Seq<u8>, table: u64, va: usize, level: int)
    requires
        0 <= level <= 2,
    ensures
        walk_from(m, table, va, level) is Some ==> 0 <= walk_from(m, table, va, level).unwrap() < 0x200_0000_0000_0000,
    decreases level,
{
    let e = entry(m, table, vpn_of(va, level));
    if valid(e) && leafy(e) {
        assert(pte_target(e) < 0x100_0000_0000_0000) by (bit_vector)
            requires pte_target(e) == ((e >> 10u64) & 0xfff_ffff_ffffu64) << 12u64;
        assert(va & page_mask(level) <= 0x3fff_ffff) by {
            let k = page_mask(level);
            assert(k <= 0x3fff_ffff);
            assert(va & k <= k) by (bit_vector);
        }
    } else if valid(e) && level > 0 {
        lemma_walk_bound(m, pte_target(e), va, level - 1);
    }
}

/// Within one 4 KiB page, translation moves with the address.
#[verifier::spinoff_prover]
#[verifier::rlimit(40)]
pub proof fn lemma_translation_in_page(m: Seq<u8>, root: usize, a: usize, j: usize)
    requires
        (a & 0xfff) + j < 4096,
    ensures
        a + j <= usize::MAX,
        translation(m, root, a) is None ==> translation(m, root, (a + j) as usize) is None,
        translation(m, root, a) is Some && translation(m, root, a).unwrap() + j <= usize::MAX
            ==> translation(m, root, (a + j) as usize) == Some((translation(m, root, a).unwrap() + j) as usize),
{
    let b = (a + j) as usize;
    assert(b == a + j && (b >> 12usize == a >> 12usize)
        && (b & 0xfff) == (a & 0xfff) + j && (b & 0x1f_ffff) == (a & 0x1f_ffff) + j && (b & 0x3fff_ffff) == (a & 0x3fff_ffff) + j)
        by (bit_vector)
        requires (a & 0xfff) + j < 4096, b == (a + j) as usize;
    lemma_same_page_vpns(a, b);
    let e2 = entry(m, root as u64, vpn_of(a, 2));
    let e1 = entry(m, pte_target(e2), vpn_of(a, 1));
    assert(walk_from(m, pte_target(e1), b, 0) == (if walk_from(m, pte_target(e1), a, 0) is Some { Some(walk_from(m, pte_target(e1), a, 0).unwrap() + j) } else { None }));
    assert(walk_from(m, pte_target(e2), b, 1) == (if walk_from(m, pte_target(e2), a, 1) is Some { Some(walk_from(m, pte_target(e2), a, 1).unwrap() + j) } else { None }));
    let w = walk_from(m, root as u64, a, 2);
    if w is Some {
        lemma_walk_bound(m, root as u64, a, 2);
        let w64 = w.unwrap() as u64;
        assert(w64 == w.unwrap());
        if (w64 as usize) + j <= usize::MAX {
            assert(((w64 + j) as usize) == (w64 as usize) + j) by (bit_vector)
                requires (w64 as usize) + j == ((w64 as usize) + j) as usize, j < 4096;
        }
    }
}

/// Whether the walk for `va` from `table` at `level` ends at a leaf that
/// U-mode may access (its U bit set).
pub open spec fn walk_user(m: Seq<u8>, table: u64, va: usize, level: int) -> bool
    decreases level,
{
    let e = entry(m, table, vpn_of(va, level));
    if !valid(e) {
        false
    } else if leafy(e) {
        e & U != 0
    } else if level <= 0 {
        false
    } else {
        walk_user(m, pte_target(e), va, level - 1)
    }
}

/// The byte of user memory at `va + k`, when that address is mapped to the
/// pool by a leaf open to U-mode. A supervisor-only mapping (the kernel
/// gigapage) gives nothing: the kernel never reads such a page on a
/// payload's behalf.
pub open spec fn user_byte(m: Seq<u8>, root: usize, va: usize, k: int) -> Option<u8> {
    let a = (va + k) as usize;
    if !walk_user(m, root as u64, a, 2) {
        None
    } else {
        match translation(m, root, a) {
            Some(p) => if in_pool(p as int, 1) { Some(m[p - POOL_BASE]) } else { None },
            None => None,
        }
    }
}

/// Within one 4 KiB page, whether U-mode may access the mapping does not
/// change.
pub proof fn lemma_user_in_page(m: Seq<u8>, root: usize, a: usize, j: usize)
    requires
        (a & 0xfff) + j < 4096,
    ensures
        walk_user(m, root as u64, (a + j) as usize, 2) == walk_user(m, root as u64, a, 2),
{
    let b = (a + j) as usize;
    assert(b >> 12usize == a >> 12usize) by (bit_vector)
        requires (a & 0xfff) + j < 4096, b == (a + j) as usize;
    lemma_same_page_vpns(a, b);
    let e2 = entry(m, root as u64, vpn_of(a, 2));
    let e1 = entry(m, pte_target(e2), vpn_of(a, 1));
    assert(walk_user(m, pte_target(e1), b, 0) == walk_user(m, pte_target(e1), a, 0));
    assert(walk_user(m, pte_target(e2), b, 1) == walk_user(m, pte_target(e2), a, 1));
}

/// A root none of whose first `n` entries points down owns no frame below.
pub proof fn lemma_root_pas_empty(m: Seq<u8>, root: usize, n: int)
    requires
        forall|i: int| 0 <= i < n ==> !points_down(#[trigger] entry(m, root as u64, i)),
    ensures
        root_pas(m, root, n) == Set::<int>::empty(),
    decreases n,
{
    if n > 0 {
        lemma_root_pas_empty(m, root, n - 1);
        assert(root_pas(m, root, n) =~= Set::<int>::empty());
    }
}

/// A frame `alloc_frame` hands out reads as zero throughout.
pub proof fn lemma_alloc_zeroed(before: FrameAllocator, after: FrameAllocator, m0: Seq<u8>, m1: Seq<u8>, pa: usize)
    requires
        m0.len() == POOL_SIZE,
        alloc_post(before, after, m0, m1, Some(pa)),
        pa % 4096 == 0,
        in_pool(pa as int, 4096),
    ensures
        forall|j: int| 0 <= j < 512 ==> #[trigger] entry(m1, pa as u64, j) == 0,
        m1.len() == POOL_SIZE,
{
    let start = (before.hint() % (POOL_FRAMES as nat)) as int;
    let i = choose|i: int| {
        &&& 0 <= i < POOL_FRAMES
        &&& #[trigger] crate::frames::probe(start, i) == (pa - POOL_BASE) / (FRAME_SIZE as int)
        &&& pa == frame_pa(crate::frames::probe(start, i))
        &&& !before.frames().contains(crate::frames::probe(start, i))
        &&& forall|j: int| 0 <= j < i ==> before.frames().contains(#[trigger] crate::frames::probe(start, j))
        &&& after.frames() == before.frames().insert(crate::frames::probe(start, i))
        &&& after.count() == before.count() + 1
        &&& after.hint() == crate::frames::probe(start, i) + 1
        &&& m1 == m0.take(pa - POOL_BASE) + Seq::new(FRAME_SIZE as nat, |k: int| 0u8) + m0.skip(pa - POOL_BASE + FRAME_SIZE)
    };
    lemma_zero_effect(m0, m1, pa as int);
}

/// Freeing exactly the root frame `alloc_frame` just handed out gives the
/// allocator back the frames it had before.
pub proof fn lemma_lone_root_freed(before: FrameAllocator, after: FrameAllocator, m0: Seq<u8>, m1: Seq<u8>, root: usize)
    requires
        alloc_post(before, after, m0, m1, Some(root)),
    ensures
        without_pas(after.frames(), Set::<int>::empty().insert(root as int)) == before.frames(),
{
    let start = (before.hint() % (POOL_FRAMES as nat)) as int;
    let i = choose|i: int| {
        &&& 0 <= i < POOL_FRAMES
        &&& #[trigger] crate::frames::probe(start, i) == (root - POOL_BASE) / (FRAME_SIZE as int)
        &&& root == frame_pa(crate::frames::probe(start, i))
        &&& !before.frames().contains(crate::frames::probe(start, i))
        &&& forall|j: int| 0 <= j < i ==> before.frames().contains(#[trigger] crate::frames::probe(start, j))
        &&& after.frames() == before.frames().insert(crate::frames::probe(start, i))
        &&& after.count() == before.count() + 1
        &&& after.hint() == crate::frames::probe(start, i) + 1
        &&& m1 == m0.take(root - POOL_BASE) + Seq::new(FRAME_SIZE as nat, |k: int| 0u8) + m0.skip(root - POOL_BASE + FRAME_SIZE)
    };
    let q = crate::frames::probe(start, i);
    assert(without_pas(after.frames(), Set::<int>::empty().insert(root as int)) =~= before.frames()) by {
        assert forall|f: int| before.frames().contains(f) implies POOL_BASE + f * (FRAME_SIZE as int) != root by {
            assert(f != q);
        }
    }
}

/// A space made by `new` and given only the kernel map owns its root frame
/// alone: destroying it gives the allocator back exactly the frames it had
/// before `new`.
pub proof fn lemma_kernel_space_destroy_restores(fa0: FrameAllocator, fa1: FrameAllocator, m0: Seq<u8>, m1: Seq<u8>,
    m2: Seq<u8>, root: usize)
    requires
        m0.len() == POOL_SIZE,
        alloc_post(fa0, fa1, m0, m1, Some(root)),
        forall|j: int| 0 <= j < 512 ==> #[trigger] entry(m1, root as u64, j) == 0,
        entry(m2, root as u64, vpn_of(KERNEL_GIGAPAGE_VA, 2)) == leaf_pte(KERNEL_GIGAPAGE_VA, R | W | X | G),
        leafy(leaf_pte(KERNEL_GIGAPAGE_VA, R | W | X | G)),
        agree_except(m1, m2, root + 8 * vpn_of(KERNEL_GIGAPAGE_VA, 2), 8),
    ensures
        without_pas(fa1.frames(), root_pas(m2, root, 512).insert(root as int)) == fa0.frames(),
{
    let start = (fa0.hint() % (POOL_FRAMES as nat)) as int;
    let i = choose|i: int| {
        &&& 0 <= i < POOL_FRAMES
        &&& #[trigger] crate::frames::probe(start, i) == (root - POOL_BASE) / (FRAME_SIZE as int)
        &&& root == frame_pa(crate::frames::probe(start, i))
        &&& !fa0.frames().contains(crate::frames::probe(start, i))
        &&& forall|j: int| 0 <= j < i ==> fa0.frames().contains(#[trigger] crate::frames::probe(start, j))
        &&& fa1.frames() == fa0.frames().insert(crate::frames::probe(start, i))
        &&& fa1.count() == fa0.count() + 1
        &&& fa1.hint() == crate::frames::probe(start, i) + 1
        &&& m1 == m0.take(root - POOL_BASE) + Seq::new(FRAME_SIZE as nat, |k: int| 0u8) + m0.skip(root - POOL_BASE + FRAME_SIZE)
    };
    let q = crate::frames::probe(start, i);
    assert(root % 4096 == 0) by (nonlinear_arith)
        requires root == POOL_BASE + q * 4096, POOL_BASE % 4096 == 0;
    assert(vpn_of(KERNEL_GIGAPAGE_VA, 2) == 2) by {
        assert((0x8000_0000usize >> 30usize) & 0x1ff == 2) by (bit_vector);
    }
    lemma_zero_invalid();
    assert forall|j: int| 0 <= j < 512 implies !points_down(#[trigger] entry(m2, root as u64, j)) by {
        if j != 2 {
            lemma_entry_kept(m1, m2, root as int, 2, root as int, j);
        }
    }
    lemma_root_pas_empty(m2, root, 512);
    lemma_lone_root_freed(fa0, fa1, m0, m1, root);
    assert(Set::<int>::empty().insert(root as int) =~= root_pas(m2, root, 512).insert(root as int));
}

/// Mapping a freshly allocated page keeps the space's account: what the
/// allocator would hold once the space is destroyed is unchanged by
/// allocating a page `p` and mapping it with `map_page` (its new tables and
/// the page itself are owned by the space). With
/// `lemma_kernel_space_destroy_restores` as the start, any number of such
/// mappings leaves `destroy` returning the allocator to the frames it had
/// before `new`.
pub proof fn lemma_map_keeps_account(fa: FrameAllocator, fa1: FrameAllocator, fa2: FrameAllocator, m: Seq<u8>,
    m1: Seq<u8>, m2: Seq<u8>, root: usize, p: usize)
    requires
        m.len() == POOL_SIZE,
        space_wf(m, fa, root as int),
        alloc_post(fa, fa1, m, m1, Some(p)),
        p % 4096 == 0,
        in_pool(p as int, 4096),
        fa1.frames().subset_of(fa2.frames()),
        root_pas(m2, root, 512) == root_pas(m1, root, 512).union(fresh_pas(fa1, fa2)).insert(p as int),
    ensures
        without_pas(fa2.frames(), root_pas(m2, root, 512).insert(root as int))
            == without_pas(fa.frames(), root_pas(m, root, 512).insert(root as int)),
{
    lemma_alloc_keeps(fa, fa1, m, m1, p);
    crate::owned::lemma_keeps_root_pas(m, m1, fa, root);
    let fp = frame_of(p as int);
    let s0 = root_pas(m, root, 512).insert(root as int);
    let s2 = root_pas(m2, root, 512).insert(root as int);
    assert forall|f: int| without_pas(fa2.frames(), s2).contains(f) == without_pas(fa.frames(), s0).contains(f) by {
        if fa.frames().contains(f) {
            assert(fa2.frames().contains(f));
            if fresh_pas(fa1, fa2).contains(frame_pa(f)) {
                let g = choose|g: int| #[trigger] fa2.frames().contains(g) && !fa1.frames().contains(g) && frame_pa(f) == frame_pa(g);
                assert(g == f);
            }
            assert(f != fp);
        } else if fa2.frames().contains(f) {
            if f != fp {
                assert(!fa1.frames().contains(f));
                assert(fresh_pas(fa1, fa2).contains(frame_pa(f)));
            }
        }
    }
    assert(without_pas(fa2.frames(), s2) =~= without_pas(fa.frames(), s0));
}

impl AddressSpace {
    /// Copy `buf.len()` bytes from user VA `va` into `buf`, page by page;
    /// false if any byte is unmapped (its page is not mapped into the pool)
    /// or the range runs past the top of the address space.
    pub fn copy_from_user(&self, mem: &PhysMem, va: usize, buf: &mut Vec<u8>) -> (ok: bool)
        requires
            mem.wf(),
        ensures
            final(buf)@.len() == old(buf)@.len(),
            ok == (va as int + old(buf)@.len() <= usize::MAX + 1
                && forall|k: int| 0 <= k < old(buf)@.len() ==> #[trigger] user_byte(mem@, self.root_pa(), va, k) is Some),
            ok ==> forall|k: int| 0 <= k < old(buf)@.len() ==> final(buf)@[k] == #[trigger] user_byte(mem@, self.root_pa(), va, k).unwrap(),
    {
        let len = buf.len();
        if len > 0 && va > usize::MAX - (len - 1) {
            return false;
        }
        let mut done: usize = 0;
        while done < len
            invariant
                mem.wf(),
                va as int + len <= usize::MAX + 1,
                len == buf@.len(),
                len == old(buf)@.len(),
                done <= len,
                forall|k: int| 0 <= k < done ==> #[trigger] user_byte(mem@, self.root, va, k) is Some
                    && buf@[k] == user_byte(mem@, self.root, va, k).unwrap(),
            decreases len - done,
        {
            let cur = va + done;
            let pa = match self.translate(mem, cur) {
                Some(pa) => pa,
                None => {
                    proof {
                        assert(user_byte(mem@, self.root, va, done as int) is None);
                    }
                    return false;
                },
            };
            proof {
                assert(cur % 4096 == cur & 0xfff && (cur & 0xfff) < 4096) by (bit_vector);
            }
            if !self.user_mapped(mem, cur) {
                proof {
                    assert(user_byte(mem@, self.root, va, done as int) is None);
                }
                return false;
            }
            let page_left = PAGE_SIZE - (cur % PAGE_SIZE);
            let n = if page_left < len - done { page_left } else { len - done };
            let mut chunk: Vec<u8> = vec![0u8; n];
            if !phys_read(mem, pa, &mut chunk) {
                proof {
                    assert(!in_pool(pa as int, n as int));
                    if in_pool(pa as int, 1) {
                        let j = (n - 1) as usize;
                        lemma_translation_in_page(mem@, self.root, cur, j);
                        assert(!in_pool(pa + j, 1));
                        assert(user_byte(mem@, self.root, va, done + j) is None);
                    } else {
                        assert(user_byte(mem@, self.root, va, done as int) is None);
                    }
                }
                return false;
            }
            let mut i: usize = 0;
            while i < n
                invariant
                    mem.wf(),
                    va as int + len <= usize::MAX + 1,
                    len == buf@.len(),
                    done + n <= len,
                    i <= n,
                    chunk@.len() == n,
                    cur == va + done,
                    (cur & 0xfff) + n <= 4096,
                    in_pool(pa as int, n as int),
                    Some(pa) == translation(mem@, self.root, cur),
                    walk_user(mem@, self.root as u64, cur, 2),
                    chunk@ == mem@.subrange(pa - POOL_BASE, pa - POOL_BASE + n),
                    forall|k: int| 0 <= k < done + i ==> #[trigger] user_byte(mem@, self.root, va, k) is Some
                        && buf@[k] == user_byte(mem@, self.root, va, k).unwrap(),
                decreases n - i,
            {
                proof {
                    lemma_translation_in_page(mem@, self.root, cur, i);
                    lemma_user_in_page(mem@, self.root, cur, i);
                    assert(user_byte(mem@, self.root, va, done + i) == Some(chunk@[i as int]));
                }
                buf.set(done + i, chunk[i]);
                i += 1;
            }
            done = done + n;
        }
        true
    }
}

/// Add the kernel identity map (a supervisor gigapage, U=0) to `space`:
/// the trap handler can run under a payload's table, while a U-mode touch
/// of kernel RAM faults.
pub fn map_kernel(space: &AddressSpace, fa: &FrameAllocator, mem: &mut PhysMem) -> (r: Result<(), MmError>)
    requires
        old(mem).wf(),
    ensures
        final(mem).wf(),
        valid(entry(old(mem)@, space.root_pa() as u64, vpn_of(KERNEL_GIGAPAGE_VA, 2)))
            ==> r == Err::<(), MmError>(MmError::Overlap) && final(mem)@ == old(mem)@,
        !valid(entry(old(mem)@, space.root_pa() as u64, vpn_of(KERNEL_GIGAPAGE_VA, 2))) ==> r is Ok,
        r is Ok && table_ok(*fa, space.root_pa() as int) ==>
            entry(final(mem)@, space.root_pa() as u64, vpn_of(KERNEL_GIGAPAGE_VA, 2)) == leaf_pte(KERNEL_GIGAPAGE_VA, R | W | X | G)
            && leaf_pte(KERNEL_GIGAPAGE_VA, R | W | X | G) & U == 0
            && leafy(leaf_pte(KERNEL_GIGAPAGE_VA, R | W | X | G))
            && agree_except(old(mem)@, final(mem)@, space.root_pa() + 8 * vpn_of(KERNEL_GIGAPAGE_VA, 2), 8),
        r is Ok && space_wf(old(mem)@, *fa, space.root_pa() as int) ==> space_wf(final(mem)@, *fa, space.root_pa() as int)
            && forall|va: usize| va >> 30usize == 2 ==>
                #[trigger] translation(final(mem)@, space.root_pa(), va) == Some(va),
{
    proof {
        assert(2u64 | 4u64 | 8u64 | 32u64 == 46u64) by (bit_vector);
    }
    let r = space.map_gigapage(fa, mem, KERNEL_GIGAPAGE_VA, KERNEL_GIGAPAGE_VA, R | W | X | G);
    proof {
        assert(KERNEL_GIGAPAGE_VA >> 30usize == 2usize) by (bit_vector);
        lemma_pte_build(KERNEL_GIGAPAGE_VA as u64, 46);
        assert(46u64 & 14u64 != 0 && 46u64 & 16u64 == 0) by (bit_vector);
        assert forall|va: usize| va >> 30usize == 2 implies (KERNEL_GIGAPAGE_VA + (va & 0x3fff_ffff)) as usize == va by {
            assert(va >> 30usize == 2usize ==> 0x8000_0000usize + (va & 0x3fff_ffff) == va) by (bit_vector);
        }
    }
    r
}


// ---- Teardown ---------------------------------------------------------------

/// The addresses reached through the first `n` entries of the table at
/// `table` (a table at `level`): leaf targets, and every address under a
/// lower table.
pub open spec fn entries_pas(m: Seq<u8>, table: usize, level: int, n: int) -> Set<int>
    decreases level, n,
{
    if n <= 0 || level < 0 {
        Set::empty()
    } else {
        let e = entry(m, table as u64, n - 1);
        let here = if !valid(e) {
            Set::empty()
        } else if leafy(e) {
            set![(pte_target(e) as usize) as int]
        } else if level > 0 {
            subtree_pas(m, pte_target(e) as usize, level - 1)
        } else {
            Set::empty()
        };
        entries_pas(m, table, level, n - 1).union(here)
    }
}

/// The table at `table` and every frame reachable below it.
pub open spec fn subtree_pas(m: Seq<u8>, table: usize, level: int) -> Set<int>
    decreases level, 513int,
{
    if level < 0 {
        set![table as int]
    } else {
        entries_pas(m, table, level, 512).insert(table as int)
    }
}

/// The frames an address space owns: its root, and every subtree under a
/// root entry that points down (a leaf at the root is a shared kernel
/// gigapage, not owned).
pub open spec fn root_pas(m: Seq<u8>, root: usize, n: int) -> Set<int>
    decreases n,
{
    if n <= 0 {
        Set::empty()
    } else {
        let e = entry(m, root as u64, n - 1);
        let here = if points_down(e) { subtree_pas(m, pte_target(e) as usize, 1) } else { Set::empty() };
        root_pas(m, root, n - 1).union(here)
    }
}

/// Free every user frame and table under `table` (a table at `level`), then
/// `table` itself.
fn free_subtree(fa: &mut FrameAllocator, mem: &PhysMem, table: usize, level: usize)
    requires
        old(fa).wf(),
        mem.wf(),
        level <= 1,
    ensures
        final(fa).wf(),
        final(fa).frames() == without_pas(old(fa).frames(), subtree_pas(mem@, table, level as int)),
    decreases level,
{
    let ghost f0 = old(fa).frames();
    let mut i: usize = 0;
    while i < 512
        invariant
            fa.wf(),
            mem.wf(),
            level <= 1,
            i <= 512,
            fa.frames() == without_pas(f0, entries_pas(mem@, table, level as int, i as int)),
        decreases 512 - i,
    {
        let ghost before = *fa;
        let pte = read_entry(mem, table as u64, i);
        if pte & V != 0 {
            if pte & PERM_MASK != 0 {
                free(fa, pte_pa(pte));
                proof {
                    lemma_free_drops(before, *fa, pte_target(pte) as usize);
                }
            } else if level > 0 {
                free_subtree(fa, mem, pte_pa(pte), level - 1);
            }
        }
        proof {
            let ghost here = if !valid(pte) {
                Set::empty()
            } else if leafy(pte) {
                set![(pte_target(pte) as usize) as int]
            } else if level > 0 {
                subtree_pas(mem@, pte_target(pte) as usize, level - 1)
            } else {
                Set::empty()
            };
            assert(entries_pas(mem@, table, level as int, i + 1) == entries_pas(mem@, table, level as int, i as int).union(here));
            lemma_without_union(f0, entries_pas(mem@, table, level as int, i as int), here);
            if !valid(pte) || (!leafy(pte) && level == 0) {
                assert(fa.frames() =~= without_pas(before.frames(), here));
            }
        }
        i += 1;
    }
    let ghost before = *fa;
    free(fa, table);
    proof {
        lemma_free_drops(before, *fa, table);
        lemma_without_union(f0, entries_pas(mem@, table, level as int, 512), set![table as int]);
        assert(entries_pas(mem@, table, level as int, 512).union(set![table as int])
            =~= subtree_pas(mem@, table, level as int));
    }
}

impl AddressSpace {
    /// Free every user frame and intermediate table this space owns, then
    /// the root. Kernel gigapages (supervisor leaves at the root) are left
    /// alone: their target is shared kernel RAM, not owned by this payload.
    pub fn destroy(self, fa: &mut FrameAllocator, mem: &PhysMem)
        requires
            old(fa).wf(),
            mem.wf(),
        ensures
            final(fa).wf(),
            final(fa).frames() == without_pas(old(fa).frames(),
                root_pas(mem@, self.root_pa(), 512).insert(self.root_pa() as int)),
    {
        let ghost f0 = old(fa).frames();
        let mut i: usize = 0;
        while i < 512
            invariant
                fa.wf(),
                mem.wf(),
                i <= 512,
                fa.frames() == without_pas(f0, root_pas(mem@, self.root, i as int)),
            decreases 512 - i,
        {
            let ghost before = *fa;
            let pte = read_entry(mem, self.root as u64, i);
            if pte & V != 0 && pte & PERM_MASK == 0 {
                free_subtree(fa, mem, pte_pa(pte), 1);
            }
            proof {
                let ghost here = if points_down(pte) { subtree_pas(mem@, pte_target(pte) as usize, 1) } else { Set::empty() };
                lemma_without_union(f0, root_pas(mem@, self.root, i as int), here);
                if !points_down(pte) {
                    assert(fa.frames() =~= without_pas(before.frames(), here));
                }
            }
            i += 1;
        }
        let ghost before = *fa;
        free(fa, self.root);
        proof {
            lemma_free_drops(before, *fa, self.root);
            lemma_without_union(f0, root_pas(mem@, self.root, 512), set![self.root as int]);
            assert(root_pas(mem@, self.root, 512).union(set![self.root as int])
                =~= root_pas(mem@, self.root, 512).insert(self.root as int));
        }
    }
}


// ---- Copying an address space -------------------------------------------------------

/// `m1` holds the same bytes as `m0` in every frame of `frames`.
pub open spec fn keeps_frames(m0: Seq<u8>, m1: Seq<u8>, frames: Set<int>) -> bool {
    &&& m1.len() == m0.len()
    &&& forall|k: int| 0 <= k < m0.len() && frames.contains(k / 4096) ==> #[trigger] m1[k] == m0[k]
}

/// Keeping is transitive.
pub proof fn lemma_keeps_trans(m0: Seq<u8>, m1: Seq<u8>, m2: Seq<u8>, frames: Set<int>)
    requires
        keeps_frames(m0, m1, frames),
        keeps_frames(m1, m2, frames),
    ensures
        keeps_frames(m0, m2, frames),
{
    assert forall|k: int| 0 <= k < m0.len() && frames.contains(k / 4096) implies #[trigger] m2[k] == m0[k] by {
        assert(m1[k] == m0[k]);
    }
}

/// A change confined to `n` bytes at `lo` inside one frame outside `frames`
/// keeps `frames`.
pub proof fn lemma_keeps_write(m0: Seq<u8>, m1: Seq<u8>, frames: Set<int>, lo: int, n: int)
    requires
        m0.len() == POOL_SIZE,
        agree_except(m0, m1, lo, n),
        in_pool(lo, n),
        0 <= n,
        (lo - POOL_BASE) % 4096 + n <= 4096,
        !frames.contains(frame_of(lo)),
    ensures
        keeps_frames(m0, m1, frames),
{
    assert forall|k: int| 0 <= k < m0.len() && frames.contains(k / 4096) implies #[trigger] m1[k] == m0[k] by {
        if lo - POOL_BASE <= k < lo - POOL_BASE + n {
            assert(k / 4096 == (lo - POOL_BASE) / 4096);
        }
    }
}

/// Splicing `bytes` in at `lo` changes nothing outside them.
pub proof fn lemma_splice_agrees(m0: Seq<u8>, m1: Seq<u8>, lo: int, bytes: Seq<u8>)
    requires
        m0.len() == POOL_SIZE,
        in_pool(lo, bytes.len() as int),
        m1 == m0.take(lo - POOL_BASE) + bytes + m0.skip(lo - POOL_BASE + bytes.len()),
    ensures
        agree_except(m0, m1, lo, bytes.len() as int),
{
}

/// An entry of an allocated table reads the same in memory that keeps the
/// allocated frames.
pub proof fn lemma_keeps_entry(m0: Seq<u8>, m1: Seq<u8>, frames: Set<int>, t: int, i: int)
    requires
        m0.len() == POOL_SIZE,
        keeps_frames(m0, m1, frames),
        t % 4096 == 0,
        in_pool(t, 4096),
        frames.contains(frame_of(t)),
        0 <= i < 512,
    ensures
        entry(m1, t as u64, i) == entry(m0, t as u64, i),
{
    let a = t + 8 * i;
    assert((t as u64) + 8 * i == a);
    assert(m1.subrange(a - POOL_BASE, a - POOL_BASE + 8) =~= m0.subrange(a - POOL_BASE, a - POOL_BASE + 8)) by {
        assert forall|k: int| a - POOL_BASE <= k < a - POOL_BASE + 8 implies m1[k] == m0[k] by {
            assert(k / 4096 == frame_of(t));
        }
    }
}

/// A walk from an allocated table reads the same in memory that keeps the
/// allocated frames, as long as every table it descends to is allocated.
proof fn lemma_keeps_walk(m0: Seq<u8>, m1: Seq<u8>, fa: FrameAllocator, root: int, t: int, va: usize, level: int)
    requires
        m0.len() == POOL_SIZE,
        keeps_frames(m0, m1, fa.frames()),
        0 <= level <= 2,
        table_ok(fa, t),
        level == 2 ==> space_wf(m0, fa, root) && t == root,
        level == 1 ==> l1_ok(m0, fa, root, t),
    ensures
        walk_from(m1, t as u64, va, level) == walk_from(m0, t as u64, va, level),
        walk_chain(m1, t as u64, va, level) == walk_chain(m0, t as u64, va, level),
    decreases level,
{
    let i = vpn_of(va, level);
    assert(0 <= i < 512) by {
        assert((va >> 30usize) & 0x1ff < 512 && (va >> 21usize) & 0x1ff < 512 && (va >> 12usize) & 0x1ff < 512) by (bit_vector);
    }
    lemma_keeps_entry(m0, m1, fa.frames(), t, i);
    let e = entry(m0, t as u64, i);
    if level > 0 && points_down(e) {
        let next = pte_target(e) as int;
        if level == 2 {
            assert(l1_ok(m0, fa, root, next));
        } else {
            assert(table_ok(fa, next));
        }
        lemma_keeps_walk(m0, m1, fa, root, next, va, level - 1);
    }
}

/// Memory that keeps the allocated frames keeps every well-formed address
/// space's translations: its tables all live in allocated frames.
pub proof fn lemma_keeps_translation(m0: Seq<u8>, m1: Seq<u8>, fa: FrameAllocator, root: usize, va: usize)
    requires
        m0.len() == POOL_SIZE,
        keeps_frames(m0, m1, fa.frames()),
        space_wf(m0, fa, root as int),
    ensures
        translation(m1, root, va) == translation(m0, root, va),
        walk_chain(m1, root as u64, va, 2) == walk_chain(m0, root as u64, va, 2),
{
    lemma_keeps_walk(m0, m1, fa, root as int, root as int, va, 2);
}

/// The page addresses of the frames `fa1` holds and `fa0` did not.
pub open spec fn fresh_pas(fa0: FrameAllocator, fa1: FrameAllocator) -> Set<int> {
    Set::new(|x: int| exists|f: int| #[trigger] fa1.frames().contains(f) && !fa0.frames().contains(f) && x == frame_pa(f))
}

/// Nothing is fresh between an allocator and itself.
pub proof fn lemma_fresh_pas_none(fa: FrameAllocator)
    ensures
        fresh_pas(fa, fa) == Set::<int>::empty(),
{
    assert(fresh_pas(fa, fa) =~= Set::<int>::empty());
}

/// One more frame allocated adds its address to the fresh ones.
pub proof fn lemma_fresh_pas_step(fa0: FrameAllocator, fa1: FrameAllocator, fa2: FrameAllocator, f: int)
    requires
        fa0.frames().subset_of(fa1.frames()),
        fa2.frames() == fa1.frames().insert(f),
        !fa1.frames().contains(f),
    ensures
        fresh_pas(fa0, fa2) == fresh_pas(fa0, fa1).insert(frame_pa(f)),
{
    assert forall|x: int| fresh_pas(fa0, fa2).contains(x) == fresh_pas(fa0, fa1).insert(frame_pa(f)).contains(x) by {
        if fresh_pas(fa0, fa2).contains(x) && x != frame_pa(f) {
            let g = choose|g: int| #[trigger] fa2.frames().contains(g) && !fa0.frames().contains(g) && x == frame_pa(g);
            assert(fa1.frames().contains(g));
        }
        if x == frame_pa(f) {
            assert(fa2.frames().contains(f) && !fa0.frames().contains(f));
        }
        if fresh_pas(fa0, fa1).contains(x) {
            let g = choose|g: int| #[trigger] fa1.frames().contains(g) && !fa0.frames().contains(g) && x == frame_pa(g);
            assert(fa2.frames().contains(g));
        }
    }
    assert(fresh_pas(fa0, fa2) =~= fresh_pas(fa0, fa1).insert(frame_pa(f)));
}

/// Memory that keeps the allocated frames keeps a well-formed space well
/// formed, as the allocator grows, and keeps every translation.
pub proof fn lemma_keeps_space(m0: Seq<u8>, m1: Seq<u8>, fa: FrameAllocator, fa2: FrameAllocator, root: usize)
    requires
        m0.len() == POOL_SIZE,
        keeps_frames(m0, m1, fa.frames()),
        space_wf(m0, fa, root as int),
        fa.frames().subset_of(fa2.frames()),
    ensures
        space_wf(m1, fa2, root as int),
        forall|va: usize| #[trigger] translation(m1, root, va) == translation(m0, root, va),
{
    assert forall|t: int, j: int| table_ok(fa, t) && 0 <= j < 512 implies #[trigger] entry(m1, t as u64, j) == entry(m0, t as u64, j) by {
        lemma_keeps_entry(m0, m1, fa.frames(), t, j);
    }
    lemma_wf_same_entries(m0, m1, fa, fa2, root as int);
    assert forall|va: usize| #[trigger] translation(m1, root, va) == translation(m0, root, va) by {
        lemma_keeps_translation(m0, m1, fa, root, va);
    }
}

/// A frame `alloc_frame` hands out was free, and zeroing it keeps every
/// frame allocated before.
pub proof fn lemma_alloc_keeps(before: FrameAllocator, after: FrameAllocator, m0: Seq<u8>, m1: Seq<u8>, pa: usize)
    requires
        m0.len() == POOL_SIZE,
        alloc_post(before, after, m0, m1, Some(pa)),
        pa % 4096 == 0,
        in_pool(pa as int, 4096),
    ensures
        keeps_frames(m0, m1, before.frames()),
        !before.frames().contains(frame_of(pa as int)),
        after.frames() == before.frames().insert(frame_of(pa as int)),
        frame_pa(frame_of(pa as int)) == pa as int,
{
    let start = (before.hint() % (POOL_FRAMES as nat)) as int;
    let i = choose|i: int| {
        &&& 0 <= i < POOL_FRAMES
        &&& #[trigger] crate::frames::probe(start, i) == (pa - POOL_BASE) / (FRAME_SIZE as int)
        &&& pa == frame_pa(crate::frames::probe(start, i))
        &&& !before.frames().contains(crate::frames::probe(start, i))
        &&& forall|j: int| 0 <= j < i ==> before.frames().contains(#[trigger] crate::frames::probe(start, j))
        &&& after.frames() == before.frames().insert(crate::frames::probe(start, i))
        &&& after.count() == before.count() + 1
        &&& after.hint() == crate::frames::probe(start, i) + 1
        &&& m1 == m0.take(pa - POOL_BASE) + Seq::new(FRAME_SIZE as nat, |k: int| 0u8) + m0.skip(pa - POOL_BASE + FRAME_SIZE)
    };
    let f = crate::frames::probe(start, i);
    assert(frame_of(pa as int) == f);
    lemma_splice_agrees(m0, m1, pa as int, Seq::new(FRAME_SIZE as nat, |k: int| 0u8));
    lemma_keeps_write(m0, m1, before.frames(), pa as int, 4096);
}

/// Keeping a set keeps each of its subsets.
pub proof fn lemma_keeps_sub(m0: Seq<u8>, m1: Seq<u8>, big: Set<int>, small: Set<int>)
    requires
        keeps_frames(m0, m1, big),
        small.subset_of(big),
    ensures
        keeps_frames(m0, m1, small),
{
}

/// Allocate a zeroed frame, keeping every frame allocated before (of
/// which `protect` is a part).
fn alloc_fresh(fa: &mut FrameAllocator, mem: &mut PhysMem, Ghost(protect): Ghost<Set<int>>) -> (r: Option<usize>)
    requires
        old(fa).wf(),
        old(mem).wf(),
        protect.subset_of(old(fa).frames()),
    ensures
        final(fa).wf(),
        final(mem).wf(),
        keeps_frames(old(mem)@, final(mem)@, protect),
        keeps_frames(old(mem)@, final(mem)@, old(fa).frames()),
        old(fa).frames().subset_of(final(fa).frames()),
        r matches Some(pa) ==> pa % 4096 == 0 && in_pool(pa as int, 4096) && !protect.contains(frame_of(pa as int))
            && !old(fa).frames().contains(frame_of(pa as int))
            && final(fa).frames() == old(fa).frames().insert(frame_of(pa as int))
            && forall|j: int| 0 <= j < 512 ==> #[trigger] entry(final(mem)@, pa as u64, j) == 0,
        r is None ==> final(mem)@ == old(mem)@,
        r is Some <==> old(fa).count() < POOL_FRAMES,
        r is Some ==> final(fa).count() == old(fa).count() + 1,
        r is None ==> *final(fa) == *old(fa),
{
    let r = alloc_frame(fa, mem);
    proof {
        lemma_full_iff(*old(fa));
        if r is None {
            assert(forall|f: int| 0 <= f < POOL_FRAMES ==> old(fa).frames().contains(f));
        }
        if let Some(pa) = r {
            lemma_alloc_keeps(*old(fa), *fa, old(mem)@, mem@, pa);
            lemma_keeps_sub(old(mem)@, mem@, old(fa).frames(), protect);
            let start = (old(fa).hint() % (POOL_FRAMES as nat)) as int;
            let i = choose|i: int| {
                &&& 0 <= i < POOL_FRAMES
                &&& #[trigger] crate::frames::probe(start, i) == (pa - POOL_BASE) / (FRAME_SIZE as int)
                &&& pa == frame_pa(crate::frames::probe(start, i))
                &&& !old(fa).frames().contains(crate::frames::probe(start, i))
                &&& forall|j: int| 0 <= j < i ==> old(fa).frames().contains(#[trigger] crate::frames::probe(start, j))
                &&& fa.frames() == old(fa).frames().insert(crate::frames::probe(start, i))
                &&& fa.count() == old(fa).count() + 1
                &&& fa.hint() == crate::frames::probe(start, i) + 1
                &&& mem@ == old(mem)@.take(pa - POOL_BASE) + Seq::new(FRAME_SIZE as nat, |k: int| 0u8) + old(mem)@.skip(pa - POOL_BASE + FRAME_SIZE)
            };
            lemma_zero_effect(old(mem)@, mem@, pa as int);
            assert(0 <= crate::frames::probe(start, i) < POOL_FRAMES);
        }
    }
    r
}

/// Write entry `idx` of the fresh table `t`, keeping `protect`.
fn set_entry(mem: &mut PhysMem, t: usize, idx: usize, val: u64, Ghost(protect): Ghost<Set<int>>)
    requires
        old(mem).wf(),
        idx < 512,
        t % 4096 == 0,
        in_pool(t as int, 4096),
        !protect.contains(frame_of(t as int)),
    ensures
        final(mem).wf(),
        keeps_frames(old(mem)@, final(mem)@, protect),
        agree_except(old(mem)@, final(mem)@, t + 8 * idx, 8),
        entry(final(mem)@, t as u64, idx as int) == val,
{
    write_slot(mem, t as u64, idx, val);
    proof {
        assert((t + 8 * idx - POOL_BASE) % 4096 == 8 * idx) by {
            assert((t - POOL_BASE) % 4096 == 0);
        }
        assert(frame_of(t + 8 * idx) == frame_of(t as int)) by {
            assert((t - POOL_BASE) % 4096 == 0);
        }
        lemma_keeps_write(old(mem)@, mem@, protect, t + 8 * idx, 8);
    }
}

/// A user page a deep copy duplicates: a 4 KiB frame inside the pool.
pub open spec fn pool_page(pa: int) -> bool {
    POOL_BASE <= pa && pa + 4096 <= POOL_END
}

/// Entry `e` pointed at the frame `q`, its flags kept.
pub open spec fn moved(e: u64, q: int) -> u64 {
    (e & !0x003f_ffff_ffff_fc00u64) | (((q as u64) >> 12u64) << 10u64)
}

/// A moved entry points at its new frame and keeps V and the permissions.
proof fn lemma_moved(e: u64, q: int)
    requires
        q % 4096 == 0,
        0 <= q < 0x100_0000_0000_0000,
    ensures
        pte_target(moved(e, q)) == q,
        valid(moved(e, q)) == valid(e),
        leafy(moved(e, q)) == leafy(e),
        moved(e, q) & U == e & U,
{
    let q64 = q as u64;
    assert(q64 & 0xfff == 0) by (bit_vector)
        requires q64 % 4096 == 0;
    assert(((((((e & !0x003f_ffff_ffff_fc00u64) | ((q64 >> 12u64) << 10u64)) >> 10u64) & 0xfff_ffff_ffffu64) << 12u64) == q64)
        && ((((e & !0x003f_ffff_ffff_fc00u64) | ((q64 >> 12u64) << 10u64)) & 1u64 != 0) == (e & 1u64 != 0))
        && ((((e & !0x003f_ffff_ffff_fc00u64) | ((q64 >> 12u64) << 10u64)) & 14u64 != 0) == (e & 14u64 != 0))
        && ((((e & !0x003f_ffff_ffff_fc00u64) | ((q64 >> 12u64) << 10u64)) & 16u64) == (e & 16u64))) by (bit_vector)
        requires q64 & 0xfff == 0, q64 < 0x100_0000_0000_0000;
}

/// The bytes of the page at `q`.
pub open spec fn page_bytes(m: Seq<u8>, q: int) -> Seq<u8> {
    m.subrange(q - POOL_BASE, q - POOL_BASE + 4096)
}

/// Entry `j` of the table `n0` (in `m`) copies entry `j` of the last-level
/// table `t0` (in `m0`): nothing where there is no leaf; a fresh frame
/// holding the same bytes for a pool page; the same entry otherwise.
pub open spec fn leaf_copy(m0: Seq<u8>, m: Seq<u8>, f0: Set<int>, fresh: Set<int>, live: Set<int>, t0: int, n0: int, j: int) -> bool {
    let se = entry(m0, t0 as u64, j);
    let de = entry(m, n0 as u64, j);
    if !(valid(se) && leafy(se)) {
        de == 0
    } else if pool_page(pte_target(se) as int) {
        let q = pte_target(de) as int;
        &&& de == moved(se, q)
        &&& q % 4096 == 0
        &&& pool_page(q)
        &&& !fresh.contains(frame_of(q))
        &&& live.contains(frame_of(q))
        &&& f0.contains(frame_of(pte_target(se) as int)) ==> page_bytes(m, q) == page_bytes(m0, pte_target(se) as int)
    } else {
        de == se
    }
}

/// The first `k` entries of `n0` copy those of `t0`; the rest are empty.
/// Every copied page is a live frame outside `fresh`.
pub open spec fn table0_copied(m0: Seq<u8>, m: Seq<u8>, f0: Set<int>, fresh: Set<int>, live: Set<int>, t0: int, n0: int, k: int) -> bool {
    &&& forall|j: int| 0 <= j < k ==> #[trigger] leaf_copy(m0, m, f0, fresh, live, t0, n0, j)
    &&& forall|j: int| k <= j < 512 ==> #[trigger] entry(m, n0 as u64, j) == 0
}

/// The bytes of a page in a kept frame are kept.
proof fn lemma_keeps_page(m: Seq<u8>, m2: Seq<u8>, s: Set<int>, q: int)
    requires
        m.len() == POOL_SIZE,
        keeps_frames(m, m2, s),
        q % 4096 == 0,
        pool_page(q),
        s.contains(frame_of(q)),
    ensures
        page_bytes(m2, q) == page_bytes(m, q),
{
    assert(page_bytes(m2, q) =~= page_bytes(m, q)) by {
        assert forall|k: int| 0 <= k < 4096 implies page_bytes(m2, q)[k] == page_bytes(m, q)[k] by {
            assert((q - POOL_BASE + k) / 4096 == frame_of(q));
        }
    }
}

/// A copied last-level table survives memory that keeps every live frame,
/// and claims stay true of larger live sets and smaller fresh sets.
proof fn lemma_table0_kept(m0: Seq<u8>, m: Seq<u8>, m2: Seq<u8>, f0: Set<int>, fresh: Set<int>, fresh2: Set<int>,
    live: Set<int>, live2: Set<int>, t0: int, n0: int, k: int)
    requires
        m.len() == POOL_SIZE,
        table0_copied(m0, m, f0, fresh, live, t0, n0, k),
        keeps_frames(m, m2, live),
        live.subset_of(live2),
        fresh2.subset_of(fresh),
        live.contains(frame_of(n0)),
        n0 % 4096 == 0,
        in_pool(n0, 4096),
        0 <= k <= 512,
    ensures
        table0_copied(m0, m2, f0, fresh2, live2, t0, n0, k),
{
    assert forall|j: int| 0 <= j < 512 implies #[trigger] entry(m2, n0 as u64, j) == entry(m, n0 as u64, j) by {
        lemma_keeps_entry(m, m2, live, n0, j);
    }
    assert forall|j: int| 0 <= j < k implies #[trigger] leaf_copy(m0, m2, f0, fresh2, live2, t0, n0, j) by {
        assert(leaf_copy(m0, m, f0, fresh, live, t0, n0, j));
        assert(entry(m2, n0 as u64, j) == entry(m, n0 as u64, j));
        let se = entry(m0, t0 as u64, j);
        if valid(se) && leafy(se) && pool_page(pte_target(se) as int) {
            let q = pte_target(entry(m, n0 as u64, j)) as int;
            lemma_keeps_page(m, m2, live, q);
        }
    }
}

/// Aligned pool addresses in different sets are in different frames.
proof fn lemma_frames_differ(a: int, b: int, s: Set<int>)
    requires
        a % 4096 == 0,
        b % 4096 == 0,
        s.contains(frame_of(a)),
        !s.contains(frame_of(b)),
    ensures
        a != b,
        frame_of(a) != frame_of(b),
{
}

/// Writing entry `k` of `n0` (and nothing else live) extends the copy by
/// that entry.
proof fn lemma_table0_step(m0: Seq<u8>, m: Seq<u8>, m2: Seq<u8>, f0: Set<int>, fresh: Set<int>, live: Set<int>,
    t0: int, n0: int, k: int)
    requires
        m.len() == POOL_SIZE,
        0 <= k < 512,
        table0_copied(m0, m, f0, fresh, live, t0, n0, k),
        agree_except(m, m2, n0 + 8 * k, 8),
        keeps_frames(m, m2, live.remove(frame_of(n0))),
        leaf_copy(m0, m2, f0, fresh, live, t0, n0, k),
        fresh.contains(frame_of(n0)),
        n0 % 4096 == 0,
        in_pool(n0, 4096),
    ensures
        table0_copied(m0, m2, f0, fresh, live, t0, n0, k + 1),
{
    assert forall|j: int| 0 <= j < 512 && j != k implies #[trigger] entry(m2, n0 as u64, j) == entry(m, n0 as u64, j) by {
        lemma_entry_kept(m, m2, n0, k, n0, j);
    }
    assert forall|j: int| 0 <= j < k + 1 implies #[trigger] leaf_copy(m0, m2, f0, fresh, live, t0, n0, j) by {
        if j < k {
            assert(leaf_copy(m0, m, f0, fresh, live, t0, n0, j));
            let se = entry(m0, t0 as u64, j);
            if valid(se) && leafy(se) && pool_page(pte_target(se) as int) {
                let q = pte_target(entry(m, n0 as u64, j)) as int;
                lemma_frames_differ(n0, q, fresh);
                lemma_keeps_page(m, m2, live.remove(frame_of(n0)), q);
            }
        }
    }
}

/// `t` is a page-aligned pool frame among `frames`.
pub open spec fn src_table(frames: Set<int>, t: int) -> bool {
    &&& t % 4096 == 0
    &&& in_pool(t, 4096)
    &&& frames.contains(frame_of(t))
}

/// A second-level source table whose lower tables all lie in `frames`.
pub open spec fn src_l1(m0: Seq<u8>, frames: Set<int>, t1: int) -> bool {
    &&& src_table(frames, t1)
    &&& forall|j: int| 0 <= j < 512 && points_down(#[trigger] entry(m0, t1 as u64, j)) ==>
            src_table(frames, pte_target(entry(m0, t1 as u64, j)) as int)
}

/// Entries `k..512` of the table `t` are empty.
pub open spec fn zero_from(m: Seq<u8>, t: int, k: int) -> bool {
    forall|j: int| k <= j < 512 ==> #[trigger] entry(m, t as u64, j) == 0
}

/// Entry `j` of the table `n1` (in `m`) copies entry `j` of the second-level
/// table `t1` (in `m0`): nothing where there is nothing, the same leaf, or a
/// fresh last-level table holding a copy of the one below.
pub open spec fn mid_copy(m0: Seq<u8>, m: Seq<u8>, f0: Set<int>, fresh: Set<int>, live: Set<int>, t1: int, n1: int, j: int) -> bool {
    let se = entry(m0, t1 as u64, j);
    let de = entry(m, n1 as u64, j);
    if !valid(se) {
        de == 0
    } else if leafy(se) {
        de == se
    } else {
        let n0 = pte_target(de) as int;
        &&& de == nonleaf_pte(n0 as usize)
        &&& n0 % 4096 == 0
        &&& in_pool(n0, 4096)
        &&& !fresh.contains(frame_of(n0))
        &&& live.contains(frame_of(n0))
        &&& table0_copied(m0, m, f0, fresh, live, pte_target(se) as int, n0, 512)
    }
}

pub open spec fn table1_prefix(m0: Seq<u8>, m: Seq<u8>, f0: Set<int>, fresh: Set<int>, live: Set<int>, t1: int, n1: int, k: int) -> bool {
    forall|j: int| 0 <= j < k ==> #[trigger] mid_copy(m0, m, f0, fresh, live, t1, n1, j)
}

/// The first `k` entries of `n1` copy those of `t1`; the rest are empty.
pub open spec fn table1_copied(m0: Seq<u8>, m: Seq<u8>, f0: Set<int>, fresh: Set<int>, live: Set<int>, t1: int, n1: int, k: int) -> bool {
    &&& table1_prefix(m0, m, f0, fresh, live, t1, n1, k)
    &&& zero_from(m, n1, k)
}

/// Entry `i` of the root `n2` (in `m`) copies entry `i` of the root `t2`
/// (in `m0`): nothing where there is nothing, the same leaf, or a fresh
/// second-level table holding a copy of the one below.
pub open spec fn top_copy(m0: Seq<u8>, m: Seq<u8>, f0: Set<int>, fresh: Set<int>, live: Set<int>, t2: int, n2: int, i: int) -> bool {
    let se = entry(m0, t2 as u64, i);
    let de = entry(m, n2 as u64, i);
    if !valid(se) {
        de == 0
    } else if leafy(se) {
        de == se
    } else {
        let n1 = pte_target(de) as int;
        &&& de == nonleaf_pte(n1 as usize)
        &&& n1 % 4096 == 0
        &&& in_pool(n1, 4096)
        &&& !fresh.contains(frame_of(n1))
        &&& live.contains(frame_of(n1))
        &&& table1_copied(m0, m, f0, fresh, live, pte_target(se) as int, n1, 512)
    }
}

pub open spec fn table2_prefix(m0: Seq<u8>, m: Seq<u8>, f0: Set<int>, fresh: Set<int>, live: Set<int>, t2: int, n2: int, k: int) -> bool {
    forall|i: int| 0 <= i < k ==> #[trigger] top_copy(m0, m, f0, fresh, live, t2, n2, i)
}

/// The first `k` entries of the root `n2` copy those of `t2`; the rest are
/// empty.
pub open spec fn table2_copied(m0: Seq<u8>, m: Seq<u8>, f0: Set<int>, fresh: Set<int>, live: Set<int>, t2: int, n2: int, k: int) -> bool {
    &&& table2_prefix(m0, m, f0, fresh, live, t2, n2, k)
    &&& zero_from(m, n2, k)
}

/// The address space rooted at `nroot` (in `m`, whose allocated frames are
/// `live`) is a deep copy of the one rooted at `root` (in `m0`, whose
/// allocated frames were `f0`): its every table and copied page is a frame
/// that was free in `f0`.
pub open spec fn copy_of(m0: Seq<u8>, m: Seq<u8>, f0: Set<int>, live: Set<int>, root: int, nroot: int) -> bool {
    &&& nroot % 4096 == 0
    &&& in_pool(nroot, 4096)
    &&& !f0.contains(frame_of(nroot))
    &&& live.contains(frame_of(nroot))
    &&& table2_copied(m0, m, f0, f0, live, root, nroot, 512)
}

/// A copied last-level table stays one when a frame of `fresh` is dropped
/// from the live set: nothing it copied lies in `fresh`.
proof fn lemma_table0_shrink(m0: Seq<u8>, m: Seq<u8>, f0: Set<int>, fresh: Set<int>, live: Set<int>, t0: int, n0: int, k: int, x: int)
    requires
        table0_copied(m0, m, f0, fresh, live, t0, n0, k),
        fresh.contains(x),
    ensures
        table0_copied(m0, m, f0, fresh, live.remove(x), t0, n0, k),
{
    assert forall|j: int| 0 <= j < k implies #[trigger] leaf_copy(m0, m, f0, fresh, live.remove(x), t0, n0, j) by {
        assert(leaf_copy(m0, m, f0, fresh, live, t0, n0, j));
    }
}

/// A copied second-level table survives memory that keeps every live
/// frame; claims stay true of larger live sets and smaller fresh sets.
proof fn lemma_table1_kept(m0: Seq<u8>, m: Seq<u8>, m2: Seq<u8>, f0: Set<int>, fresh: Set<int>, fresh2: Set<int>,
    live: Set<int>, live2: Set<int>, t1: int, n1: int, k: int)
    requires
        m.len() == POOL_SIZE,
        table1_copied(m0, m, f0, fresh, live, t1, n1, k),
        keeps_frames(m, m2, live),
        live.subset_of(live2),
        fresh2.subset_of(fresh),
        live.contains(frame_of(n1)),
        n1 % 4096 == 0,
        in_pool(n1, 4096),
        0 <= k <= 512,
    ensures
        table1_copied(m0, m2, f0, fresh2, live2, t1, n1, k),
{
    assert forall|j: int| 0 <= j < 512 implies #[trigger] entry(m2, n1 as u64, j) == entry(m, n1 as u64, j) by {
        lemma_keeps_entry(m, m2, live, n1, j);
    }
    assert forall|j: int| 0 <= j < k implies #[trigger] mid_copy(m0, m2, f0, fresh2, live2, t1, n1, j) by {
        assert(mid_copy(m0, m, f0, fresh, live, t1, n1, j));
        assert(entry(m2, n1 as u64, j) == entry(m, n1 as u64, j));
        let se = entry(m0, t1 as u64, j);
        if points_down(se) {
            let n0 = pte_target(entry(m, n1 as u64, j)) as int;
            lemma_table0_kept(m0, m, m2, f0, fresh, fresh2, live, live2, pte_target(se) as int, n0, 512);
        }
    }
    assert(zero_from(m2, n1, k)) by {
        assert forall|j: int| k <= j < 512 implies #[trigger] entry(m2, n1 as u64, j) == 0 by {
            assert(entry(m2, n1 as u64, j) == entry(m, n1 as u64, j));
        }
    }
}

/// A copied second-level table stays one when a frame of `fresh` is
/// dropped from the live set.
proof fn lemma_table1_shrink(m0: Seq<u8>, m: Seq<u8>, f0: Set<int>, fresh: Set<int>, live: Set<int>, t1: int, n1: int, k: int, x: int)
    requires
        table1_copied(m0, m, f0, fresh, live, t1, n1, k),
        fresh.contains(x),
    ensures
        table1_copied(m0, m, f0, fresh, live.remove(x), t1, n1, k),
{
    assert forall|j: int| 0 <= j < k implies #[trigger] mid_copy(m0, m, f0, fresh, live.remove(x), t1, n1, j) by {
        assert(mid_copy(m0, m, f0, fresh, live, t1, n1, j));
        let se = entry(m0, t1 as u64, j);
        if points_down(se) {
            let n0 = pte_target(entry(m, n1 as u64, j)) as int;
            lemma_table0_shrink(m0, m, f0, fresh, live, pte_target(se) as int, n0, 512, x);
        }
    }
}

/// Writing entry `k` of `n1` keeps the copied entries before it and the
/// empty ones after it.
proof fn lemma_table1_link(m0: Seq<u8>, m: Seq<u8>, m2: Seq<u8>, f0: Set<int>, fresh: Set<int>, live: Set<int>,
    t1: int, n1: int, k: int)
    requires
        m.len() == POOL_SIZE,
        0 <= k < 512,
        table1_copied(m0, m, f0, fresh, live, t1, n1, k),
        agree_except(m, m2, n1 + 8 * k, 8),
        keeps_frames(m, m2, live.remove(frame_of(n1))),
        fresh.contains(frame_of(n1)),
        n1 % 4096 == 0,
        in_pool(n1, 4096),
    ensures
        table1_prefix(m0, m2, f0, fresh, live, t1, n1, k),
        zero_from(m2, n1, k + 1),
{
    assert forall|j: int| 0 <= j < 512 && j != k implies #[trigger] entry(m2, n1 as u64, j) == entry(m, n1 as u64, j) by {
        lemma_entry_kept(m, m2, n1, k, n1, j);
    }
    let live1 = live.remove(frame_of(n1));
    assert forall|j: int| 0 <= j < k implies #[trigger] mid_copy(m0, m2, f0, fresh, live, t1, n1, j) by {
        assert(mid_copy(m0, m, f0, fresh, live, t1, n1, j));
        assert(entry(m2, n1 as u64, j) == entry(m, n1 as u64, j));
        let se = entry(m0, t1 as u64, j);
        if points_down(se) {
            let n0 = pte_target(entry(m, n1 as u64, j)) as int;
            lemma_table0_shrink(m0, m, f0, fresh, live, pte_target(se) as int, n0, 512, frame_of(n1));
            lemma_table0_kept(m0, m, m2, f0, fresh, fresh, live1, live, pte_target(se) as int, n0, 512);
        }
    }
    assert forall|j: int| k + 1 <= j < 512 implies #[trigger] entry(m2, n1 as u64, j) == 0 by {
        assert(entry(m2, n1 as u64, j) == entry(m, n1 as u64, j));
    }
}

/// Once entry `j` of `n1` points at a fresh copy of the table below, the
/// first `j + 1` entries are copied.
proof fn lemma_table1_step(m0: Seq<u8>, m: Seq<u8>, m2: Seq<u8>, f0: Set<int>, fresh: Set<int>, live: Set<int>,
    live2: Set<int>, t1: int, n1: int, j: int, n0: int)
    requires
        m.len() == POOL_SIZE,
        0 <= j < 512,
        table1_prefix(m0, m, f0, fresh, live, t1, n1, j),
        zero_from(m, n1, j + 1),
        points_down(entry(m0, t1 as u64, j)),
        entry(m, n1 as u64, j) == nonleaf_pte(n0 as usize),
        keeps_frames(m, m2, live),
        live.subset_of(live2),
        live.contains(frame_of(n1)),
        n1 % 4096 == 0,
        in_pool(n1, 4096),
        n0 % 4096 == 0,
        in_pool(n0, 4096),
        !fresh.contains(frame_of(n0)),
        live2.contains(frame_of(n0)),
        table0_copied(m0, m2, f0, fresh, live2, pte_target(entry(m0, t1 as u64, j)) as int, n0, 512),
    ensures
        table1_copied(m0, m2, f0, fresh, live2, t1, n1, j + 1),
{
    assert forall|i: int| 0 <= i < 512 implies #[trigger] entry(m2, n1 as u64, i) == entry(m, n1 as u64, i) by {
        lemma_keeps_entry(m, m2, live, n1, i);
    }
    lemma_pte_build(n0 as u64, 0);
    assert(pte_target(nonleaf_pte(n0 as usize)) == n0);
    assert forall|i: int| 0 <= i < j + 1 implies #[trigger] mid_copy(m0, m2, f0, fresh, live2, t1, n1, i) by {
        if i < j {
            assert(mid_copy(m0, m, f0, fresh, live, t1, n1, i));
            assert(entry(m2, n1 as u64, i) == entry(m, n1 as u64, i));
            let se = entry(m0, t1 as u64, i);
            if points_down(se) {
                let n = pte_target(entry(m, n1 as u64, i)) as int;
                lemma_table0_kept(m0, m, m2, f0, fresh, fresh, live, live2, pte_target(se) as int, n, 512);
            }
        }
    }
    assert forall|i: int| j + 1 <= i < 512 implies #[trigger] entry(m2, n1 as u64, i) == 0 by {
        assert(entry(m2, n1 as u64, i) == entry(m, n1 as u64, i));
    }
}

/// A copied root survives memory that keeps every live frame; claims stay
/// true of larger live sets and smaller fresh sets.
proof fn lemma_table2_kept(m0: Seq<u8>, m: Seq<u8>, m2: Seq<u8>, f0: Set<int>, fresh: Set<int>, fresh2: Set<int>,
    live: Set<int>, live2: Set<int>, t2: int, n2: int, k: int)
    requires
        m.len() == POOL_SIZE,
        table2_copied(m0, m, f0, fresh, live, t2, n2, k),
        keeps_frames(m, m2, live),
        live.subset_of(live2),
        fresh2.subset_of(fresh),
        live.contains(frame_of(n2)),
        n2 % 4096 == 0,
        in_pool(n2, 4096),
        0 <= k <= 512,
    ensures
        table2_copied(m0, m2, f0, fresh2, live2, t2, n2, k),
{
    assert forall|i: int| 0 <= i < 512 implies #[trigger] entry(m2, n2 as u64, i) == entry(m, n2 as u64, i) by {
        lemma_keeps_entry(m, m2, live, n2, i);
    }
    assert forall|i: int| 0 <= i < k implies #[trigger] top_copy(m0, m2, f0, fresh2, live2, t2, n2, i) by {
        assert(top_copy(m0, m, f0, fresh, live, t2, n2, i));
        assert(entry(m2, n2 as u64, i) == entry(m, n2 as u64, i));
        let se = entry(m0, t2 as u64, i);
        if points_down(se) {
            let n1 = pte_target(entry(m, n2 as u64, i)) as int;
            lemma_table1_kept(m0, m, m2, f0, fresh, fresh2, live, live2, pte_target(se) as int, n1, 512);
        }
    }
    assert(zero_from(m2, n2, k)) by {
        assert forall|i: int| k <= i < 512 implies #[trigger] entry(m2, n2 as u64, i) == 0 by {
            assert(entry(m2, n2 as u64, i) == entry(m, n2 as u64, i));
        }
    }
}

/// Writing entry `k` of the root `n2` keeps the copied entries before it
/// and the empty ones after it.
proof fn lemma_table2_link(m0: Seq<u8>, m: Seq<u8>, m2: Seq<u8>, f0: Set<int>, fresh: Set<int>, live: Set<int>,
    t2: int, n2: int, k: int)
    requires
        m.len() == POOL_SIZE,
        0 <= k < 512,
        table2_copied(m0, m, f0, fresh, live, t2, n2, k),
        agree_except(m, m2, n2 + 8 * k, 8),
        keeps_frames(m, m2, live.remove(frame_of(n2))),
        fresh.contains(frame_of(n2)),
        n2 % 4096 == 0,
        in_pool(n2, 4096),
    ensures
        table2_prefix(m0, m2, f0, fresh, live, t2, n2, k),
        zero_from(m2, n2, k + 1),
{
    assert forall|i: int| 0 <= i < 512 && i != k implies #[trigger] entry(m2, n2 as u64, i) == entry(m, n2 as u64, i) by {
        lemma_entry_kept(m, m2, n2, k, n2, i);
    }
    let live1 = live.remove(frame_of(n2));
    assert forall|i: int| 0 <= i < k implies #[trigger] top_copy(m0, m2, f0, fresh, live, t2, n2, i) by {
        assert(top_copy(m0, m, f0, fresh, live, t2, n2, i));
        assert(entry(m2, n2 as u64, i) == entry(m, n2 as u64, i));
        let se = entry(m0, t2 as u64, i);
        if points_down(se) {
            let n1 = pte_target(entry(m, n2 as u64, i)) as int;
            lemma_table1_shrink(m0, m, f0, fresh, live, pte_target(se) as int, n1, 512, frame_of(n2));
            lemma_table1_kept(m0, m, m2, f0, fresh, fresh, live1, live, pte_target(se) as int, n1, 512);
        }
    }
    assert forall|i: int| k + 1 <= i < 512 implies #[trigger] entry(m2, n2 as u64, i) == 0 by {
        assert(entry(m2, n2 as u64, i) == entry(m, n2 as u64, i));
    }
}

/// Once entry `i` of the root `n2` points at a fresh copy of the table
/// below, the first `i + 1` entries are copied.
proof fn lemma_table2_step(m0: Seq<u8>, m: Seq<u8>, m2: Seq<u8>, f0: Set<int>, fresh: Set<int>, live: Set<int>,
    live2: Set<int>, t2: int, n2: int, i: int, n1: int)
    requires
        m.len() == POOL_SIZE,
        0 <= i < 512,
        table2_prefix(m0, m, f0, fresh, live, t2, n2, i),
        zero_from(m, n2, i + 1),
        points_down(entry(m0, t2 as u64, i)),
        entry(m, n2 as u64, i) == nonleaf_pte(n1 as usize),
        keeps_frames(m, m2, live),
        live.subset_of(live2),
        live.contains(frame_of(n2)),
        n2 % 4096 == 0,
        in_pool(n2, 4096),
        n1 % 4096 == 0,
        in_pool(n1, 4096),
        !fresh.contains(frame_of(n1)),
        live2.contains(frame_of(n1)),
        table1_copied(m0, m2, f0, fresh, live2, pte_target(entry(m0, t2 as u64, i)) as int, n1, 512),
    ensures
        table2_copied(m0, m2, f0, fresh, live2, t2, n2, i + 1),
{
    assert forall|j: int| 0 <= j < 512 implies #[trigger] entry(m2, n2 as u64, j) == entry(m, n2 as u64, j) by {
        lemma_keeps_entry(m, m2, live, n2, j);
    }
    lemma_pte_build(n1 as u64, 0);
    assert(pte_target(nonleaf_pte(n1 as usize)) == n1);
    assert forall|j: int| 0 <= j < i + 1 implies #[trigger] top_copy(m0, m2, f0, fresh, live2, t2, n2, j) by {
        if j < i {
            assert(top_copy(m0, m, f0, fresh, live, t2, n2, j));
            assert(entry(m2, n2 as u64, j) == entry(m, n2 as u64, j));
            let se = entry(m0, t2 as u64, j);
            if points_down(se) {
                let n = pte_target(entry(m, n2 as u64, j)) as int;
                lemma_table1_kept(m0, m, m2, f0, fresh, fresh, live, live2, pte_target(se) as int, n, 512);
            }
        }
    }
    assert forall|j: int| i + 1 <= j < 512 implies #[trigger] entry(m2, n2 as u64, j) == 0 by {
        assert(entry(m2, n2 as u64, j) == entry(m, n2 as u64, j));
    }
}

/// Entry `j` of the last-level table `t0` maps a user page in the pool,
/// which a deep copy duplicates.
pub open spec fn copies_page(m: Seq<u8>, t0: int, j: int) -> bool {
    let e = entry(m, t0 as u64, j);
    valid(e) && leafy(e) && pool_page(pte_target(e) as int)
}

/// How many of the first `k` entries of `t0` map pages a deep copy
/// duplicates.
pub open spec fn pages_to_copy(m: Seq<u8>, t0: int, k: int) -> nat
    decreases k,
{
    if k <= 0 { 0 } else { pages_to_copy(m, t0, k - 1) + if copies_page(m, t0, k - 1) { 1nat } else { 0nat } }
}

/// The frames a deep copy of the first `k` entries of the second-level
/// table `t1` takes: for each lower table, a fresh table and its pages.
pub open spec fn need1(m: Seq<u8>, t1: int, k: int) -> nat
    decreases k,
{
    if k <= 0 {
        0
    } else {
        let e = entry(m, t1 as u64, k - 1);
        need1(m, t1, k - 1) + if points_down(e) { 1 + pages_to_copy(m, pte_target(e) as int, 512) } else { 0nat }
    }
}

/// The frames a deep copy of the first `k` entries of the root `t2` takes:
/// for each second-level table, a fresh table and what lies below it.
pub open spec fn need2(m: Seq<u8>, t2: int, k: int) -> nat
    decreases k,
{
    if k <= 0 {
        0
    } else {
        let e = entry(m, t2 as u64, k - 1);
        need2(m, t2, k - 1) + if points_down(e) { 1 + need1(m, pte_target(e) as int, 512) } else { 0nat }
    }
}

/// The frames a deep copy of the space rooted at `root` allocates: a root,
/// a table for each lower table, and a frame for each user page in the pool.
pub open spec fn copy_need(m: Seq<u8>, root: int) -> nat {
    1 + need2(m, root, 512)
}

proof fn lemma_pages_mono(m: Seq<u8>, t0: int, k: int, n: int)
    requires
        k <= n,
    ensures
        pages_to_copy(m, t0, k) <= pages_to_copy(m, t0, n),
    decreases n - k,
{
    if k < n {
        lemma_pages_mono(m, t0, k, n - 1);
    }
}

proof fn lemma_need1_mono(m: Seq<u8>, t1: int, k: int, n: int)
    requires
        k <= n,
    ensures
        need1(m, t1, k) <= need1(m, t1, n),
    decreases n - k,
{
    if k < n {
        lemma_need1_mono(m, t1, k, n - 1);
    }
}

proof fn lemma_need2_mono(m: Seq<u8>, t2: int, k: int, n: int)
    requires
        k <= n,
    ensures
        need2(m, t2, k) <= need2(m, t2, n),
    decreases n - k,
{
    if k < n {
        lemma_need2_mono(m, t2, k, n - 1);
    }
}

/// The frames of the pool addresses in `s`.
pub open spec fn listed(s: Seq<usize>) -> Set<int>
    decreases s.len(),
{
    if s.len() == 0 { Set::empty() } else { listed(s.drop_last()).insert(frame_of(s.last() as int)) }
}

/// `s` lists distinct aligned pool frames, none of them in `base`.
pub open spec fn listed_ok(s: Seq<usize>, base: Set<int>) -> bool
    decreases s.len(),
{
    if s.len() == 0 {
        true
    } else {
        &&& listed_ok(s.drop_last(), base)
        &&& !base.contains(frame_of(s.last() as int))
        &&& !listed(s.drop_last()).contains(frame_of(s.last() as int))
        &&& s.last() % 4096 == 0
        &&& in_pool(s.last() as int, 4096)
    }
}

proof fn lemma_listed_push(s: Seq<usize>, base: Set<int>, x: usize)
    requires
        listed_ok(s, base),
        !base.union(listed(s)).contains(frame_of(x as int)),
        x % 4096 == 0,
        in_pool(x as int, 4096),
    ensures
        listed_ok(s.push(x), base),
        listed(s.push(x)) == listed(s).insert(frame_of(x as int)),
{
    assert(s.push(x).drop_last() =~= s);
}

/// Free every frame `got` lists: an allocator holding `base` and those
/// frames is left holding `base`.
pub fn free_listed(fa: &mut FrameAllocator, got: Vec<usize>, Ghost(base): Ghost<Set<int>>)
    requires
        old(fa).wf(),
        old(fa).frames() == base.union(listed(got@)),
        listed_ok(got@, base),
    ensures
        final(fa).wf(),
        final(fa).frames() == base,
{
    let mut got = got;
    while got.len() > 0
        invariant
            fa.wf(),
            fa.frames() == base.union(listed(got@)),
            listed_ok(got@, base),
        decreases got.len(),
    {
        let ghost s = got@;
        let x = got.pop().unwrap();
        proof {
            assert(got@ =~= s.drop_last());
            assert(x == s.last());
            assert((x - POOL_BASE) % (FRAME_SIZE as int) == 0);
        }
        free(fa, x);
        proof {
            assert(fa.frames() =~= base.union(listed(got@)));
        }
    }
    proof {
        assert(listed(got@) =~= Set::<int>::empty());
        assert(fa.frames() =~= base);
    }
}

/// Copy the leaves of the last-level table `t0` into the fresh table `n0`:
/// a pool page gets a fresh copy of its bytes, any other target is aliased.
/// `m0` is memory as the copy began and `f0` the frames allocated then;
/// `src` says that `t0` is one of them.
fn copy_level0(fa: &mut FrameAllocator, mem: &mut PhysMem, t0: u64, n0: usize, Ghost(m0): Ghost<Seq<u8>>,
    Ghost(f0): Ghost<Set<int>>, Ghost(src): Ghost<bool>, got: &mut Vec<usize>, Ghost(held): Ghost<Set<int>>) -> (ok: bool)
    requires
        old(fa).frames() == held.union(listed(old(got)@)),
        listed_ok(old(got)@, held),
        old(fa).wf(),
        old(mem).wf(),
        m0.len() == POOL_SIZE,
        f0.subset_of(old(fa).frames()),
        keeps_frames(m0, old(mem)@, f0),
        src ==> src_table(f0, t0 as int),
        n0 % 4096 == 0,
        in_pool(n0 as int, 4096),
        !f0.contains(frame_of(n0 as int)),
        old(fa).frames().contains(frame_of(n0 as int)),
        forall|j: int| 0 <= j < 512 ==> #[trigger] entry(old(mem)@, n0 as u64, j) == 0,
    ensures
        final(fa).frames() == held.union(listed(final(got)@)),
        listed_ok(final(got)@, held),
        final(fa).wf(),
        final(mem).wf(),
        old(fa).frames().subset_of(final(fa).frames()),
        keeps_frames(old(mem)@, final(mem)@, old(fa).frames().remove(frame_of(n0 as int))),
        keeps_frames(m0, final(mem)@, f0),
        ok && src ==> table0_copied(m0, final(mem)@, f0, old(fa).frames(), final(fa).frames(), t0 as int, n0 as int, 512),
        src ==> (ok <==> old(fa).count() + pages_to_copy(m0, t0 as int, 512) <= POOL_FRAMES),
        ok && src ==> final(fa).count() == old(fa).count() + pages_to_copy(m0, t0 as int, 512),
{
    let ghost base = old(fa).frames().remove(frame_of(n0 as int));
    let ghost fresh = old(fa).frames();
    proof {
        assert(f0.subset_of(base));
        assert(table0_copied(m0, mem@, f0, fresh, fa.frames(), t0 as int, n0 as int, 0));
    }
    let mut k: usize = 0;
    while k < 512
        invariant
            fa.frames() == held.union(listed((*got)@)),
            listed_ok((*got)@, held),
            fa.wf(),
            mem.wf(),
            m0.len() == POOL_SIZE,
            f0.subset_of(old(fa).frames()),
            f0.subset_of(base),
            base == old(fa).frames().remove(frame_of(n0 as int)),
            fresh == old(fa).frames(),
            fresh.contains(frame_of(n0 as int)),
            old(fa).frames().subset_of(fa.frames()),
            keeps_frames(old(mem)@, mem@, base),
            keeps_frames(m0, mem@, f0),
            src ==> src_table(f0, t0 as int),
            n0 % 4096 == 0,
            in_pool(n0 as int, 4096),
            !f0.contains(frame_of(n0 as int)),
            fa.frames().contains(frame_of(n0 as int)),
            src ==> table0_copied(m0, mem@, f0, fresh, fa.frames(), t0 as int, n0 as int, k as int),
            src ==> fa.count() == old(fa).count() + pages_to_copy(m0, t0 as int, k as int),
            k <= 512,
        decreases 512 - k,
    {
        let ghost ma = mem@;
        let ghost fa_a = fa.frames();
        proof {
            if src {
                lemma_keeps_entry(m0, mem@, f0, t0 as int, k as int);
            }
        }
        let e0 = read_entry(mem, t0, k);
        if e0 & V != 0 && e0 & PERM_MASK != 0 {
            let pt = pte_target_exec(e0);
            if pt >= POOL_BASE as u64 && pt <= (POOL_END - PAGE_SIZE) as u64 {
                let pa = pt as usize;
                let nf = match alloc_fresh(fa, mem, Ghost(Set::empty())) {
                    Some(f) => f,
                    None => {
                        proof {
                            lemma_keeps_sub(old(mem)@, mem@, base, base);
                            lemma_full_iff(*fa);
                            if src {
                                assert(copies_page(m0, t0 as int, k as int));
                                assert(pages_to_copy(m0, t0 as int, k + 1) == pages_to_copy(m0, t0 as int, k as int) + 1);
                                lemma_pages_mono(m0, t0 as int, k + 1, 512);
                            }
                        }
                        return false;
                    },
                };
                let ghost gs = (*got)@;
                got.push(nf);
                proof {
                    lemma_listed_push(gs, held, nf);
                        assert(fa.frames() =~= held.union(listed((*got)@)));
                }
                let ghost mb = mem@;
                let ghost fa_b = fa.frames();
                let mut page: Vec<u8> = vec![0u8; PAGE_SIZE];
                phys_read(mem, pa, &mut page);
                phys_write(mem, nf, page.as_slice());
                let ghost mc = mem@;
                proof {
                    lemma_splice_agrees(mb, mc, nf as int, page@);
                    lemma_keeps_write(mb, mc, fa_a, nf as int, 4096);
                    lemma_keeps_trans(ma, mb, mc, fa_a);
                    if src {
                        lemma_table0_kept(m0, ma, mc, f0, fresh, fresh, fa_a, fa_b, t0 as int, n0 as int, k as int);
                    }
                    assert(page_bytes(mc, nf as int) =~= page@);
                    assert(page@ == page_bytes(mb, pa as int));
                    lemma_pte_target(e0);
                    if f0.contains(frame_of(pa as int)) {
                        lemma_keeps_sub(ma, mb, fa_a, f0);
                        lemma_keeps_trans(m0, ma, mb, f0);
                        lemma_keeps_page(m0, mb, f0, pa as int);
                    }
                    lemma_moved(e0, nf as int);
                }
                let moved_e = (e0 & !0x003f_ffff_ffff_fc00u64) | (((nf as u64) >> 12u64) << 10u64);
                set_entry(mem, n0, k, moved_e, Ghost(fa_b.remove(frame_of(n0 as int))));
                proof {
                    assert(fa_b.remove(frame_of(n0 as int)).contains(frame_of(nf as int)));
                    lemma_keeps_page(mc, mem@, fa_b.remove(frame_of(n0 as int)), nf as int);
                    if src {
                        assert(leaf_copy(m0, mem@, f0, fresh, fa_b, t0 as int, n0 as int, k as int));
                        lemma_table0_step(m0, mc, mem@, f0, fresh, fa_b, t0 as int, n0 as int, k as int);
                    }
                    lemma_keeps_sub(ma, mb, fa_a, base);
                    lemma_keeps_sub(mb, mc, fa_a, base);
                    lemma_keeps_sub(mc, mem@, fa_b.remove(frame_of(n0 as int)), base);
                    lemma_keeps_trans(ma, mb, mc, base);
                    lemma_keeps_trans(ma, mc, mem@, base);
                    lemma_keeps_trans(old(mem)@, ma, mem@, base);
                    lemma_keeps_sub(ma, mem@, base, f0);
                    lemma_keeps_trans(m0, ma, mem@, f0);
                }
            } else {
                set_entry(mem, n0, k, e0, Ghost(fa_a.remove(frame_of(n0 as int))));
                proof {
                    if src {
                        assert(leaf_copy(m0, mem@, f0, fresh, fa_a, t0 as int, n0 as int, k as int));
                        lemma_table0_step(m0, ma, mem@, f0, fresh, fa_a, t0 as int, n0 as int, k as int);
                    }
                    lemma_keeps_sub(ma, mem@, fa_a.remove(frame_of(n0 as int)), base);
                    lemma_keeps_trans(old(mem)@, ma, mem@, base);
                    lemma_keeps_sub(ma, mem@, base, f0);
                    lemma_keeps_trans(m0, ma, mem@, f0);
                }
            }
        } else {
            proof {
                if src {
                    assert(entry(mem@, n0 as u64, k as int) == 0);
                    assert(leaf_copy(m0, mem@, f0, fresh, fa_a, t0 as int, n0 as int, k as int));
                    assert(table0_copied(m0, mem@, f0, fresh, fa.frames(), t0 as int, n0 as int, k + 1));
                }
            }
        }
        proof {
            if src {
                assert(copies_page(m0, t0 as int, k as int) == (e0 & V != 0 && e0 & PERM_MASK != 0
                    && pte_target(e0) >= POOL_BASE && pte_target(e0) <= POOL_END - PAGE_SIZE));
                assert(pages_to_copy(m0, t0 as int, k + 1) == pages_to_copy(m0, t0 as int, k as int)
                    + if copies_page(m0, t0 as int, k as int) { 1nat } else { 0nat });
            }
        }
        k += 1;
    }
    proof {
        lemma_keeps_sub(old(mem)@, mem@, base, base);
        lemma_full_iff(*fa);
    }
    true
}

/// Copy the second-level table `t1` into the fresh table `n1`: each lower
/// table is copied into a fresh one, leaves are aliased. `src` says that
/// `t1` and the tables below it are among the frames `f0` allocated as the
/// copy began.
fn copy_level1(fa: &mut FrameAllocator, mem: &mut PhysMem, t1: u64, n1: usize, Ghost(m0): Ghost<Seq<u8>>,
    Ghost(f0): Ghost<Set<int>>, Ghost(src): Ghost<bool>, got: &mut Vec<usize>, Ghost(held): Ghost<Set<int>>) -> (ok: bool)
    requires
        old(fa).frames() == held.union(listed(old(got)@)),
        listed_ok(old(got)@, held),
        old(fa).wf(),
        old(mem).wf(),
        m0.len() == POOL_SIZE,
        f0.subset_of(old(fa).frames()),
        keeps_frames(m0, old(mem)@, f0),
        src ==> src_l1(m0, f0, t1 as int),
        n1 % 4096 == 0,
        in_pool(n1 as int, 4096),
        !f0.contains(frame_of(n1 as int)),
        old(fa).frames().contains(frame_of(n1 as int)),
        forall|j: int| 0 <= j < 512 ==> #[trigger] entry(old(mem)@, n1 as u64, j) == 0,
    ensures
        final(fa).frames() == held.union(listed(final(got)@)),
        listed_ok(final(got)@, held),
        final(fa).wf(),
        final(mem).wf(),
        old(fa).frames().subset_of(final(fa).frames()),
        keeps_frames(old(mem)@, final(mem)@, old(fa).frames().remove(frame_of(n1 as int))),
        keeps_frames(m0, final(mem)@, f0),
        ok && src ==> table1_copied(m0, final(mem)@, f0, old(fa).frames(), final(fa).frames(), t1 as int, n1 as int, 512),
        src ==> (ok <==> old(fa).count() + need1(m0, t1 as int, 512) <= POOL_FRAMES),
        ok && src ==> final(fa).count() == old(fa).count() + need1(m0, t1 as int, 512),
{
    let ghost base = old(fa).frames().remove(frame_of(n1 as int));
    let ghost fresh = old(fa).frames();
    proof {
        assert(f0.subset_of(base));
        assert(table1_copied(m0, mem@, f0, fresh, fa.frames(), t1 as int, n1 as int, 0));
    }
    let mut j: usize = 0;
    while j < 512
        invariant
            fa.frames() == held.union(listed((*got)@)),
            listed_ok((*got)@, held),
            fa.wf(),
            mem.wf(),
            m0.len() == POOL_SIZE,
            f0.subset_of(old(fa).frames()),
            f0.subset_of(base),
            base == old(fa).frames().remove(frame_of(n1 as int)),
            fresh == old(fa).frames(),
            fresh.contains(frame_of(n1 as int)),
            old(fa).frames().subset_of(fa.frames()),
            keeps_frames(old(mem)@, mem@, base),
            keeps_frames(m0, mem@, f0),
            src ==> src_l1(m0, f0, t1 as int),
            n1 % 4096 == 0,
            in_pool(n1 as int, 4096),
            !f0.contains(frame_of(n1 as int)),
            fa.frames().contains(frame_of(n1 as int)),
            src ==> table1_copied(m0, mem@, f0, fresh, fa.frames(), t1 as int, n1 as int, j as int),
            src ==> fa.count() == old(fa).count() + need1(m0, t1 as int, j as int),
            j <= 512,
        decreases 512 - j,
    {
        let ghost ma = mem@;
        let ghost fa_a = fa.frames();
        proof {
            if src {
                lemma_keeps_entry(m0, mem@, f0, t1 as int, j as int);
            }
        }
        let e1 = read_entry(mem, t1, j);
        if e1 & V != 0 {
            if e1 & PERM_MASK != 0 {
                set_entry(mem, n1, j, e1, Ghost(fa_a.remove(frame_of(n1 as int))));
                proof {
                    if src {
                        lemma_table1_link(m0, ma, mem@, f0, fresh, fa_a, t1 as int, n1 as int, j as int);
                        assert(mid_copy(m0, mem@, f0, fresh, fa_a, t1 as int, n1 as int, j as int));
                        assert(table1_copied(m0, mem@, f0, fresh, fa_a, t1 as int, n1 as int, j + 1));
                    }
                    lemma_keeps_sub(ma, mem@, fa_a.remove(frame_of(n1 as int)), base);
                    lemma_keeps_trans(old(mem)@, ma, mem@, base);
                    lemma_keeps_sub(ma, mem@, base, f0);
                    lemma_keeps_trans(m0, ma, mem@, f0);
                }
            } else {
                let n0 = match alloc_fresh(fa, mem, Ghost(Set::empty())) {
                    Some(f) => f,
                    None => {
                        proof {
                            lemma_keeps_sub(old(mem)@, mem@, base, base);
                            lemma_full_iff(*fa);
                            if src {
                                assert(need1(m0, t1 as int, j + 1) >= need1(m0, t1 as int, j as int) + 1);
                                lemma_need1_mono(m0, t1 as int, j + 1, 512);
                            }
                        }
                        return false;
                    },
                };
                let ghost gs = (*got)@;
                got.push(n0);
                proof {
                    lemma_listed_push(gs, held, n0);
                        assert(fa.frames() =~= held.union(listed((*got)@)));
                }
                let ghost mb = mem@;
                let ghost fa_b = fa.frames();
                proof {
                    if src {
                        lemma_table1_kept(m0, ma, mb, f0, fresh, fresh, fa_a, fa_a, t1 as int, n1 as int, j as int);
                    }
                }
                set_entry(mem, n1, j, nonleaf(n0), Ghost(fa_b.remove(frame_of(n1 as int))));
                let ghost mc = mem@;
                proof {
                    assert forall|i: int| 0 <= i < 512 implies #[trigger] entry(mc, n0 as u64, i) == 0 by {
                        lemma_entry_kept(mb, mc, n1 as int, j as int, n0 as int, i);
                    }
                    lemma_keeps_sub(mb, mc, fa_b.remove(frame_of(n1 as int)), fa_a.remove(frame_of(n1 as int)));
                    if src {
                        lemma_table1_link(m0, mb, mc, f0, fresh, fa_a, t1 as int, n1 as int, j as int);
                    }
                    lemma_keeps_sub(ma, mb, fa_a, base);
                    lemma_keeps_sub(mb, mc, fa_b.remove(frame_of(n1 as int)), base);
                    lemma_keeps_trans(ma, mb, mc, base);
                    lemma_keeps_trans(old(mem)@, ma, mc, base);
                    lemma_keeps_sub(ma, mc, base, f0);
                    lemma_keeps_trans(m0, ma, mc, f0);
                    assert(f0.subset_of(fa_b));
                }
                let ghost cnt_b = fa.count();
                let ok = copy_level0(fa, mem, pte_target_exec(e1), n0, Ghost(m0), Ghost(f0), Ghost(src), got, Ghost(held));
                proof {
                    if src {
                        assert(need1(m0, t1 as int, j + 1) == need1(m0, t1 as int, j as int) + 1
                            + pages_to_copy(m0, pte_target(e1) as int, 512));
                        if !ok {
                            lemma_need1_mono(m0, t1 as int, j + 1, 512);
                        }
                    }
                    lemma_keeps_sub(mc, mem@, fa_b.remove(frame_of(n0 as int)), base);
                    lemma_keeps_trans(old(mem)@, mc, mem@, base);
                }
                if !ok {
                    return false;
                }
                proof {
                    if src {
                        lemma_keeps_sub(mc, mem@, fa_b.remove(frame_of(n0 as int)), fa_a);
                        lemma_table0_kept(m0, mem@, mem@, f0, fa_b, fresh, fa.frames(), fa.frames(),
                            pte_target(e1) as int, n0 as int, 512);
                        lemma_table1_step(m0, mc, mem@, f0, fresh, fa_a, fa.frames(), t1 as int, n1 as int, j as int, n0 as int);
                    }
                }
            }
        } else {
            proof {
                if src {
                    assert(entry(mem@, n1 as u64, j as int) == 0);
                    assert(mid_copy(m0, mem@, f0, fresh, fa_a, t1 as int, n1 as int, j as int));
                    assert(table1_copied(m0, mem@, f0, fresh, fa.frames(), t1 as int, n1 as int, j + 1));
                }
            }
        }
        proof {
            if src && !points_down(e1) {
                assert(need1(m0, t1 as int, j + 1) == need1(m0, t1 as int, j as int));
            }
        }
        j += 1;
    }
    proof {
        lemma_keeps_sub(old(mem)@, mem@, base, base);
        lemma_full_iff(*fa);
    }
    true
}

fn pte_target_exec(e: u64) -> (r: u64)
    ensures
        r == pte_target(e),
{
    ((e >> 10u64) & 0xfff_ffff_ffffu64) << 12u64
}

/// The second-level tables under a well-formed root lie in allocated frames.
proof fn lemma_l1_src(m0: Seq<u8>, fa: FrameAllocator, root: int, t1: int)
    requires
        l1_ok(m0, fa, root, t1),
    ensures
        src_l1(m0, fa.frames(), t1),
{
    assert forall|j: int| 0 <= j < 512 && points_down(#[trigger] entry(m0, t1 as u64, j)) implies
        src_table(fa.frames(), pte_target(entry(m0, t1 as u64, j)) as int) by {
        assert(table_ok(fa, pte_target(entry(m0, t1 as u64, j)) as int));
    }
}

impl AddressSpace {
    /// An independent copy of this address space: fresh tables, a fresh
    /// copy of every user page in the pool, and aliases of everything else
    /// (the kernel gigapage, out-of-pool windows). None when the pool runs
    /// out; every frame taken so far is then freed again. Every frame
    /// allocated before the call keeps its bytes, so this space is left
    /// exactly as it was; a well-formed space gets a copy in the sense of
    /// `copy_of`.
    pub fn deep_copy(&self, fa: &mut FrameAllocator, mem: &mut PhysMem) -> (r: Option<AddressSpace>)
        requires
            old(fa).wf(),
            old(mem).wf(),
        ensures
            final(fa).wf(),
            final(mem).wf(),
            keeps_frames(old(mem)@, final(mem)@, old(fa).frames()),
            r matches Some(s) ==> !old(fa).frames().contains(frame_of(s.root_pa() as int))
                && final(fa).frames().contains(frame_of(s.root_pa() as int))
                && old(fa).frames().subset_of(final(fa).frames()),
            r matches Some(s) ==> (space_wf(old(mem)@, *old(fa), self.root_pa() as int) ==>
                copy_of(old(mem)@, final(mem)@, old(fa).frames(), final(fa).frames(), self.root_pa() as int, s.root_pa() as int)),
            space_wf(old(mem)@, *old(fa), self.root_pa() as int) ==>
                (r is Some <==> old(fa).count() + copy_need(old(mem)@, self.root_pa() as int) <= POOL_FRAMES),
            r is Some && space_wf(old(mem)@, *old(fa), self.root_pa() as int) ==>
                final(fa).count() == old(fa).count() + copy_need(old(mem)@, self.root_pa() as int),
            r is None ==> final(fa).frames() == old(fa).frames(),
    {
        let mut got: Vec<usize> = Vec::new();
        self.deep_copy_listed(fa, mem, &mut got)
    }

    /// `deep_copy`, listing in `got` every frame the copy takes, so that a
    /// caller that fails later can give them all back with `free_listed`.
    pub fn deep_copy_listed(&self, fa: &mut FrameAllocator, mem: &mut PhysMem, got: &mut Vec<usize>) -> (r: Option<AddressSpace>)
        requires
            old(fa).wf(),
            old(mem).wf(),
            old(got)@.len() == 0,
        ensures
            final(fa).wf(),
            final(mem).wf(),
            keeps_frames(old(mem)@, final(mem)@, old(fa).frames()),
            r matches Some(s) ==> !old(fa).frames().contains(frame_of(s.root_pa() as int))
                && final(fa).frames().contains(frame_of(s.root_pa() as int))
                && old(fa).frames().subset_of(final(fa).frames()),
            r matches Some(s) ==> (space_wf(old(mem)@, *old(fa), self.root_pa() as int) ==>
                copy_of(old(mem)@, final(mem)@, old(fa).frames(), final(fa).frames(), self.root_pa() as int, s.root_pa() as int)),
            space_wf(old(mem)@, *old(fa), self.root_pa() as int) ==>
                (r is Some <==> old(fa).count() + copy_need(old(mem)@, self.root_pa() as int) <= POOL_FRAMES),
            r is Some && space_wf(old(mem)@, *old(fa), self.root_pa() as int) ==>
                final(fa).count() == old(fa).count() + copy_need(old(mem)@, self.root_pa() as int),
            r is None ==> final(fa).frames() == old(fa).frames(),
            r is Some ==> final(fa).frames() == old(fa).frames().union(listed(final(got)@))
                && listed_ok(final(got)@, old(fa).frames()),
    {
        let ghost f0 = old(fa).frames();
        let ghost m0 = old(mem)@;
        let ghost src = space_wf(m0, *old(fa), self.root as int);
        let root = match alloc_fresh(fa, mem, Ghost(f0)) {
            Some(f) => f,
            None => {
                proof {
                    lemma_full_iff(*fa);
                }
                return None;
            },
        };
        got.push(root);
        proof {
            lemma_listed_push(Seq::<usize>::empty(), f0, root);
            assert(Seq::<usize>::empty().push(root) =~= (*got)@);
            assert(f0.union(listed(Seq::<usize>::empty())) =~= f0);
        }
        let ghost fresh = fa.frames();
        proof {
            assert(table2_copied(m0, mem@, f0, fresh, fa.frames(), self.root as int, root as int, 0));
        }
        let copy = AddressSpace { root };
        let mut i: usize = 0;
        while i < 512
            invariant
                fa.frames() == f0.union(listed((*got)@)),
                listed_ok((*got)@, f0),
                fa.wf(),
                mem.wf(),
                m0 == old(mem)@,
                m0.len() == POOL_SIZE,
                f0 == old(fa).frames(),
                fresh == f0.insert(frame_of(root as int)),
                fresh.subset_of(fa.frames()),
                root % 4096 == 0,
                in_pool(root as int, 4096),
                !f0.contains(frame_of(root as int)),
                keeps_frames(m0, mem@, f0),
                src == space_wf(m0, *old(fa), self.root as int),
                src ==> table2_copied(m0, mem@, f0, fresh, fa.frames(), self.root as int, root as int, i as int),
                src ==> fa.count() == old(fa).count() + 1 + need2(m0, self.root as int, i as int),
                copy.root == root,
                i <= 512,
            decreases 512 - i,
        {
            let ghost ma = mem@;
            let ghost fa_a = fa.frames();
            proof {
                if src {
                    lemma_keeps_entry(m0, mem@, f0, self.root as int, i as int);
                }
            }
            let e2 = read_entry(mem, self.root as u64, i);
            if e2 & V != 0 {
                if e2 & PERM_MASK != 0 {
                    set_entry(mem, root, i, e2, Ghost(fa_a.remove(frame_of(root as int))));
                    proof {
                        if src {
                            lemma_table2_link(m0, ma, mem@, f0, fresh, fa_a, self.root as int, root as int, i as int);
                            assert(top_copy(m0, mem@, f0, fresh, fa_a, self.root as int, root as int, i as int));
                            assert(table2_copied(m0, mem@, f0, fresh, fa_a, self.root as int, root as int, i + 1));
                        }
                        lemma_keeps_sub(ma, mem@, fa_a.remove(frame_of(root as int)), f0);
                        lemma_keeps_trans(m0, ma, mem@, f0);
                    }
                } else {
                    let n1 = match alloc_fresh(fa, mem, Ghost(Set::empty())) {
                        Some(f) => f,
                        None => {
                            proof {
                                lemma_full_iff(*fa);
                                if src {
                                    assert(need2(m0, self.root as int, i + 1) >= need2(m0, self.root as int, i as int) + 1);
                                    lemma_need2_mono(m0, self.root as int, i + 1, 512);
                                }
                            }
                            let mut list: Vec<usize> = Vec::new();
                            std::mem::swap(&mut list, got);
                            free_listed(fa, list, Ghost(f0));
                            return None;
                        },
                    };
                    let ghost gs = (*got)@;
                    got.push(n1);
                    proof {
                        lemma_listed_push(gs, f0, n1);
                        assert(fa.frames() =~= f0.union(listed((*got)@)));
                    }
                    let ghost mb = mem@;
                    let ghost fa_b = fa.frames();
                    proof {
                        if src {
                            lemma_table2_kept(m0, ma, mb, f0, fresh, fresh, fa_a, fa_a, self.root as int, root as int, i as int);
                        }
                    }
                    set_entry(mem, root, i, nonleaf(n1), Ghost(fa_b.remove(frame_of(root as int))));
                    let ghost mc = mem@;
                    proof {
                        assert forall|j: int| 0 <= j < 512 implies #[trigger] entry(mc, n1 as u64, j) == 0 by {
                            lemma_entry_kept(mb, mc, root as int, i as int, n1 as int, j);
                        }
                        lemma_keeps_sub(mb, mc, fa_b.remove(frame_of(root as int)), fa_a.remove(frame_of(root as int)));
                        if src {
                            lemma_table2_link(m0, mb, mc, f0, fresh, fa_a, self.root as int, root as int, i as int);
                            assert(l1_ok(m0, *old(fa), self.root as int, pte_target(e2) as int));
                            lemma_l1_src(m0, *old(fa), self.root as int, pte_target(e2) as int);
                        }
                        lemma_keeps_sub(ma, mb, fa_a, f0);
                        lemma_keeps_sub(mb, mc, fa_b.remove(frame_of(root as int)), f0);
                        lemma_keeps_trans(m0, ma, mb, f0);
                        lemma_keeps_trans(m0, mb, mc, f0);
                        assert(f0.subset_of(fa_b));
                    }
                    let ok = copy_level1(fa, mem, pte_target_exec(e2), n1, Ghost(m0), Ghost(f0), Ghost(src), got, Ghost(f0));
                    proof {
                        if src {
                            assert(need2(m0, self.root as int, i + 1) == need2(m0, self.root as int, i as int) + 1
                                + need1(m0, pte_target(e2) as int, 512));
                            if !ok {
                                lemma_need2_mono(m0, self.root as int, i + 1, 512);
                            }
                        }
                    }
                    if !ok {
                        let mut list: Vec<usize> = Vec::new();
                            std::mem::swap(&mut list, got);
                            free_listed(fa, list, Ghost(f0));
                        return None;
                    }
                    proof {
                        if src {
                            lemma_keeps_sub(mc, mem@, fa_b.remove(frame_of(n1 as int)), fa_a);
                            lemma_table1_kept(m0, mem@, mem@, f0, fa_b, fresh, fa.frames(), fa.frames(),
                                pte_target(e2) as int, n1 as int, 512);
                            lemma_table2_step(m0, mc, mem@, f0, fresh, fa_a, fa.frames(), self.root as int, root as int,
                                i as int, n1 as int);
                        }
                    }
                }
            } else {
                proof {
                    if src {
                        assert(entry(mem@, root as u64, i as int) == 0);
                        assert(top_copy(m0, mem@, f0, fresh, fa_a, self.root as int, root as int, i as int));
                        assert(table2_copied(m0, mem@, f0, fresh, fa.frames(), self.root as int, root as int, i + 1));
                    }
                }
            }
            proof {
                if src && !points_down(e2) {
                    assert(need2(m0, self.root as int, i + 1) == need2(m0, self.root as int, i as int));
                }
            }
            i += 1;
        }
        proof {
            lemma_full_iff(*fa);
            if src {
                lemma_table2_kept(m0, mem@, mem@, f0, fresh, f0, fa.frames(), fa.frames(), self.root as int, root as int, 512);
            }
        }
        Some(copy)
    }
}

/// A copy stays a copy of its source as it was, while its own frames
/// keep their bytes.
pub proof fn lemma_copy_kept(m0: Seq<u8>, m: Seq<u8>, m2: Seq<u8>, f0: Set<int>, live: Set<int>, live2: Set<int>,
    root: int, nroot: int)
    requires
        m.len() == POOL_SIZE,
        copy_of(m0, m, f0, live, root, nroot),
        keeps_frames(m, m2, live),
        live.subset_of(live2),
    ensures
        copy_of(m0, m2, f0, live2, root, nroot),
{
    lemma_table2_kept(m0, m, m2, f0, f0, f0, live, live2, root, nroot, 512);
}

/// Where a walk of a copy ends relative to the walk of its source: both
/// nowhere, at the same address, or at the same offset of a pool page that
/// was free in `fresh` and holds what the source's page held (when that
/// page lay in a frame of `f0`).
pub open spec fn walk_copied(m0: Seq<u8>, m: Seq<u8>, f0: Set<int>, fresh: Set<int>, a: Option<int>, b: Option<int>) -> bool {
    match a {
        None => b is None,
        Some(x) => match b {
            None => false,
            Some(y) => x == y || {
                let off = x % 4096;
                &&& y % 4096 == off
                &&& pool_page(x - off)
                &&& pool_page(y - off)
                &&& !fresh.contains(frame_of(y - off))
                &&& f0.contains(frame_of(x - off)) ==> page_bytes(m, y - off) == page_bytes(m0, x - off)
            },
        },
    }
}

proof fn lemma_copy_walk0(m0: Seq<u8>, m: Seq<u8>, f0: Set<int>, fresh: Set<int>, live: Set<int>, t0: int, n0: int, va: usize)
    requires
        table0_copied(m0, m, f0, fresh, live, t0, n0, 512),
    ensures
        walk_copied(m0, m, f0, fresh, walk_from(m0, t0 as u64, va, 0), walk_from(m, n0 as u64, va, 0)),
        walk_user(m, n0 as u64, va, 0) == walk_user(m0, t0 as u64, va, 0),
{
    let j = vpn_of(va, 0);
    assert(0 <= j < 512) by {
        assert((va >> 12usize) & 0x1ff < 512) by (bit_vector);
    }
    assert(leaf_copy(m0, m, f0, fresh, live, t0, n0, j));
    let se = entry(m0, t0 as u64, j);
    let de = entry(m, n0 as u64, j);
    let off = va & page_mask(0);
    assert(off < 4096) by {
        assert(va & 0xfff < 4096) by (bit_vector);
    }
    assert(0u64 & 1u64 == 0u64) by (bit_vector);
    if valid(se) && leafy(se) && pool_page(pte_target(se) as int) {
        let q = pte_target(de) as int;
        lemma_moved(se, q);
        lemma_pte_target(se);
        let x = pte_target(se) + off;
        let y = q + off;
        assert(x % 4096 == off);
        assert(y % 4096 == off);
    }
}

proof fn lemma_copy_walk1(m0: Seq<u8>, m: Seq<u8>, f0: Set<int>, fresh: Set<int>, live: Set<int>, t1: int, n1: int, va: usize)
    requires
        table1_copied(m0, m, f0, fresh, live, t1, n1, 512),
    ensures
        walk_copied(m0, m, f0, fresh, walk_from(m0, t1 as u64, va, 1), walk_from(m, n1 as u64, va, 1)),
        walk_user(m, n1 as u64, va, 1) == walk_user(m0, t1 as u64, va, 1),
{
    let j = vpn_of(va, 1);
    assert(0 <= j < 512) by {
        assert((va >> 21usize) & 0x1ff < 512) by (bit_vector);
    }
    assert(mid_copy(m0, m, f0, fresh, live, t1, n1, j));
    assert(0u64 & 1u64 == 0u64) by (bit_vector);
    let se = entry(m0, t1 as u64, j);
    if points_down(se) {
        let n0 = pte_target(entry(m, n1 as u64, j)) as int;
        lemma_pte_build(n0 as u64, 0);
        lemma_copy_walk0(m0, m, f0, fresh, live, pte_target(se) as int, n0, va);
    }
}

proof fn lemma_copy_walk2(m0: Seq<u8>, m: Seq<u8>, f0: Set<int>, fresh: Set<int>, live: Set<int>, t2: int, n2: int, va: usize)
    requires
        table2_copied(m0, m, f0, fresh, live, t2, n2, 512),
    ensures
        walk_copied(m0, m, f0, fresh, walk_from(m0, t2 as u64, va, 2), walk_from(m, n2 as u64, va, 2)),
        walk_user(m, n2 as u64, va, 2) == walk_user(m0, t2 as u64, va, 2),
{
    let i = vpn_of(va, 2);
    assert(0 <= i < 512) by {
        assert((va >> 30usize) & 0x1ff < 512) by (bit_vector);
    }
    assert(top_copy(m0, m, f0, fresh, live, t2, n2, i));
    assert(0u64 & 1u64 == 0u64) by (bit_vector);
    let se = entry(m0, t2 as u64, i);
    if points_down(se) {
        let n1 = pte_target(entry(m, n2 as u64, i)) as int;
        lemma_pte_build(n1 as u64, 0);
        lemma_copy_walk1(m0, m, f0, fresh, live, pte_target(se) as int, n1, va);
    }
}

/// A deep copy translates exactly the addresses its source translates.
/// Each lands where the source lands or in a frame that was free before
/// the copy, and through the copy one reads what the source held at every
/// address in an allocated frame.
pub proof fn lemma_copy_translation(m0: Seq<u8>, m: Seq<u8>, f0: Set<int>, live: Set<int>, root: usize, nroot: usize, va: usize)
    requires
        m0.len() == POOL_SIZE,
        m.len() == POOL_SIZE,
        copy_of(m0, m, f0, live, root as int, nroot as int),
        keeps_frames(m0, m, f0),
    ensures
        (translation(m, nroot, va) is Some) == (translation(m0, root, va) is Some),
        translation(m, nroot, va) matches Some(q) ==> (translation(m0, root, va) == Some(q)
            || !f0.contains(frame_of(q as int))),
        translation(m0, root, va) matches Some(p) ==> (in_pool(p as int, 1) && f0.contains(frame_of(p as int))
            ==> user_byte(m, nroot, va, 0) == user_byte(m0, root, va, 0)),
{
    lemma_copy_walk2(m0, m, f0, f0, live, root as int, nroot as int, va);
    assert((va + 0) as usize == va);
    let a = walk_from(m0, root as u64, va, 2);
    let b = walk_from(m, nroot as u64, va, 2);
    if let Some(x) = a {
        if let Some(y) = b {
            if x != y {
                let off = x % 4096;
                assert(frame_of(y) == frame_of(y - off));
                assert(frame_of(x) == frame_of(x - off));
                assert(page_bytes(m, y - off)[off] == m[y - POOL_BASE]);
                assert(page_bytes(m0, x - off)[off] == m0[x - POOL_BASE]);
            }
        }
    }
}

} // verus!
