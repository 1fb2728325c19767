//! Physical frame allocator: hands out 4 KiB frames from the pool for page
//! tables and payload memory. A plain bitmap (one bit per frame, 1 =
//! allocated) with a search hint and a live count; freed frames return to
//! the pool so many payload runs don't exhaust it.
use vstd::prelude::*;
use vstd::set_lib::{set_int_range, lemma_int_range, lemma_len_subset};
use crate::phys::{PhysMem, POOL_BASE, POOL_END, POOL_SIZE, phys_zero, in_pool};

verus! {

pub const FRAME_SIZE: usize = 4096;
/// Frames in the pool.
pub const POOL_FRAMES: usize = 31744;
/// 64-bit words in the bitmap.
pub const BITMAP_WORDS: usize = 496;

/// Whether bit `b` of word `w` is set.
pub open spec fn bit_set(w: u64, b: u64) -> bool {
    w & (1u64 << b) != 0
}

/// Setting a bit sets that bit and keeps the others.
pub proof fn lemma_bit_or(w: u64, b: u64, c: u64)
    requires
        b < 64,
        c < 64,
    ensures
        bit_set(w | (1u64 << b), c) == (c == b || bit_set(w, c)),
        bit_set(w & !(1u64 << b), c) == (c != b && bit_set(w, c)),
{
    assert(((w | (1u64 << b)) & (1u64 << c) != 0) == (c == b || w & (1u64 << c) != 0)
        && ((w & !(1u64 << b)) & (1u64 << c) != 0) == (c != b && w & (1u64 << c) != 0)) by (bit_vector)
        requires b < 64, c < 64;
}

/// The physical address of frame `f`.
pub open spec fn frame_pa(f: int) -> int {
    POOL_BASE + f * FRAME_SIZE
}

/// The bitmap allocator.
pub struct FrameAllocator {
    bitmap: Vec<u64>,
    next_hint: usize,
    allocated: usize,
    /// The allocated frames (indices into the pool).
    used: Ghost<Set<int>>,
}

impl FrameAllocator {
    /// The allocated frames.
    pub closed spec fn frames(&self) -> Set<int> {
        self.used@
    }

    /// The live allocation count.
    pub closed spec fn count(&self) -> nat {
        self.allocated as nat
    }

    /// Where the next search starts.
    pub closed spec fn hint(&self) -> nat {
        self.next_hint as nat
    }

    /// Whether frame `f`'s bit is set.
    pub closed spec fn bit(&self, f: int) -> bool {
        bit_set(self.bitmap@[f / 64], (f % 64) as u64)
    }

    pub closed spec fn wf(&self) -> bool {
        &&& self.bitmap@.len() == BITMAP_WORDS
        &&& self.used@.finite()
        &&& self.used@.subset_of(set_int_range(0, POOL_FRAMES as int))
        &&& self.allocated == self.used@.len()
        &&& forall|f: int| 0 <= f < POOL_FRAMES ==> (#[trigger] self.bit(f) <==> self.used@.contains(f))
    }

    /// An empty allocator.
    pub fn new() -> (a: FrameAllocator)
        ensures
            a.wf(),
            a.frames() == Set::<int>::empty(),
            a.count() == 0,
            a.hint() == 0,
    {
        let bitmap = vec![0u64; BITMAP_WORDS];
        let a = FrameAllocator { bitmap, next_hint: 0, allocated: 0, used: Ghost(Set::empty()) };
        assert forall|f: int| 0 <= f < POOL_FRAMES implies (#[trigger] a.bit(f) <==> a.used@.contains(f)) by {
            assert(a.bitmap@[f / 64] == 0);
            let b = (f % 64) as u64;
            assert(0u64 & (1u64 << b) == 0) by (bit_vector);
        }
        a
    }
}

/// Whether frame `frame` is allocated.
pub fn test(fa: &FrameAllocator, frame: usize) -> (r: bool)
    requires
        fa.wf(),
        frame < POOL_FRAMES,
    ensures
        r == fa.frames().contains(frame as int),
{
    assert(fa.bit(frame as int) <==> fa.used@.contains(frame as int));
    fa.bitmap[frame / 64] & (1u64 << ((frame % 64) as u64)) != 0
}

/// The search order: frames from `start` upward, wrapping.
pub open spec fn probe(start: int, i: int) -> int {
    (start + i) % (POOL_FRAMES as int)
}

/// The outcome of `alloc_frame`: the first free frame in search order from the
/// hint is taken and zeroed, or the pool is full and nothing changes.
pub open spec fn alloc_post(before: FrameAllocator, after: FrameAllocator, m0: Seq<u8>, m1: Seq<u8>, r: Option<usize>) -> bool {
    let start = (before.hint() % (POOL_FRAMES as nat)) as int;
    match r {
        Some(pa) => exists|i: int| {
            &&& 0 <= i < POOL_FRAMES
            &&& #[trigger] probe(start, i) == (pa - POOL_BASE) / (FRAME_SIZE as int)
            &&& pa == frame_pa(probe(start, i))
            &&& !before.frames().contains(probe(start, i))
            &&& forall|j: int| 0 <= j < i ==> before.frames().contains(#[trigger] probe(start, j))
            &&& after.frames() == before.frames().insert(probe(start, i))
            &&& after.count() == before.count() + 1
            &&& after.hint() == probe(start, i) + 1
            &&& m1 == m0.take(pa - POOL_BASE) + Seq::new(FRAME_SIZE as nat, |k: int| 0u8) + m0.skip(pa - POOL_BASE + FRAME_SIZE)
        },
        None => {
            &&& forall|f: int| 0 <= f < POOL_FRAMES ==> before.frames().contains(f)
            &&& after == before
            &&& m1 == m0
        },
    }
}

/// The pool is full exactly when every frame is allocated, and the count
/// never exceeds the pool.
pub proof fn lemma_full_iff(fa: FrameAllocator)
    requires
        fa.wf(),
    ensures
        (forall|f: int| 0 <= f < POOL_FRAMES ==> fa.frames().contains(f)) <==> fa.count() == POOL_FRAMES,
        fa.count() <= POOL_FRAMES,
{
    lemma_int_range(0, POOL_FRAMES as int);
    lemma_frames_in_range(fa);
    lemma_len_subset(fa.frames(), set_int_range(0, POOL_FRAMES as int));
    if forall|f: int| 0 <= f < POOL_FRAMES ==> fa.frames().contains(f) {
        assert(fa.frames() =~= set_int_range(0, POOL_FRAMES as int));
    }
    if fa.count() == POOL_FRAMES {
        assert forall|f: int| 0 <= f < POOL_FRAMES implies fa.frames().contains(f) by {
            if !fa.frames().contains(f) {
                lemma_len_subset(fa.frames().insert(f), set_int_range(0, POOL_FRAMES as int));
            }
        }
    }
}

/// Allocate one zeroed frame; its physical address, or None if the pool is
/// exhausted.
pub fn alloc_frame(fa: &mut FrameAllocator, mem: &mut PhysMem) -> (r: Option<usize>)
    requires
        old(fa).wf(),
        old(mem).wf(),
    ensures
        final(fa).wf(),
        final(mem).wf(),
        alloc_post(*old(fa), *final(fa), old(mem)@, final(mem)@, r),
        r matches Some(pa) ==> pa % FRAME_SIZE == 0 && in_pool(pa as int, FRAME_SIZE as int),
        r is Some <==> old(fa).count() < POOL_FRAMES,
{
    proof {
        lemma_full_iff(*fa);
    }
    let start = fa.next_hint % POOL_FRAMES;
    let mut i: usize = 0;
    while i < POOL_FRAMES
        invariant
            fa == old(fa),
            mem == old(mem),
            mem.wf(),
            fa.wf(),
            start == (fa.hint() % (POOL_FRAMES as nat)) as int,
            i <= POOL_FRAMES,
            forall|j: int| 0 <= j < i ==> fa.frames().contains(#[trigger] probe(start as int, j)),
        decreases POOL_FRAMES - i,
    {
        let frame = (start + i) % POOL_FRAMES;
        if !test(fa, frame) {
            let w = frame / 64;
            let b = (frame % 64) as u64;
            let old_word = fa.bitmap[w];
            proof {
                lemma_int_range(0, POOL_FRAMES as int);
                lemma_len_subset(fa.used@.insert(frame as int), set_int_range(0, POOL_FRAMES as int));
            }
            fa.bitmap.set(w, old_word | (1u64 << b));
            fa.allocated = fa.allocated + 1;
            fa.next_hint = frame + 1;
            proof {
                fa.used@ = fa.used@.insert(frame as int);
                assert forall|f: int| 0 <= f < POOL_FRAMES implies (#[trigger] fa.bit(f) <==> fa.used@.contains(f)) by {
                    lemma_bit_or(old(fa).bitmap@[f / 64], b, (f % 64) as u64);
                    assert(old(fa).bit(f) <==> old(fa).used@.contains(f));
                    if f / 64 == w as int {
                        assert(fa.bitmap@[f / 64] == old_word | (1u64 << b));
                        assert((f % 64) as u64 == b <==> f == frame as int);
                    } else {
                        assert(fa.bitmap@[f / 64] == old(fa).bitmap@[f / 64]);
                        assert(f != frame as int);
                    }
                }
            }
            let pa = POOL_BASE + frame * FRAME_SIZE;
            phys_zero(mem, pa, FRAME_SIZE);
            proof {
                assert(probe(start as int, i as int) == (pa - POOL_BASE) / (FRAME_SIZE as int));
            }
            return Some(pa);
        }
        i += 1;
    }
    proof {
        assert forall|f: int| 0 <= f < POOL_FRAMES implies fa.frames().contains(f) by {
            let j = (f - start + POOL_FRAMES) % (POOL_FRAMES as int);
            assert(probe(start as int, j) == f);
        }
    }
    None
}

/// The outcome of `free`: a frame this allocator handed out is returned to
/// the pool; any other address leaves the allocator as it was.
pub open spec fn free_post(before: FrameAllocator, after: FrameAllocator, pa: usize) -> bool {
    let f = (pa - POOL_BASE) / (FRAME_SIZE as int);
    if in_pool(pa as int, 1) && (pa - POOL_BASE) % (FRAME_SIZE as int) == 0 && before.frames().contains(f) {
        &&& after.frames() == before.frames().remove(f)
        &&& after.count() == before.count() - 1
        &&& after.hint() == before.hint()
    } else {
        &&& after.frames() == before.frames()
        &&& after.count() == before.count()
        &&& after.hint() == before.hint()
    }
}

/// Return a frame to the pool. An address outside the pool, unaligned, or
/// not allocated is ignored.
pub fn free(fa: &mut FrameAllocator, pa: usize)
    requires
        old(fa).wf(),
    ensures
        final(fa).wf(),
        free_post(*old(fa), *final(fa), pa),
{
    if !(POOL_BASE <= pa && pa < POOL_END) || (pa - POOL_BASE) % FRAME_SIZE != 0 {
        return;
    }
    let frame = (pa - POOL_BASE) / FRAME_SIZE;
    if test(fa, frame) {
        let w = frame / 64;
        let b = (frame % 64) as u64;
        let old_word = fa.bitmap[w];
        fa.bitmap.set(w, old_word & !(1u64 << b));
        fa.allocated = fa.allocated - 1;
        proof {
            fa.used@ = fa.used@.remove(frame as int);
            assert forall|f: int| 0 <= f < POOL_FRAMES implies (#[trigger] fa.bit(f) <==> fa.used@.contains(f)) by {
                lemma_bit_or(old(fa).bitmap@[f / 64], b, (f % 64) as u64);
                assert(old(fa).bit(f) <==> old(fa).used@.contains(f));
                if f / 64 == w as int {
                    assert(fa.bitmap@[f / 64] == old_word & !(1u64 << b));
                    assert((f % 64) as u64 == b <==> f == frame as int);
                } else {
                    assert(fa.bitmap@[f / 64] == old(fa).bitmap@[f / 64]);
                    assert(f != frame as int);
                }
            }
        }
    }
}

/// Live frame count and pool capacity.
pub fn stats(fa: &FrameAllocator) -> (r: (usize, usize))
    requires
        fa.wf(),
    ensures
        r.0 == fa.count(),
        r.0 == fa.frames().len(),
        r.1 == POOL_FRAMES,
{
    (fa.allocated, POOL_FRAMES)
}

/// The allocated frames all lie in the pool, and the live count is their
/// number.
pub proof fn lemma_frames_in_range(fa: FrameAllocator)
    requires
        fa.wf(),
    ensures
        fa.frames().finite(),
        fa.frames().subset_of(set_int_range(0, POOL_FRAMES as int)),
        fa.count() == fa.frames().len(),
{
}

/// No frame is handed out twice: a frame `alloc` returns was not allocated
/// before, and is allocated after.
pub proof fn lemma_alloc_fresh(before: FrameAllocator, after: FrameAllocator, m0: Seq<u8>, m1: Seq<u8>, pa: usize)
    requires
        alloc_post(before, after, m0, m1, Some(pa)),
    ensures
        !before.frames().contains((pa - POOL_BASE) / (FRAME_SIZE as int)),
        after.frames().contains((pa - POOL_BASE) / (FRAME_SIZE as int)),
{
}

/// Freeing what `alloc` just returned brings the allocator back to its
/// baseline: the same frames, the same live count.
pub proof fn lemma_free_undoes_alloc(a0: FrameAllocator, a1: FrameAllocator, a2: FrameAllocator, m0: Seq<u8>, m1: Seq<u8>, pa: usize)
    requires
        a0.wf(),
        alloc_post(a0, a1, m0, m1, Some(pa)),
        free_post(a1, a2, pa),
    ensures
        a2.frames() == a0.frames(),
        a2.count() == a0.count(),
{
    let start = (a0.hint() % (POOL_FRAMES as nat)) as int;
    let i = choose|i: int| {
        &&& 0 <= i < POOL_FRAMES
        &&& #[trigger] probe(start, i) == (pa - POOL_BASE) / (FRAME_SIZE as int)
        &&& pa == frame_pa(probe(start, i))
        &&& !a0.frames().contains(probe(start, i))
        &&& forall|j: int| 0 <= j < i ==> a0.frames().contains(#[trigger] probe(start, j))
        &&& a1.frames() == a0.frames().insert(probe(start, i))
        &&& a1.count() == a0.count() + 1
        &&& a1.hint() == probe(start, i) + 1
        &&& m1 == m0.take(pa - POOL_BASE) + Seq::new(FRAME_SIZE as nat, |k: int| 0u8) + m0.skip(pa - POOL_BASE + FRAME_SIZE)
    };
    let f = probe(start, i);
    assert(0 <= f < POOL_FRAMES);
    assert((pa - POOL_BASE) % (FRAME_SIZE as int) == 0);
    assert(a2.frames() =~= a0.frames());
}


/// The frames of `frames` whose pool address is not in `pas`: what is left
/// allocated after each address in `pas` is freed, in any order.
pub open spec fn without_pas(frames: Set<int>, pas: Set<int>) -> Set<int> {
    frames.filter(|f: int| !pas.contains(POOL_BASE + f * (FRAME_SIZE as int)))
}

/// One `free` drops exactly the frame at that address, if it was allocated.
pub proof fn lemma_free_drops(before: FrameAllocator, after: FrameAllocator, pa: usize)
    requires
        before.wf(),
        free_post(before, after, pa),
    ensures
        after.frames() == without_pas(before.frames(), set![pa as int]),
{
    lemma_frames_in_range(before);
    let f = (pa - POOL_BASE) / (FRAME_SIZE as int);
    assert forall|g: int| before.frames().contains(g) && POOL_BASE + g * (FRAME_SIZE as int) == pa
        implies in_pool(pa as int, 1) && (pa - POOL_BASE) % (FRAME_SIZE as int) == 0 && g == f by {
        assert(set_int_range(0, POOL_FRAMES as int).contains(g));
    }
    assert(after.frames() =~= without_pas(before.frames(), set![pa as int]));
}

/// Freeing one set of addresses and then another frees their union.
pub proof fn lemma_without_union(s: Set<int>, a: Set<int>, b: Set<int>)
    ensures
        without_pas(without_pas(s, a), b) == without_pas(s, a.union(b)),
{
    assert(without_pas(without_pas(s, a), b) =~= without_pas(s, a.union(b)));
}

} // verus!
