//! Physical memory: the frame pool the kernel hands out as 4 KiB frames (for
//! page tables and payload memory), and the bounds-checked accessors that are
//! the only way in. An access that does not lie wholly in the pool is refused.
use vstd::prelude::*;

verus! {

/// First physical address of the frame pool.
pub const POOL_BASE: usize = 0x8040_0000;
/// One past the last physical address of the frame pool.
pub const POOL_END: usize = 0x8800_0000;
/// Size of the pool in bytes.
pub const POOL_SIZE: usize = 0x07C0_0000;

/// The contents of the frame pool: byte `i` is physical address
/// `POOL_BASE + i`.
pub struct PhysMem {
    bytes: Vec<u8>,
}

impl View for PhysMem {
    type V = Seq<u8>;

    closed spec fn view(&self) -> Seq<u8> {
        self.bytes@
    }
}

impl PhysMem {
    pub open spec fn wf(&self) -> bool {
        self@.len() == POOL_SIZE
    }

    /// A zeroed pool.
    pub fn new() -> (m: PhysMem)
        ensures
            m.wf(),
            forall|i: int| 0 <= i < POOL_SIZE ==> #[trigger] m@[i] == 0,
    {
        let bytes = vec![0u8; POOL_SIZE];
        PhysMem { bytes }
    }
}

/// Whether `[pa, pa + len)` lies wholly in the pool.
pub open spec fn in_pool(pa: int, len: int) -> bool {
    POOL_BASE <= pa && pa + len <= POOL_END
}

/// The pool offset of `pa`, when `[pa, pa + len)` lies wholly in the pool.
pub fn pool_ptr(pa: usize, len: usize) -> (r: Option<usize>)
    ensures
        r.is_some() == in_pool(pa as int, len as int),
        r.is_some() ==> r.unwrap() == pa - POOL_BASE,
{
    let end = match pa.checked_add(len) {
        Some(e) => e,
        None => return None,
    };
    if pa < POOL_BASE || end > POOL_END {
        return None;
    }
    Some(pa - POOL_BASE)
}

/// Copy `bytes` to physical address `pa`, which must lie in the pool; false
/// (and nothing written) otherwise.
pub fn phys_write(mem: &mut PhysMem, pa: usize, bytes: &[u8]) -> (ok: bool)
    requires
        old(mem).wf(),
    ensures
        final(mem).wf(),
        ok == in_pool(pa as int, bytes@.len() as int),
        ok ==> final(mem)@ == old(mem)@.take(pa - POOL_BASE) + bytes@ + old(mem)@.skip(pa - POOL_BASE + bytes@.len()),
        !ok ==> final(mem)@ == old(mem)@,
{
    let off = match pool_ptr(pa, bytes.len()) {
        Some(o) => o,
        None => return false,
    };
    let mut i: usize = 0;
    while i < bytes.len()
        invariant
            off + bytes@.len() <= POOL_SIZE,
            off == pa - POOL_BASE,
            i <= bytes@.len(),
            mem.wf(),
            forall|j: int| 0 <= j < POOL_SIZE ==> #[trigger] mem@[j] == (if off <= j < off + i { bytes@[j - off] } else { old(mem)@[j] }),
        decreases bytes@.len() - i,
    {
        mem.bytes.set(off + i, bytes[i]);
        i += 1;
    }
    assert(mem@ =~= old(mem)@.take(pa - POOL_BASE) + bytes@ + old(mem)@.skip(pa - POOL_BASE + bytes@.len()));
    true
}

/// Zero `len` bytes at physical `pa`; false (and nothing written) if the
/// range leaves the pool.
pub fn phys_zero(mem: &mut PhysMem, pa: usize, len: usize) -> (ok: bool)
    requires
        old(mem).wf(),
    ensures
        final(mem).wf(),
        ok == in_pool(pa as int, len as int),
        ok ==> final(mem)@ == old(mem)@.take(pa - POOL_BASE) + Seq::new(len as nat, |i: int| 0u8)
            + old(mem)@.skip(pa - POOL_BASE + len),
        !ok ==> final(mem)@ == old(mem)@,
{
    let off = match pool_ptr(pa, len) {
        Some(o) => o,
        None => return false,
    };
    let mut i: usize = 0;
    while i < len
        invariant
            off + len <= POOL_SIZE,
            off == pa - POOL_BASE,
            i <= len,
            mem.wf(),
            forall|j: int| 0 <= j < POOL_SIZE ==> #[trigger] mem@[j] == (if off <= j < off + i { 0u8 } else { old(mem)@[j] }),
        decreases len - i,
    {
        mem.bytes.set(off + i, 0);
        i += 1;
    }
    assert(mem@ =~= old(mem)@.take(pa - POOL_BASE) + Seq::new(len as nat, |i: int| 0u8) + old(mem)@.skip(pa - POOL_BASE + len));
    true
}

/// Copy `buf.len()` bytes from physical `pa` into `buf`; false (and `buf`
/// untouched) if the range leaves the pool.
pub fn phys_read(mem: &PhysMem, pa: usize, buf: &mut Vec<u8>) -> (ok: bool)
    requires
        mem.wf(),
    ensures
        ok == in_pool(pa as int, old(buf)@.len() as int),
        ok ==> final(buf)@ == mem@.subrange(pa - POOL_BASE, pa - POOL_BASE + old(buf)@.len()),
        !ok ==> final(buf)@ == old(buf)@,
{
    let n = buf.len();
    let off = match pool_ptr(pa, n) {
        Some(o) => o,
        None => return false,
    };
    let mut i: usize = 0;
    while i < n
        invariant
            off + n <= POOL_SIZE,
            off == pa - POOL_BASE,
            mem.wf(),
            n == buf@.len(),
            i <= n,
            buf@.take(i as int) == mem@.subrange(off as int, off + i),
        decreases n - i,
    {
        buf.set(i, mem.bytes[off + i]);
        proof {
            assert(buf@.take(i + 1) =~= mem@.subrange(off as int, off + i + 1));
        }
        i += 1;
    }
    assert(buf@.take(n as int) == buf@);
    true
}

/// The little-endian value of eight bytes.
pub open spec fn le_u64(b: Seq<u8>) -> u64 {
    (b[0] as u64) | ((b[1] as u64) << 8u64) | ((b[2] as u64) << 16u64) | ((b[3] as u64) << 24u64)
        | ((b[4] as u64) << 32u64) | ((b[5] as u64) << 40u64) | ((b[6] as u64) << 48u64) | ((b[7] as u64) << 56u64)
}

/// The eight little-endian bytes of `v`.
pub open spec fn u64_le_bytes(v: u64) -> Seq<u8> {
    seq![(v & 0xff) as u8, ((v >> 8u64) & 0xff) as u8, ((v >> 16u64) & 0xff) as u8, ((v >> 24u64) & 0xff) as u8,
        ((v >> 32u64) & 0xff) as u8, ((v >> 40u64) & 0xff) as u8, ((v >> 48u64) & 0xff) as u8, ((v >> 56u64) & 0xff) as u8]
}

/// Reading back the bytes of a value gives the value.
pub proof fn lemma_u64_le_roundtrip(v: u64)
    ensures
        le_u64(u64_le_bytes(v)) == v,
        u64_le_bytes(v).len() == 8,
{
    assert(
        ((v & 0xff) < 256) && (((v >> 8u64) & 0xff) < 256) && (((v >> 16u64) & 0xff) < 256) && (((v >> 24u64) & 0xff) < 256)
        && (((v >> 32u64) & 0xff) < 256) && (((v >> 40u64) & 0xff) < 256) && (((v >> 48u64) & 0xff) < 256) && (((v >> 56u64) & 0xff) < 256)
        && v == ((v & 0xff) | (((v >> 8u64) & 0xff) << 8u64) | (((v >> 16u64) & 0xff) << 16u64) | (((v >> 24u64) & 0xff) << 24u64)
            | (((v >> 32u64) & 0xff) << 32u64) | (((v >> 40u64) & 0xff) << 40u64) | (((v >> 48u64) & 0xff) << 48u64) | (((v >> 56u64) & 0xff) << 56u64))
    ) by (bit_vector);
}

/// The eight bytes at `pa` as a page-table entry, when `pa` is an 8-aligned
/// pool address.
pub open spec fn u64_at(m: Seq<u8>, pa: int) -> Option<u64> {
    if pa % 8 == 0 && in_pool(pa, 8) {
        Some(le_u64(m.subrange(pa - POOL_BASE, pa - POOL_BASE + 8)))
    } else {
        None
    }
}

/// Read a naturally-aligned u64 at physical `pa`.
pub fn phys_read_u64(mem: &PhysMem, pa: usize) -> (r: Option<u64>)
    requires
        mem.wf(),
    ensures
        r == u64_at(mem@, pa as int),
{
    if pa % 8 != 0 {
        return None;
    }
    let off = match pool_ptr(pa, 8) {
        Some(o) => o,
        None => return None,
    };
    let b = &mem.bytes;
    let v: u64 = (b[off] as u64) | ((b[off + 1] as u64) << 8u64) | ((b[off + 2] as u64) << 16u64) | ((b[off + 3] as u64) << 24u64)
        | ((b[off + 4] as u64) << 32u64) | ((b[off + 5] as u64) << 40u64) | ((b[off + 6] as u64) << 48u64) | ((b[off + 7] as u64) << 56u64);
    proof {
        let s = mem@.subrange(off as int, off + 8);
        assert(s[0] == b@[off as int] && s[1] == b@[off + 1] && s[2] == b@[off + 2] && s[3] == b@[off + 3]);
        assert(s[4] == b@[off + 4] && s[5] == b@[off + 5] && s[6] == b@[off + 6] && s[7] == b@[off + 7]);
    }
    Some(v)
}

/// Write a naturally-aligned u64 at physical `pa`; false (nothing written)
/// unless `pa` is an 8-aligned pool address.
pub fn phys_write_u64(mem: &mut PhysMem, pa: usize, val: u64) -> (ok: bool)
    requires
        old(mem).wf(),
    ensures
        final(mem).wf(),
        ok == (pa % 8 == 0 && in_pool(pa as int, 8)),
        ok ==> final(mem)@ == old(mem)@.take(pa - POOL_BASE) + u64_le_bytes(val) + old(mem)@.skip(pa - POOL_BASE + 8),
        !ok ==> final(mem)@ == old(mem)@,
{
    if pa % 8 != 0 {
        return false;
    }
    let mut bytes: Vec<u8> = Vec::new();
    bytes.push((val & 0xff) as u8);
    bytes.push(((val >> 8u64) & 0xff) as u8);
    bytes.push(((val >> 16u64) & 0xff) as u8);
    bytes.push(((val >> 24u64) & 0xff) as u8);
    bytes.push(((val >> 32u64) & 0xff) as u8);
    bytes.push(((val >> 40u64) & 0xff) as u8);
    bytes.push(((val >> 48u64) & 0xff) as u8);
    bytes.push(((val >> 56u64) & 0xff) as u8);
    assert(bytes@ =~= u64_le_bytes(val));
    phys_write(mem, pa, bytes.as_slice())
}

} // verus!
