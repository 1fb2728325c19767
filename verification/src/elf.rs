//! A minimal ELF64 loader for rv64 payloads: it parses an image and copies
//! its PT_LOAD segments into the payload arena through bounds-checked
//! writes. Header fields are treated as adversarial: a malformed image
//! becomes a structured error, never a panic. No dynamic linking and no
//! relocations (payloads are statically linked at `ARENA_BASE`).
use vstd::prelude::*;
use crate::console::bytes_of;

verus! {

/// Where the arena starts: payloads are linked here.
pub const ARENA_BASE: usize = 0x8040_0000;
/// The arena's size in bytes.
pub const ARENA_SIZE: usize = 0x40_0000;

/// The `p_type` of a loadable segment.
pub const PT_LOAD: u32 = 1;

/// Why an image could not be loaded (a field of the load-fault event).
#[derive(Clone, Copy, Debug, PartialEq, Eq, Structural)]
pub enum ElfError {
    TooShort,
    BadMagic,
    NotElf64Rv,
    BadProgramHeaders,
    SegmentOutOfArena,
    EntryOutOfArena,
}

/// The name of an error in the load-fault event.
pub open spec fn elf_error_text(e: ElfError) -> Seq<u8> {
    match e {
        ElfError::TooShort => bytes_of("too_short"),
        ElfError::BadMagic => bytes_of("bad_magic"),
        ElfError::NotElf64Rv => bytes_of("not_elf64_riscv"),
        ElfError::BadProgramHeaders => bytes_of("bad_program_headers"),
        ElfError::SegmentOutOfArena => bytes_of("segment_out_of_arena"),
        ElfError::EntryOutOfArena => bytes_of("entry_out_of_arena"),
    }
}

impl ElfError {
    pub fn as_str(self) -> (r: &'static str)
        ensures
            bytes_of(r) == elf_error_text(self),
    {
        match self {
            ElfError::TooShort => "too_short",
            ElfError::BadMagic => "bad_magic",
            ElfError::NotElf64Rv => "not_elf64_riscv",
            ElfError::BadProgramHeaders => "bad_program_headers",
            ElfError::SegmentOutOfArena => "segment_out_of_arena",
            ElfError::EntryOutOfArena => "entry_out_of_arena",
        }
    }
}

/// The payload arena: `ARENA_SIZE` bytes of RAM at `ARENA_BASE`.
pub struct Arena {
    bytes: Vec<u8>,
}

impl View for Arena {
    type V = Seq<u8>;

    closed spec fn view(&self) -> Seq<u8> {
        self.bytes@
    }
}

impl Arena {
    pub closed spec fn wf(&self) -> bool {
        self.bytes@.len() == ARENA_SIZE
    }

    /// A zeroed arena.
    pub fn new() -> (a: Arena)
        ensures
            a.wf(),
            a@ == Seq::new(ARENA_SIZE as nat, |i: int| 0u8),
    {
        let bytes: Vec<u8> = vec![0u8; ARENA_SIZE];
        let a = Arena { bytes };
        assert(a@ =~= Seq::new(ARENA_SIZE as nat, |i: int| 0u8));
        a
    }

    /// The arena's bytes.
    pub fn as_bytes(&self) -> (r: &[u8])
        ensures
            r@ == self@,
    {
        self.bytes.as_slice()
    }
}

/// `m` with `src` written at `off`.
pub open spec fn written(m: Seq<u8>, off: int, src: Seq<u8>) -> Seq<u8> {
    m.take(off) + src + m.skip(off + src.len())
}

/// `len` zero bytes.
pub open spec fn zeros(len: nat) -> Seq<u8> {
    Seq::new(len, |i: int| 0u8)
}

/// Copy `src` into the arena at offset `off`; false (nothing written) when
/// it would not fit.
pub fn arena_write(a: &mut Arena, off: usize, src: &[u8]) -> (ok: bool)
    requires
        old(a).wf(),
    ensures
        final(a).wf(),
        ok == (off + src@.len() <= ARENA_SIZE),
        ok ==> final(a)@ == written(old(a)@, off as int, src@),
        !ok ==> final(a)@ == old(a)@,
{
    let end = match off.checked_add(src.len()) {
        Some(e) => e,
        None => return false,
    };
    if end > ARENA_SIZE {
        return false;
    }
    let mut i: usize = 0;
    while i < src.len()
        invariant
            a.wf(),
            off + src@.len() <= ARENA_SIZE,
            i <= src@.len(),
            forall|k: int| 0 <= k < ARENA_SIZE ==> #[trigger] a.bytes@[k] == (if off <= k < off + i { src@[k - off] } else { old(a).bytes@[k] }),
        decreases src@.len() - i,
    {
        a.bytes.set(off + i, src[i]);
        i += 1;
    }
    assert(a@ =~= written(old(a)@, off as int, src@));
    true
}

/// Zero `len` arena bytes at `off`; false (nothing written) when they would
/// not fit.
pub fn arena_zero(a: &mut Arena, off: usize, len: usize) -> (ok: bool)
    requires
        old(a).wf(),
    ensures
        final(a).wf(),
        ok == (off + len <= ARENA_SIZE),
        ok ==> final(a)@ == written(old(a)@, off as int, zeros(len as nat)),
        !ok ==> final(a)@ == old(a)@,
{
    let end = match off.checked_add(len) {
        Some(e) => e,
        None => return false,
    };
    if end > ARENA_SIZE {
        return false;
    }
    let mut i: usize = 0;
    while i < len
        invariant
            a.wf(),
            off + len <= ARENA_SIZE,
            i <= len,
            forall|k: int| 0 <= k < ARENA_SIZE ==> #[trigger] a.bytes@[k] == (if off <= k < off + i { 0u8 } else { old(a).bytes@[k] }),
        decreases len - i,
    {
        a.bytes.set(off + i, 0);
        i += 1;
    }
    assert(a@ =~= written(old(a)@, off as int, zeros(len as nat)));
    true
}

/// Copy `buf.len()` arena bytes at `off` into `buf`; false when out of the
/// arena.
pub fn arena_read(a: &Arena, off: usize, buf: &mut Vec<u8>) -> (ok: bool)
    requires
        a.wf(),
    ensures
        final(buf)@.len() == old(buf)@.len(),
        ok == (off + old(buf)@.len() <= ARENA_SIZE),
        ok ==> final(buf)@ == a@.subrange(off as int, off + old(buf)@.len()),
        !ok ==> final(buf)@ == old(buf)@,
{
    let end = match off.checked_add(buf.len()) {
        Some(e) => e,
        None => return false,
    };
    if end > ARENA_SIZE {
        return false;
    }
    let n = buf.len();
    let mut i: usize = 0;
    while i < n
        invariant
            a.wf(),
            off + n <= ARENA_SIZE,
            n == buf@.len(),
            n == old(buf)@.len(),
            i <= n,
            buf@.take(i as int) == a@.subrange(off as int, off + i),
        decreases n - i,
    {
        buf.set(i, a.bytes[off + i]);
        assert(buf@.take(i + 1) =~= a@.subrange(off as int, off + i + 1));
        i += 1;
    }
    assert(buf@.take(n as int) =~= buf@);
    true
}

/// The little-endian `u16` at `off`, if it lies in `b`.
pub open spec fn le16_at(b: Seq<u8>, off: int) -> Option<u16> {
    if 0 <= off && off + 2 <= b.len() { Some((b[off] + 256 * b[off + 1]) as u16) } else { None }
}

/// The little-endian `u32` at `off`, if it lies in `b`.
pub open spec fn le32_at(b: Seq<u8>, off: int) -> Option<u32> {
    if 0 <= off && off + 4 <= b.len() {
        Some((b[off] + 0x100 * b[off + 1] + 0x1_0000 * b[off + 2] + 0x100_0000 * b[off + 3]) as u32)
    } else {
        None
    }
}

/// The little-endian `u64` at `off`, if it lies in `b`.
pub open spec fn le64_at(b: Seq<u8>, off: int) -> Option<u64> {
    if 0 <= off && off + 8 <= b.len() {
        Some((b[off] + 0x100 * b[off + 1] + 0x1_0000 * b[off + 2] + 0x100_0000 * b[off + 3]
            + 0x1_0000_0000 * b[off + 4] + 0x100_0000_0000 * b[off + 5] + 0x1_0000_0000_0000 * b[off + 6]
            + 0x100_0000_0000_0000 * b[off + 7]) as u64)
    } else {
        None
    }
}

pub fn u16_at(b: &[u8], off: usize) -> (r: Option<u16>)
    ensures
        r == le16_at(b@, off as int),
{
    if off > b.len() || b.len() - off < 2 {
        return None;
    }
    Some((b[off] as u16) + 256 * (b[off + 1] as u16))
}

pub fn u32_at(b: &[u8], off: usize) -> (r: Option<u32>)
    ensures
        r == le32_at(b@, off as int),
{
    if off > b.len() || b.len() - off < 4 {
        return None;
    }
    Some((b[off] as u32) + 0x100 * (b[off + 1] as u32) + 0x1_0000 * (b[off + 2] as u32) + 0x100_0000 * (b[off + 3] as u32))
}

pub fn u64_at(b: &[u8], off: usize) -> (r: Option<u64>)
    ensures
        r == le64_at(b@, off as int),
{
    if off > b.len() || b.len() - off < 8 {
        return None;
    }
    Some((b[off] as u64) + 0x100 * (b[off + 1] as u64) + 0x1_0000 * (b[off + 2] as u64) + 0x100_0000 * (b[off + 3] as u64)
        + 0x1_0000_0000 * (b[off + 4] as u64) + 0x100_0000_0000 * (b[off + 5] as u64)
        + 0x1_0000_0000_0000 * (b[off + 6] as u64) + 0x100_0000_0000_0000 * (b[off + 7] as u64))
}

/// The arena offset of the virtual address `vaddr`, if it is at or above
/// the arena base.
pub open spec fn arena_off(vaddr: u64) -> Option<usize> {
    if vaddr < ARENA_BASE || vaddr - ARENA_BASE > usize::MAX { None } else { Some((vaddr - ARENA_BASE) as usize) }
}

pub fn arena_offset(vaddr: u64) -> (r: Option<usize>)
    ensures
        r == arena_off(vaddr),
{
    let base = ARENA_BASE as u64;
    if vaddr < base {
        return None;
    }
    let d = vaddr - base;
    if d > usize::MAX as u64 {
        return None;
    }
    Some(d as usize)
}


/// Loading the program header at `ph` into the arena `m`: the arena after,
/// and the error that stopped the load, if any. A PT_LOAD segment's file
/// bytes are copied to its arena offset, then its tail (`.bss`, the part of
/// `memsz` past `filesz`) is zeroed; other segments are skipped.
#[verifier::opaque]
pub open spec fn segment_effect(image: Seq<u8>, ph: int, m: Seq<u8>) -> (Seq<u8>, Option<ElfError>) {
    let bad = (m, Some(ElfError::BadProgramHeaders));
    match le32_at(image, ph) {
        None => bad,
        Some(ty) => if ty != PT_LOAD {
            (m, None)
        } else {
            match (le64_at(image, ph + 8), le64_at(image, ph + 16), le64_at(image, ph + 32), le64_at(image, ph + 40)) {
                (Some(off), Some(vaddr), Some(fs), Some(ms)) => match arena_off(vaddr) {
                    None => (m, Some(ElfError::SegmentOutOfArena)),
                    Some(dst) => if fs > usize::MAX || ms > usize::MAX || ms < fs || off > usize::MAX
                        || off + fs > usize::MAX || off + fs > image.len() {
                        bad
                    } else if dst + fs > ARENA_SIZE {
                        (m, Some(ElfError::SegmentOutOfArena))
                    } else {
                        let m1 = written(m, dst as int, image.subrange(off as int, off + fs));
                        if dst + ms > ARENA_SIZE {
                            (m1, Some(ElfError::SegmentOutOfArena))
                        } else {
                            (written(m1, dst + fs, zeros((ms - fs) as nat)), None)
                        }
                    },
                },
                _ => bad,
            }
        },
    }
}

/// Loading the first `n` program headers of the table at `phoff`.
pub open spec fn segments_effect(image: Seq<u8>, phoff: int, phentsize: int, n: int, m: Seq<u8>) -> (Seq<u8>, Option<ElfError>)
    decreases n,
{
    if n <= 0 {
        (m, None)
    } else {
        let prev = segments_effect(image, phoff, phentsize, n - 1, m);
        if prev.1 is Some { prev } else { segment_effect(image, phoff + (n - 1) * phentsize, prev.0) }
    }
}

/// Once a header fails, the later ones are not looked at.
pub proof fn lemma_segments_stop(image: Seq<u8>, phoff: int, phentsize: int, k: int, n: int, m: Seq<u8>)
    requires
        0 <= k <= n,
        segments_effect(image, phoff, phentsize, k, m).1 is Some,
    ensures
        segments_effect(image, phoff, phentsize, n, m) == segments_effect(image, phoff, phentsize, k, m),
    decreases n - k,
{
    if k < n {
        lemma_segments_stop(image, phoff, phentsize, k, n - 1, m);
    }
}

/// Loading `image` into the arena `m`: the arena after, and the entry point
/// or the error. The checks run in order: length, magic, class/data/machine
/// (ELF64, little-endian, RISC-V), the program-header table (entries of at
/// least 56 bytes, wholly inside the image), each segment, then the entry
/// point (inside the arena).
pub open spec fn load_effect(image: Seq<u8>, m: Seq<u8>) -> (Seq<u8>, Result<usize, ElfError>) {
    if image.len() < 64 {
        (m, Err(ElfError::TooShort))
    } else if image[0] != 0x7f || image[1] != 0x45 || image[2] != 0x4c || image[3] != 0x46 {
        (m, Err(ElfError::BadMagic))
    } else if image[4] != 2 || image[5] != 1 || le16_at(image, 18) != Some(243u16) {
        (m, Err(ElfError::NotElf64Rv))
    } else {
        let entry = le64_at(image, 24).unwrap();
        let phoff = le64_at(image, 32).unwrap();
        let phentsize = le16_at(image, 54).unwrap();
        let phnum = le16_at(image, 56).unwrap();
        if phentsize < 56 || phoff > usize::MAX || phoff + phnum * phentsize > usize::MAX
            || phoff + phnum * phentsize > image.len() {
            (m, Err(ElfError::BadProgramHeaders))
        } else {
            load_tail(image, entry, phoff as int, phentsize as int, phnum as int, m)
        }
    }
}

/// The segments, then the entry point check.
pub open spec fn load_tail(image: Seq<u8>, entry: u64, phoff: int, phentsize: int, phnum: int, m: Seq<u8>)
    -> (Seq<u8>, Result<usize, ElfError>) {
    let r = segments_effect(image, phoff, phentsize, phnum, m);
    if r.1 is Some {
        (r.0, Err(r.1.unwrap()))
    } else if entry > usize::MAX || !(ARENA_BASE <= entry < ARENA_BASE + ARENA_SIZE) {
        (r.0, Err(ElfError::EntryOutOfArena))
    } else {
        (r.0, Ok(entry as usize))
    }
}

/// `b1` and `b2`, what one step left of `a1` and `a2`, agree at every
/// position the step changed in either: the step writes fixed bytes at
/// fixed positions and keeps the rest.
pub open spec fn overlaid(a1: Seq<u8>, b1: Seq<u8>, a2: Seq<u8>, b2: Seq<u8>) -> bool {
    &&& a1.len() == ARENA_SIZE && b1.len() == ARENA_SIZE && a2.len() == ARENA_SIZE && b2.len() == ARENA_SIZE
    &&& forall|i: int| 0 <= i < ARENA_SIZE ==> (#[trigger] b1[i] == b2[i] || (b1[i] == a1[i] && b2[i] == a2[i]))
}

/// Two overlaying steps make one.
proof fn lemma_overlaid_trans(a1: Seq<u8>, b1: Seq<u8>, c1: Seq<u8>, a2: Seq<u8>, b2: Seq<u8>, c2: Seq<u8>)
    requires
        overlaid(a1, b1, a2, b2),
        overlaid(b1, c1, b2, c2),
    ensures
        overlaid(a1, c1, a2, c2),
{
    assert forall|i: int| 0 <= i < ARENA_SIZE implies (#[trigger] c1[i] == c2[i] || (c1[i] == a1[i] && c2[i] == a2[i])) by {
        assert(b1[i] == b2[i] || (b1[i] == a1[i] && b2[i] == a2[i]));
        assert(c1[i] == c2[i] || (c1[i] == b1[i] && c2[i] == b2[i]));
    }
}

/// Writing the same bytes at the same offset overlays.
proof fn lemma_written_overlaid(m1: Seq<u8>, m2: Seq<u8>, off: int, src: Seq<u8>)
    requires
        m1.len() == ARENA_SIZE,
        m2.len() == ARENA_SIZE,
        0 <= off,
        off + src.len() <= ARENA_SIZE,
    ensures
        overlaid(m1, written(m1, off, src), m2, written(m2, off, src)),
{
    let w1 = written(m1, off, src);
    let w2 = written(m2, off, src);
    assert forall|i: int| 0 <= i < ARENA_SIZE implies (#[trigger] w1[i] == w2[i] || (w1[i] == m1[i] && w2[i] == m2[i])) by {
        if off <= i < off + src.len() {
            assert(w1[i] == src[i - off] && w2[i] == src[i - off]);
        } else {
            assert(w1[i] == m1[i] && w2[i] == m2[i]);
        }
    }
}

/// One program header does the same writes and reaches the same verdict
/// whatever the arena held.
proof fn lemma_segment_overlaid(image: Seq<u8>, ph: int, m1: Seq<u8>, m2: Seq<u8>)
    requires
        m1.len() == ARENA_SIZE,
        m2.len() == ARENA_SIZE,
    ensures
        segment_effect(image, ph, m1).1 == segment_effect(image, ph, m2).1,
        overlaid(m1, segment_effect(image, ph, m1).0, m2, segment_effect(image, ph, m2).0),
{
    reveal(segment_effect);
    assert(overlaid(m1, m1, m2, m2));
    if let Some(ty) = le32_at(image, ph) {
        if ty == PT_LOAD {
            if let (Some(off), Some(vaddr), Some(fs), Some(ms)) = (le64_at(image, ph + 8), le64_at(image, ph + 16),
                le64_at(image, ph + 32), le64_at(image, ph + 40)) {
                if let Some(dst) = arena_off(vaddr) {
                    if !(fs > usize::MAX || ms > usize::MAX || ms < fs || off > usize::MAX || off + fs > usize::MAX
                        || off + fs > image.len()) && dst + fs <= ARENA_SIZE {
                        let src = image.subrange(off as int, off + fs);
                        let a1 = written(m1, dst as int, src);
                        let a2 = written(m2, dst as int, src);
                        lemma_written_overlaid(m1, m2, dst as int, src);
                        if dst + ms <= ARENA_SIZE {
                            lemma_written_overlaid(a1, a2, dst + fs, zeros((ms - fs) as nat));
                            lemma_overlaid_trans(m1, a1, written(a1, dst + fs, zeros((ms - fs) as nat)),
                                m2, a2, written(a2, dst + fs, zeros((ms - fs) as nat)));
                        }
                    }
                }
            }
        }
    }
}

/// The first `n` program headers do the same writes and reach the same
/// verdict whatever the arena held.
proof fn lemma_segments_overlaid(image: Seq<u8>, phoff: int, phentsize: int, n: int, m1: Seq<u8>, m2: Seq<u8>)
    requires
        m1.len() == ARENA_SIZE,
        m2.len() == ARENA_SIZE,
    ensures
        segments_effect(image, phoff, phentsize, n, m1).1 == segments_effect(image, phoff, phentsize, n, m2).1,
        overlaid(m1, segments_effect(image, phoff, phentsize, n, m1).0, m2, segments_effect(image, phoff, phentsize, n, m2).0),
    decreases n,
{
    if n <= 0 {
        assert(overlaid(m1, m1, m2, m2));
    } else {
        lemma_segments_overlaid(image, phoff, phentsize, n - 1, m1, m2);
        let p1 = segments_effect(image, phoff, phentsize, n - 1, m1);
        let p2 = segments_effect(image, phoff, phentsize, n - 1, m2);
        if p1.1 is None {
            let ph = phoff + (n - 1) * phentsize;
            lemma_segment_overlaid(image, ph, p1.0, p2.0);
            lemma_overlaid_trans(m1, p1.0, segment_effect(image, ph, p1.0).0, m2, p2.0, segment_effect(image, ph, p2.0).0);
        }
    }
}

/// What a load returns depends on the image alone, and it writes the same
/// bytes at the same arena offsets whatever the arena held before.
pub proof fn lemma_load_overlaid(image: Seq<u8>, m1: Seq<u8>, m2: Seq<u8>)
    requires
        m1.len() == ARENA_SIZE,
        m2.len() == ARENA_SIZE,
    ensures
        load_effect(image, m1).1 == load_effect(image, m2).1,
        overlaid(m1, load_effect(image, m1).0, m2, load_effect(image, m2).0),
{
    assert(overlaid(m1, m1, m2, m2));
    if image.len() >= 64 && !(image[0] != 0x7f || image[1] != 0x45 || image[2] != 0x4c || image[3] != 0x46)
        && !(image[4] != 2 || image[5] != 1 || le16_at(image, 18) != Some(243u16)) {
        let phoff = le64_at(image, 32).unwrap();
        let phentsize = le16_at(image, 54).unwrap();
        let phnum = le16_at(image, 56).unwrap();
        lemma_segments_overlaid(image, phoff as int, phentsize as int, phnum as int, m1, m2);
    }
}

/// Loading is idempotent: loading the same image again into the arena a
/// load left behind changes nothing and gives the same result.
pub proof fn lemma_load_idempotent(image: Seq<u8>, m: Seq<u8>)
    requires
        m.len() == ARENA_SIZE,
    ensures
        load_effect(image, load_effect(image, m).0) == load_effect(image, m),
{
    assert(overlaid(m, m, m, m));
    lemma_load_overlaid(image, m, m);
    let m1 = load_effect(image, m).0;
    lemma_load_overlaid(image, m1, m);
    let m2 = load_effect(image, m1).0;
    assert(m2 =~= m1) by {
        assert forall|i: int| 0 <= i < ARENA_SIZE implies m2[i] == m1[i] by {
            assert(m2[i] == m1[i] || (m2[i] == m1[i] && m1[i] == m[i]));
        }
    }
}

/// Load the PT_LOAD segment described at `ph` (when it is one).
fn load_segment(image: &[u8], ph: usize, arena: &mut Arena) -> (r: Result<(), ElfError>)
    requires
        old(arena).wf(),
        ph + 56 <= image@.len(),
    ensures
        final(arena).wf(),
        (final(arena)@, match r { Ok(_) => None, Err(e) => Some(e) }) == segment_effect(image@, ph as int, old(arena)@),
{
    reveal(segment_effect);
    let n = image.len();
    assert(image@.len() == n);
    let p_type = match u32_at(image, ph) {
        Some(x) => x,
        None => return Err(ElfError::BadProgramHeaders),
    };
    if p_type != PT_LOAD {
        return Ok(());
    }
    let p_offset = match u64_at(image, ph + 8) {
        Some(x) => x,
        None => return Err(ElfError::BadProgramHeaders),
    };
    let p_vaddr = match u64_at(image, ph + 16) {
        Some(x) => x,
        None => return Err(ElfError::BadProgramHeaders),
    };
    let p_filesz = match u64_at(image, ph + 32) {
        Some(x) => x,
        None => return Err(ElfError::BadProgramHeaders),
    };
    let p_memsz = match u64_at(image, ph + 40) {
        Some(x) => x,
        None => return Err(ElfError::BadProgramHeaders),
    };
    let dst_off = match arena_offset(p_vaddr) {
        Some(x) => x,
        None => return Err(ElfError::SegmentOutOfArena),
    };
    if p_filesz > usize::MAX as u64 || p_memsz > usize::MAX as u64 {
        return Err(ElfError::BadProgramHeaders);
    }
    let filesz = p_filesz as usize;
    let memsz = p_memsz as usize;
    if memsz < filesz {
        return Err(ElfError::BadProgramHeaders);
    }
    if p_offset > usize::MAX as u64 {
        return Err(ElfError::BadProgramHeaders);
    }
    let src_start = p_offset as usize;
    let src_end = match src_start.checked_add(filesz) {
        Some(e) => e,
        None => return Err(ElfError::BadProgramHeaders),
    };
    if src_end > image.len() {
        return Err(ElfError::BadProgramHeaders);
    }
    let src = &image[src_start..src_end];
    if !arena_write(arena, dst_off, src) {
        return Err(ElfError::SegmentOutOfArena);
    }
    let zero_off = dst_off + filesz;
    if !arena_zero(arena, zero_off, memsz - filesz) {
        return Err(ElfError::SegmentOutOfArena);
    }
    Ok(())
}

/// Load `image` into the arena and return its entry point (an address
/// inside the arena). A malformed image is a structured error.
#[verifier::rlimit(40)]
pub fn load(image: &[u8], arena: &mut Arena) -> (r: Result<usize, ElfError>)
    requires
        old(arena).wf(),
    ensures
        final(arena).wf(),
        (final(arena)@, r) == load_effect(image@, old(arena)@),
{
    if image.len() < 64 {
        return Err(ElfError::TooShort);
    }
    if image[0] != 0x7f || image[1] != 0x45 || image[2] != 0x4c || image[3] != 0x46 {
        return Err(ElfError::BadMagic);
    }
    if image[4] != 2 || image[5] != 1 {
        return Err(ElfError::NotElf64Rv);
    }
    match u16_at(image, 18) {
        Some(243) => {},
        _ => return Err(ElfError::NotElf64Rv),
    }
    let entry = match u64_at(image, 24) {
        Some(x) => x,
        None => return Err(ElfError::TooShort),
    };
    let phoff = match u64_at(image, 32) {
        Some(x) => x,
        None => return Err(ElfError::TooShort),
    };
    let phentsize = match u16_at(image, 54) {
        Some(x) => x as usize,
        None => return Err(ElfError::TooShort),
    };
    let phnum = match u16_at(image, 56) {
        Some(x) => x as usize,
        None => return Err(ElfError::TooShort),
    };
    if phentsize < 56 {
        return Err(ElfError::BadProgramHeaders);
    }
    if phoff > usize::MAX as u64 {
        return Err(ElfError::BadProgramHeaders);
    }
    let phoff = phoff as usize;
    proof {
        assert(phnum * phentsize <= 65535 * 65535) by (nonlinear_arith)
            requires phnum <= 65535, phentsize <= 65535;
    }
    let span = phnum * phentsize;
    let table_span = match phoff.checked_add(span) {
        Some(x) => x,
        None => return Err(ElfError::BadProgramHeaders),
    };
    if table_span > image.len() {
        return Err(ElfError::BadProgramHeaders);
    }
    let ghost m0 = arena@;
    assert(image@.len() == image.len());
    assert(load_effect(image@, m0) == load_tail(image@, entry, phoff as int, phentsize as int, phnum as int, m0));
    let mut i: usize = 0;
    while i < phnum
        invariant
            arena.wf(),
            i <= phnum,
            phentsize >= 56,
            phentsize <= 65535,
            phnum <= 65535,
            image@.len() <= usize::MAX,
            phoff + phnum * phentsize <= image@.len(),
            segments_effect(image@, phoff as int, phentsize as int, i as int, m0) == (arena@, None::<ElfError>),
            load_effect(image@, m0) == load_tail(image@, entry, phoff as int, phentsize as int, phnum as int, m0),
            m0 == old(arena)@,
        decreases phnum - i,
    {
        proof {
            assert(i * phentsize + phentsize <= phnum * phentsize) by (nonlinear_arith)
                requires i < phnum, phentsize >= 0;
            assert(0 <= i * phentsize) by (nonlinear_arith)
                requires i >= 0, phentsize >= 0;
        }
        let ph = phoff + i * phentsize;
        let ghost a_before = arena@;
        proof {
            assert(segments_effect(image@, phoff as int, phentsize as int, i + 1, m0)
                == segment_effect(image@, ph as int, a_before));
        }
        match load_segment(image, ph, arena) {
            Ok(()) => {},
            Err(e) => {
                proof {
                    lemma_segments_stop(image@, phoff as int, phentsize as int, i + 1, phnum as int, m0);
                }
                return Err(e);
            },
        }
        i += 1;
    }
    if entry > usize::MAX as u64 {
        return Err(ElfError::EntryOutOfArena);
    }
    let entry_usize = entry as usize;
    if !(ARENA_BASE <= entry_usize && entry_usize < ARENA_BASE + ARENA_SIZE) {
        return Err(ElfError::EntryOutOfArena);
    }
    Ok(entry_usize)
}

} // verus!
