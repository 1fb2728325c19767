use kernai::elf::{arena_offset, arena_read, arena_write, arena_zero, load, u16_at, u32_at, u64_at, Arena, ElfError,
    ARENA_BASE, ARENA_SIZE};

fn header(entry: u64, phoff: u64, phentsize: u16, phnum: u16) -> Vec<u8> {
    let mut img = vec![0u8; 64];
    img[0..4].copy_from_slice(&[0x7f, b'E', b'L', b'F']);
    img[4] = 2;
    img[5] = 1;
    img[18..20].copy_from_slice(&243u16.to_le_bytes());
    img[24..32].copy_from_slice(&entry.to_le_bytes());
    img[32..40].copy_from_slice(&phoff.to_le_bytes());
    img[54..56].copy_from_slice(&phentsize.to_le_bytes());
    img[56..58].copy_from_slice(&phnum.to_le_bytes());
    img
}

fn phdr(p_type: u32, offset: u64, vaddr: u64, filesz: u64, memsz: u64) -> Vec<u8> {
    let mut ph = vec![0u8; 56];
    ph[0..4].copy_from_slice(&p_type.to_le_bytes());
    ph[8..16].copy_from_slice(&offset.to_le_bytes());
    ph[16..24].copy_from_slice(&vaddr.to_le_bytes());
    ph[32..40].copy_from_slice(&filesz.to_le_bytes());
    ph[40..48].copy_from_slice(&memsz.to_le_bytes());
    ph
}

fn base() -> u64 {
    ARENA_BASE as u64
}

#[test]
fn loads_segments_and_zeroes_bss() {
    let mut img = header(base() + 4, 64, 56, 2);
    img.extend(phdr(1, 176, base() + 0x100, 3, 8));
    img.extend(phdr(4, 0, 0, 0, 0));
    img.extend_from_slice(b"abc");
    let mut a = Arena::new();
    arena_write(&mut a, 0x103, b"zzzzzz");
    assert_eq!(load(&img, &mut a), Ok(ARENA_BASE + 4));
    assert_eq!(&a.as_bytes()[0x100..0x109], b"abc\0\0\0\0\0z");
}

#[test]
fn header_errors_in_order() {
    let mut a = Arena::new();
    assert_eq!(load(&[0u8; 63], &mut a), Err(ElfError::TooShort));
    assert_eq!(load(&[0u8; 64], &mut a), Err(ElfError::BadMagic));
    let mut img = header(base(), 64, 56, 0);
    img[4] = 1;
    assert_eq!(load(&img, &mut a), Err(ElfError::NotElf64Rv));
    let mut img = header(base(), 64, 56, 0);
    img[18] = 62;
    assert_eq!(load(&img, &mut a), Err(ElfError::NotElf64Rv));
    let img = header(base(), 64, 55, 0);
    assert_eq!(load(&img, &mut a), Err(ElfError::BadProgramHeaders));
    let img = header(base(), 64, 56, 1);
    assert_eq!(load(&img, &mut a), Err(ElfError::BadProgramHeaders));
    let img = header(base(), u64::MAX, 56, 1);
    assert_eq!(load(&img, &mut a), Err(ElfError::BadProgramHeaders));
}

#[test]
fn segment_errors() {
    let mut a = Arena::new();
    let mut img = header(base(), 64, 56, 1);
    img.extend(phdr(1, 0, base() - 1, 0, 0));
    assert_eq!(load(&img, &mut a), Err(ElfError::SegmentOutOfArena));
    let mut img = header(base(), 64, 56, 1);
    img.extend(phdr(1, 0, base(), 8, 4));
    assert_eq!(load(&img, &mut a), Err(ElfError::BadProgramHeaders));
    let mut img = header(base(), 64, 56, 1);
    img.extend(phdr(1, 100, base(), 100, 100));
    assert_eq!(load(&img, &mut a), Err(ElfError::BadProgramHeaders));
    let mut img = header(base(), 64, 56, 1);
    img.extend(phdr(1, 0, base() + ARENA_SIZE as u64 - 2, 4, 4));
    assert_eq!(load(&img, &mut a), Err(ElfError::SegmentOutOfArena));
    let mut img = header(base(), 64, 56, 1);
    img.extend(phdr(1, 0, base() + ARENA_SIZE as u64 - 4, 4, 8));
    assert_eq!(load(&img, &mut a), Err(ElfError::SegmentOutOfArena));
    assert_eq!(&a.as_bytes()[ARENA_SIZE - 4..], &[0x7f, b'E', b'L', b'F']);
}

#[test]
fn entry_must_lie_in_the_arena() {
    let mut a = Arena::new();
    let img = header(base() + ARENA_SIZE as u64, 64, 56, 0);
    assert_eq!(load(&img, &mut a), Err(ElfError::EntryOutOfArena));
    let img = header(0, 64, 56, 0);
    assert_eq!(load(&img, &mut a), Err(ElfError::EntryOutOfArena));
}

#[test]
fn error_names() {
    assert_eq!(ElfError::TooShort.as_str(), "too_short");
    assert_eq!(ElfError::NotElf64Rv.as_str(), "not_elf64_riscv");
    assert_eq!(ElfError::EntryOutOfArena.as_str(), "entry_out_of_arena");
}

#[test]
fn little_endian_readers_check_bounds() {
    let b = [1u8, 2, 3, 4, 5, 6, 7, 8, 9];
    assert_eq!(u16_at(&b, 0), Some(0x0201));
    assert_eq!(u32_at(&b, 1), Some(0x05040302));
    assert_eq!(u64_at(&b, 1), Some(0x0908070605040302));
    assert_eq!(u64_at(&b, 2), None);
    assert_eq!(u16_at(&b, usize::MAX), None);
    assert_eq!(arena_offset(base() + 5), Some(5));
    assert_eq!(arena_offset(base() - 5), None);
}

#[test]
fn arena_access_is_bounded() {
    let mut a = Arena::new();
    assert!(arena_write(&mut a, ARENA_SIZE - 2, b"ab"));
    assert!(!arena_write(&mut a, ARENA_SIZE - 1, b"ab"));
    assert!(!arena_write(&mut a, usize::MAX, b"ab"));
    assert!(arena_zero(&mut a, ARENA_SIZE - 1, 1));
    let mut buf = vec![0u8; 2];
    assert!(arena_read(&a, ARENA_SIZE - 2, &mut buf));
    assert_eq!(buf, b"a\0");
    assert!(!arena_read(&a, ARENA_SIZE - 1, &mut buf));
}

#[test]
fn loading_twice_changes_nothing() {
    let mut img = header(base() + 8, 64, 56, 2);
    img.extend(phdr(1, 176, base() + 0x200, 4, 16));
    img.extend(phdr(1, 176, base() + 0x202, 2, 2));
    img.extend_from_slice(b"wxyz");
    let mut a = Arena::new();
    arena_write(&mut a, 0x1fe, b"qqqqqqqqqqqqqqqqqqqqqq");
    let first = load(&img, &mut a);
    let after_first = a.as_bytes().to_vec();
    let second = load(&img, &mut a);
    assert_eq!(first, Ok(ARENA_BASE + 8));
    assert_eq!(second, first);
    assert_eq!(a.as_bytes().to_vec(), after_first);
    assert_eq!(&after_first[0x1fe..0x214], b"qqwxwx\0\0\0\0\0\0\0\0\0\0\0\0qqqq");
}
