use kernai::frames::{alloc_frame, free, stats, FrameAllocator, POOL_FRAMES};
use kernai::mm::{map_kernel, AddressSpace, MmError, KERNEL_GIGAPAGE_VA, R, U, W, X, V, PAGE_SIZE};
use kernai::phys::{phys_read, phys_read_u64, phys_write, phys_write_u64, phys_zero, pool_ptr, PhysMem, POOL_BASE, POOL_END};

#[test]
fn phys_access_is_bounded_to_the_pool() {
    let mut m = PhysMem::new();
    assert!(phys_write(&mut m, POOL_BASE, b"abc"));
    assert!(!phys_write(&mut m, POOL_BASE - 1, b"abc"));
    assert!(!phys_write(&mut m, POOL_END - 2, b"abc"));
    let mut buf = vec![0u8; 3];
    assert!(phys_read(&m, POOL_BASE, &mut buf));
    assert_eq!(buf, b"abc");
    assert!(phys_zero(&mut m, POOL_BASE, 2));
    assert!(phys_read(&m, POOL_BASE, &mut buf));
    assert_eq!(buf, b"\0\0c");
    assert_eq!(pool_ptr(POOL_BASE + 8, 8), Some(8));
    assert_eq!(pool_ptr(usize::MAX, 2), None);
}

#[test]
fn u64_access_is_aligned_little_endian() {
    let mut m = PhysMem::new();
    assert!(phys_write_u64(&mut m, POOL_BASE + 16, 0x0102_0304_0506_0708));
    assert_eq!(phys_read_u64(&m, POOL_BASE + 16), Some(0x0102_0304_0506_0708));
    let mut b = vec![0u8; 1];
    phys_read(&m, POOL_BASE + 16, &mut b);
    assert_eq!(b[0], 0x08);
    assert!(!phys_write_u64(&mut m, POOL_BASE + 3, 1));
    assert_eq!(phys_read_u64(&m, POOL_BASE + 3), None);
}

#[test]
fn alloc_hands_out_distinct_zeroed_frames() {
    let mut fa = FrameAllocator::new();
    let mut m = PhysMem::new();
    let a = alloc_frame(&mut fa, &mut m).unwrap();
    phys_write(&mut m, a, b"dirty");
    let b = alloc_frame(&mut fa, &mut m).unwrap();
    assert_ne!(a, b);
    assert_eq!(a, POOL_BASE);
    assert_eq!(stats(&fa), (2, POOL_FRAMES));
    free(&mut fa, a);
    assert_eq!(stats(&fa), (1, POOL_FRAMES));
    assert!(!kernai::frames::test(&fa, 0));
    // A freed frame comes back zeroed.
    let mut fa2 = FrameAllocator::new();
    let c = alloc_frame(&mut fa2, &mut m).unwrap();
    assert_eq!(c, a);
    let mut buf = vec![1u8; 5];
    phys_read(&m, c, &mut buf);
    assert_eq!(buf, vec![0u8; 5]);
}

#[test]
fn free_ignores_foreign_and_double_frees() {
    let mut fa = FrameAllocator::new();
    let mut m = PhysMem::new();
    let a = alloc_frame(&mut fa, &mut m).unwrap();
    free(&mut fa, a + 1);
    free(&mut fa, 0x1000);
    free(&mut fa, POOL_END);
    assert_eq!(stats(&fa).0, 1);
    free(&mut fa, a);
    free(&mut fa, a);
    assert_eq!(stats(&fa).0, 0);
}

#[test]
fn map_and_translate_a_page() {
    let mut fa = FrameAllocator::new();
    let mut m = PhysMem::new();
    let space = AddressSpace::new(&mut fa, &mut m).unwrap();
    let data = alloc_frame(&mut fa, &mut m).unwrap();
    assert!(space.translate(&m, 0x1000).is_none());
    assert!(space.map_page(&mut fa, &mut m, 0x1000, data, R | W | U).is_ok());
    assert_eq!(space.translate(&m, 0x1234), Some(data + 0x234));
    assert!(matches!(space.map_page(&mut fa, &mut m, 0x1000, data, R | U), Err(MmError::Overlap)));
    let chain = space.walk(&m, 0x1234).entries();
    assert_eq!(chain.len(), 3);
    assert_eq!(chain[0].0, 2);
    assert_eq!(chain[2].0, 0);
    assert_eq!(chain[2].1 & (V | R | W | X | U), V | R | W | U);
    let unmapped = space.walk(&m, 0x4000_0000).entries();
    assert_eq!(unmapped.len(), 1);
    assert_eq!(unmapped[0].1 & V, 0);
}

#[test]
fn mapping_a_page_keeps_every_existing_mapping() {
    let mut fa = FrameAllocator::new();
    let mut m = PhysMem::new();
    let space = AddressSpace::new(&mut fa, &mut m).unwrap();
    map_kernel(&space, &fa, &mut m).unwrap();
    let a = alloc_frame(&mut fa, &mut m).unwrap();
    let b = alloc_frame(&mut fa, &mut m).unwrap();
    space.map_page(&mut fa, &mut m, 0x1000, a, R | W | U).unwrap();
    space.map_page(&mut fa, &mut m, 0x4020_0000, b, R | U).unwrap();
    assert_eq!(space.translate(&m, 0x1008), Some(a + 8));
    assert_eq!(space.translate(&m, KERNEL_GIGAPAGE_VA + 0x10), Some(KERNEL_GIGAPAGE_VA + 0x10));
    assert_eq!(space.translate(&m, 0x4020_0ff0), Some(b + 0xff0));
    let chain = space.walk(&m, 0x4020_0000).entries();
    assert_eq!(chain.len(), 3);
    assert_eq!(chain[2].0, 0);
    assert_eq!(chain[2].1, ((b as u64 >> 12) << 10) | R | U | V | 0x40 | 0x80);
}

#[test]
fn map_page_out_of_frames_mid_walk_keeps_the_level1_table() {
    let mut fa = FrameAllocator::new();
    let mut m = PhysMem::new();
    let space = AddressSpace::new(&mut fa, &mut m).unwrap();
    let data = alloc_frame(&mut fa, &mut m).unwrap();
    let mut held = Vec::new();
    while let Some(f) = alloc_frame(&mut fa, &mut m) {
        held.push(f);
    }
    free(&mut fa, held.pop().unwrap());
    assert_eq!(stats(&fa).0, POOL_FRAMES - 1);
    assert!(matches!(space.map_page(&mut fa, &mut m, 0x1000, data, R | W | U), Err(MmError::NoFrame)));
    assert_eq!(stats(&fa).0, POOL_FRAMES);
    assert!(space.translate(&m, 0x1000).is_none());
    let chain = space.walk(&m, 0x1000).entries();
    assert_eq!(chain.len(), 2);
    assert_eq!(chain[0].1 & (V | R | W | X), V);
    assert_eq!(chain[1].1 & V, 0);
}

#[test]
fn destroy_after_many_mappings_returns_to_the_baseline() {
    let mut fa = FrameAllocator::new();
    let mut m = PhysMem::new();
    let before = stats(&fa).0;
    let space = AddressSpace::new(&mut fa, &mut m).unwrap();
    map_kernel(&space, &fa, &mut m).unwrap();
    for (i, va) in [0x1000usize, 0x2000, 0x40_0000, 0x4000_0000, 0x1_0000_3000].iter().enumerate() {
        let d = alloc_frame(&mut fa, &mut m).unwrap();
        let perms = if i % 2 == 0 { R | W | U } else { R | X | U };
        space.map_page(&mut fa, &mut m, *va, d, perms).unwrap();
    }
    assert!(stats(&fa).0 > before + 5);
    space.destroy(&mut fa, &m);
    assert_eq!(stats(&fa).0, before);
}

#[test]
fn copy_from_user_past_the_top_of_the_address_space_fails() {
    let mut fa = FrameAllocator::new();
    let mut m = PhysMem::new();
    let space = AddressSpace::new(&mut fa, &mut m).unwrap();
    let mut buf = vec![0u8; 16];
    assert!(!space.copy_from_user(&m, usize::MAX - 7, &mut buf));
    assert_eq!(buf.len(), 16);
}

#[test]
fn kernel_gigapage_is_identity_and_supervisor_only() {
    let mut fa = FrameAllocator::new();
    let mut m = PhysMem::new();
    let space = AddressSpace::new(&mut fa, &mut m).unwrap();
    assert!(map_kernel(&space, &fa, &mut m).is_ok());
    assert_eq!(space.translate(&m, KERNEL_GIGAPAGE_VA + 0x1234), Some(KERNEL_GIGAPAGE_VA + 0x1234));
    let w = space.walk(&m, KERNEL_GIGAPAGE_VA).entries();
    assert_eq!(w.len(), 1);
    assert_eq!(w[0].1 & U, 0);
    assert!(matches!(map_kernel(&space, &fa, &mut m), Err(MmError::Overlap)));
    assert_eq!(space.satp(), (8u64 << 60) | ((space.root() as u64) >> 12));
}

#[test]
fn copy_from_user_crosses_pages_and_faults_on_holes() {
    let mut fa = FrameAllocator::new();
    let mut m = PhysMem::new();
    let space = AddressSpace::new(&mut fa, &mut m).unwrap();
    let p1 = alloc_frame(&mut fa, &mut m).unwrap();
    let p2 = alloc_frame(&mut fa, &mut m).unwrap();
    space.map_page(&mut fa, &mut m, 0x10000, p1, R | U).unwrap();
    space.map_page(&mut fa, &mut m, 0x11000, p2, R | U).unwrap();
    phys_write(&mut m, p1 + PAGE_SIZE - 2, b"he");
    phys_write(&mut m, p2, b"llo");
    let mut buf = vec![0u8; 5];
    assert!(space.copy_from_user(&m, 0x10000 + PAGE_SIZE - 2, &mut buf));
    assert_eq!(buf, b"hello");
    let mut buf = vec![0u8; 4];
    assert!(!space.copy_from_user(&m, 0x12000 - 2, &mut buf));
}

#[test]
fn destroy_returns_every_owned_frame() {
    let mut fa = FrameAllocator::new();
    let mut m = PhysMem::new();
    let before = stats(&fa).0;
    let space = AddressSpace::new(&mut fa, &mut m).unwrap();
    map_kernel(&space, &fa, &mut m).unwrap();
    let d = alloc_frame(&mut fa, &mut m).unwrap();
    space.map_page(&mut fa, &mut m, 0x2000, d, R | W | U).unwrap();
    assert_eq!(stats(&fa).0, before + 4);
    space.destroy(&mut fa, &m);
    assert_eq!(stats(&fa).0, before);
}

#[test]
fn a_kernel_only_space_gives_back_just_its_root() {
    let mut fa = FrameAllocator::new();
    let mut m = PhysMem::new();
    let keep = alloc_frame(&mut fa, &mut m).unwrap();
    let before = stats(&fa).0;
    let space = AddressSpace::new(&mut fa, &mut m).unwrap();
    map_kernel(&space, &fa, &mut m).unwrap();
    assert_eq!(stats(&fa).0, before + 1);
    space.destroy(&mut fa, &m);
    assert_eq!(stats(&fa).0, before);
    free(&mut fa, keep);
    assert_eq!(stats(&fa).0, before - 1);
}

#[test]
fn deep_copy_is_independent() {
    let mut fa = FrameAllocator::new();
    let mut m = PhysMem::new();
    let space = AddressSpace::new(&mut fa, &mut m).unwrap();
    map_kernel(&space, &fa, &mut m).unwrap();
    let d = alloc_frame(&mut fa, &mut m).unwrap();
    space.map_page(&mut fa, &mut m, 0x3000, d, R | W | U).unwrap();
    phys_write(&mut m, d, b"orig");
    let copy = space.deep_copy(&mut fa, &mut m).unwrap();
    assert_ne!(copy.root(), space.root());
    let cd = copy.translate(&m, 0x3000).unwrap();
    assert_ne!(cd, d);
    let mut buf = vec![0u8; 4];
    assert!(copy.copy_from_user(&m, 0x3000, &mut buf));
    assert_eq!(buf, b"orig");
    phys_write(&mut m, cd, b"copy");
    assert!(space.copy_from_user(&m, 0x3000, &mut buf));
    assert_eq!(buf, b"orig");
    assert_eq!(copy.translate(&m, KERNEL_GIGAPAGE_VA + 8), Some(KERNEL_GIGAPAGE_VA + 8));
    assert_eq!(space.translate(&m, 0x3000), Some(d));
}

#[test]
fn deep_copy_aliases_windows_and_keeps_holes() {
    let mut fa = FrameAllocator::new();
    let mut m = PhysMem::new();
    let space = AddressSpace::new(&mut fa, &mut m).unwrap();
    let d = alloc_frame(&mut fa, &mut m).unwrap();
    space.map_page(&mut fa, &mut m, 0x4000, d, R | U).unwrap();
    space.map_page(&mut fa, &mut m, 0x5000, POOL_END + 0x1000, R | U).unwrap();
    phys_write(&mut m, d, b"page");
    let used = stats(&fa).0;
    let copy = space.deep_copy(&mut fa, &mut m).unwrap();
    // one root, one middle table, one last-level table, one copied page
    assert_eq!(stats(&fa).0, used + 4);
    assert_eq!(copy.translate(&m, 0x5000 + 12), Some(POOL_END + 0x1000 + 12));
    assert_eq!(copy.translate(&m, 0x6000), None);
    assert_eq!(space.translate(&m, 0x6000), None);
    let cd = copy.translate(&m, 0x4000 + 3).unwrap();
    assert_ne!(cd, d + 3);
    let mut buf = vec![0u8; 4];
    assert!(copy.copy_from_user(&m, 0x4000, &mut buf));
    assert_eq!(buf, b"page");
    copy.destroy(&mut fa, &m);
    assert_eq!(stats(&fa).0, used);
}

#[test]
fn supervisor_pages_are_never_read_for_a_payload() {
    let mut fa = FrameAllocator::new();
    let mut m = PhysMem::new();
    let space = AddressSpace::new(&mut fa, &mut m).unwrap();
    map_kernel(&space, &fa, &mut m).unwrap();
    phys_write(&mut m, POOL_BASE, b"secret");
    assert_eq!(space.translate(&m, POOL_BASE), Some(POOL_BASE));
    assert!(!space.user_mapped(&m, POOL_BASE));
    let mut buf = vec![0u8; 6];
    assert!(!space.copy_from_user(&m, POOL_BASE, &mut buf));
    assert_eq!(buf, vec![0u8; 6]);
}
