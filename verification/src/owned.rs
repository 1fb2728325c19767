//! What an address space owns, read entry by entry: the frames `root_pas`
//! collects, described by the table entries that lead to them, and how each
//! step of `map_page` changes them.
use vstd::prelude::*;
use crate::mm::{entry, valid, leafy, points_down, pte_target, entries_pas, subtree_pas, root_pas, agree_except,
    lemma_entry_kept, lemma_pte_target, lemma_zero_invalid, space_wf, l1_ok, table_ok, keeps_frames, lemma_keeps_entry};
use crate::phys::{POOL_SIZE, POOL_END, in_pool};
use crate::frames::FrameAllocator;

verus! {

/// Where a PTE points, as the ownership sets record it.
pub open spec fn tgt(e: u64) -> int {
    (pte_target(e) as usize) as int
}

/// Entry `l` of table `t` is a valid leaf targeting `x`.
pub open spec fn leaf_at(m: Seq<u8>, t: usize, l: int, x: int) -> bool {
    let e = entry(m, t as u64, l);
    valid(e) && leafy(e) && x == tgt(e)
}

/// `x` is the last-level table `t` or a page one of its leaves maps.
pub open spec fn l0_has(m: Seq<u8>, t: usize, x: int) -> bool {
    x == t as int || exists|l: int| 0 <= l < 512 && #[trigger] leaf_at(m, t, l, x)
}

/// Entry `j` of the second-level table `t` leads to `x`.
pub open spec fn l1_via(m: Seq<u8>, t: usize, j: int, x: int) -> bool {
    let e = entry(m, t as u64, j);
    valid(e) && (if leafy(e) { x == tgt(e) } else { l0_has(m, pte_target(e) as usize, x) })
}

/// `x` is the second-level table `t` or lies below it.
pub open spec fn l1_has(m: Seq<u8>, t: usize, x: int) -> bool {
    x == t as int || exists|j: int| 0 <= j < 512 && #[trigger] l1_via(m, t, j, x)
}

/// Root entry `i` points down to a subtree holding `x`.
pub open spec fn root_via(m: Seq<u8>, root: usize, i: int, x: int) -> bool {
    let e = entry(m, root as u64, i);
    points_down(e) && l1_has(m, pte_target(e) as usize, x)
}

/// The first `n` entries of a last-level table, entry by entry.
proof fn lemma_entries0(m: Seq<u8>, t: usize, n: int, x: int)
    requires
        0 <= n <= 512,
    ensures
        entries_pas(m, t, 0, n).contains(x) <==> exists|l: int| 0 <= l < n && #[trigger] leaf_at(m, t, l, x),
    decreases n,
{
    if n > 0 {
        lemma_entries0(m, t, n - 1, x);
        let e = entry(m, t as u64, n - 1);
        assert(entries_pas(m, t, 0, n).contains(x) == (entries_pas(m, t, 0, n - 1).contains(x) || leaf_at(m, t, n - 1, x)));
        if leaf_at(m, t, n - 1, x) {
            assert(0 <= n - 1 < n && leaf_at(m, t, n - 1, x));
        }
        if exists|l: int| 0 <= l < n && #[trigger] leaf_at(m, t, l, x) {
            let l = choose|l: int| 0 <= l < n && #[trigger] leaf_at(m, t, l, x);
            if l < n - 1 {
                assert(0 <= l < n - 1 && leaf_at(m, t, l, x));
            }
        }
    }
}

/// The subtree of a last-level table, entry by entry.
pub proof fn lemma_sub0(m: Seq<u8>, t: usize, x: int)
    ensures
        subtree_pas(m, t, 0).contains(x) <==> l0_has(m, t, x),
{
    lemma_entries0(m, t, 512, x);
}

/// The first `n` entries of a second-level table, entry by entry.
proof fn lemma_entries1(m: Seq<u8>, t: usize, n: int, x: int)
    requires
        0 <= n <= 512,
    ensures
        entries_pas(m, t, 1, n).contains(x) <==> exists|j: int| 0 <= j < n && #[trigger] l1_via(m, t, j, x),
    decreases n,
{
    if n > 0 {
        lemma_entries1(m, t, n - 1, x);
        let e = entry(m, t as u64, n - 1);
        lemma_sub0(m, pte_target(e) as usize, x);
        assert(entries_pas(m, t, 1, n).contains(x) == (entries_pas(m, t, 1, n - 1).contains(x) || l1_via(m, t, n - 1, x)));
        if l1_via(m, t, n - 1, x) {
            assert(0 <= n - 1 < n && l1_via(m, t, n - 1, x));
        }
        if exists|j: int| 0 <= j < n && #[trigger] l1_via(m, t, j, x) {
            let j = choose|j: int| 0 <= j < n && #[trigger] l1_via(m, t, j, x);
            if j < n - 1 {
                assert(0 <= j < n - 1 && l1_via(m, t, j, x));
            }
        }
    }
}

/// The subtree of a second-level table, entry by entry.
pub proof fn lemma_sub1(m: Seq<u8>, t: usize, x: int)
    ensures
        subtree_pas(m, t, 1).contains(x) <==> l1_has(m, t, x),
{
    lemma_entries1(m, t, 512, x);
}

/// The subtrees under the first `n` root entries, entry by entry.
proof fn lemma_roots(m: Seq<u8>, root: usize, n: int, x: int)
    requires
        0 <= n <= 512,
    ensures
        root_pas(m, root, n).contains(x) <==> exists|i: int| 0 <= i < n && #[trigger] root_via(m, root, i, x),
    decreases n,
{
    if n > 0 {
        lemma_roots(m, root, n - 1, x);
        let e = entry(m, root as u64, n - 1);
        lemma_sub1(m, pte_target(e) as usize, x);
        assert(root_pas(m, root, n).contains(x) == (root_pas(m, root, n - 1).contains(x) || root_via(m, root, n - 1, x)));
        if root_via(m, root, n - 1, x) {
            assert(0 <= n - 1 < n && root_via(m, root, n - 1, x));
        }
        if exists|i: int| 0 <= i < n && #[trigger] root_via(m, root, i, x) {
            let i = choose|i: int| 0 <= i < n && #[trigger] root_via(m, root, i, x);
            if i < n - 1 {
                assert(0 <= i < n - 1 && root_via(m, root, i, x));
            }
        }
    }
}

/// What a space owns below its root, entry by entry.
pub proof fn lemma_root_pas_via(m: Seq<u8>, root: usize, x: int)
    ensures
        root_pas(m, root, 512).contains(x) <==> exists|i: int| 0 <= i < 512 && #[trigger] root_via(m, root, i, x),
{
    lemma_roots(m, root, 512, x);
}

/// Only entry `k` of table `tw` may differ between `m1` and `m2`.
pub open spec fn one_changed(m1: Seq<u8>, m2: Seq<u8>, tw: usize, k: int) -> bool {
    forall|u: usize, j: int| #![trigger entry(m2, u as u64, j)]
        u % 4096 == 0 && 0 <= j < 512 && !(u == tw && j == k) ==> entry(m2, u as u64, j) == entry(m1, u as u64, j)
}

/// A write of one aligned table entry changes only that entry.
pub proof fn lemma_one_changed(m1: Seq<u8>, m2: Seq<u8>, tw: usize, k: int)
    requires
        m1.len() == POOL_SIZE,
        agree_except(m1, m2, tw + 8 * k, 8),
        tw % 4096 == 0,
        0 <= k < 512,
    ensures
        one_changed(m1, m2, tw, k),
{
    assert forall|u: usize, j: int| #![trigger entry(m2, u as u64, j)]
        u % 4096 == 0 && 0 <= j < 512 && !(u == tw && j == k) implies entry(m2, u as u64, j) == entry(m1, u as u64, j) by {
        lemma_entry_kept(m1, m2, tw as int, k, u as int, j);
    }
}

/// A last-level table whose entries all read the same holds the same.
proof fn lemma_l0_frame(m1: Seq<u8>, m2: Seq<u8>, t: usize, x: int)
    requires
        forall|j: int| 0 <= j < 512 ==> #[trigger] entry(m2, t as u64, j) == entry(m1, t as u64, j),
    ensures
        l0_has(m2, t, x) == l0_has(m1, t, x),
{
    assert forall|l: int| 0 <= l < 512 implies #[trigger] leaf_at(m2, t, l, x) == leaf_at(m1, t, l, x) by {
        assert(entry(m2, t as u64, l) == entry(m1, t as u64, l));
    }
    if l0_has(m1, t, x) && x != t as int {
        let l = choose|l: int| 0 <= l < 512 && #[trigger] leaf_at(m1, t, l, x);
        assert(leaf_at(m2, t, l, x));
    }
    if l0_has(m2, t, x) && x != t as int {
        let l = choose|l: int| 0 <= l < 512 && #[trigger] leaf_at(m2, t, l, x);
        assert(leaf_at(m1, t, l, x));
    }
}

/// Filling invalid entry `k` of a last-level table adds at most its leaf.
proof fn lemma_l0_write(m1: Seq<u8>, m2: Seq<u8>, t: usize, k: int, x: int)
    requires
        0 <= k < 512,
        forall|j: int| 0 <= j < 512 && j != k ==> #[trigger] entry(m2, t as u64, j) == entry(m1, t as u64, j),
        !valid(entry(m1, t as u64, k)),
    ensures
        l0_has(m1, t, x) ==> l0_has(m2, t, x),
        l0_has(m2, t, x) ==> l0_has(m1, t, x) || leaf_at(m2, t, k, x),
{
    assert forall|l: int| 0 <= l < 512 && l != k implies #[trigger] leaf_at(m2, t, l, x) == leaf_at(m1, t, l, x) by {
        assert(entry(m2, t as u64, l) == entry(m1, t as u64, l));
    }
    if l0_has(m1, t, x) && x != t as int {
        let l = choose|l: int| 0 <= l < 512 && #[trigger] leaf_at(m1, t, l, x);
        assert(l != k);
        assert(leaf_at(m2, t, l, x));
    }
    if l0_has(m2, t, x) && x != t as int && !leaf_at(m2, t, k, x) {
        let l = choose|l: int| 0 <= l < 512 && #[trigger] leaf_at(m2, t, l, x);
        assert(leaf_at(m1, t, l, x));
    }
}

/// Children of `t` that it points down to, in `m`, are pool tables.
pub open spec fn pool_children(m: Seq<u8>, t: usize) -> bool {
    forall|j: int| #![trigger entry(m, t as u64, j)]
        0 <= j < 512 && points_down(entry(m, t as u64, j)) ==> in_pool(pte_target(entry(m, t as u64, j)) as int, 4096)
}

/// A second-level table whose entries, and whose children's entries, all
/// read the same holds the same.
proof fn lemma_l1_frame(m1: Seq<u8>, m2: Seq<u8>, t: usize, x: int)
    requires
        forall|j: int| 0 <= j < 512 ==> #[trigger] entry(m2, t as u64, j) == entry(m1, t as u64, j),
        forall|j: int, i: int| 0 <= j < 512 && 0 <= i < 512 && points_down(#[trigger] entry(m1, t as u64, j)) ==>
            #[trigger] entry(m2, pte_target(entry(m1, t as u64, j)) as usize as u64, i)
                == entry(m1, pte_target(entry(m1, t as u64, j)) as usize as u64, i),
    ensures
        l1_has(m2, t, x) == l1_has(m1, t, x),
{
    assert forall|j: int| 0 <= j < 512 implies #[trigger] l1_via(m2, t, j, x) == l1_via(m1, t, j, x) by {
        let e = entry(m1, t as u64, j);
        assert(entry(m2, t as u64, j) == e);
        if valid(e) && !leafy(e) {
            let c = pte_target(e) as usize;
            assert forall|i: int| 0 <= i < 512 implies #[trigger] entry(m2, c as u64, i) == entry(m1, c as u64, i) by {
                assert(points_down(entry(m1, t as u64, j)));
            }
            lemma_l0_frame(m1, m2, c, x);
        }
    }
    if l1_has(m1, t, x) && x != t as int {
        let j = choose|j: int| 0 <= j < 512 && #[trigger] l1_via(m1, t, j, x);
        assert(l1_via(m2, t, j, x));
    }
    if l1_has(m2, t, x) && x != t as int {
        let j = choose|j: int| 0 <= j < 512 && #[trigger] l1_via(m2, t, j, x);
        assert(l1_via(m1, t, j, x));
    }
}

/// Filling invalid entry `k` of table `tw`: a second-level table `t` gains at
/// most what the new entry leads to (when `t` is `tw`) or the new entry's
/// leaf (when `tw` is one of its children).
proof fn lemma_l1_write(m1: Seq<u8>, m2: Seq<u8>, t: usize, tw: usize, k: int, x: int)
    requires
        one_changed(m1, m2, tw, k),
        0 <= k < 512,
        !valid(entry(m1, tw as u64, k)),
        t % 4096 == 0,
        tw % 4096 == 0,
        pool_children(m1, t),
    ensures
        l1_has(m1, t, x) ==> l1_has(m2, t, x),
        l1_has(m2, t, x) ==> l1_has(m1, t, x) || (t == tw && l1_via(m2, t, k, x)) || leaf_at(m2, tw, k, x),
{
    assert forall|j: int| 0 <= j < 512 && !(t == tw && j == k) implies
        (l1_via(m1, t, j, x) ==> l1_via(m2, t, j, x))
        && (l1_via(m2, t, j, x) ==> l1_via(m1, t, j, x) || leaf_at(m2, tw, k, x)) by {
        let e = entry(m1, t as u64, j);
        assert(entry(m2, t as u64, j) == e);
        if valid(e) && !leafy(e) {
            lemma_pte_target(e);
            let c = pte_target(e) as usize;
            assert(in_pool(pte_target(e) as int, 4096));
            assert(c as int == pte_target(e) as int);
            if c == tw {
                assert forall|i: int| 0 <= i < 512 && i != k implies #[trigger] entry(m2, c as u64, i) == entry(m1, c as u64, i) by {}
                lemma_l0_write(m1, m2, c, k, x);
            } else {
                assert forall|i: int| 0 <= i < 512 implies #[trigger] entry(m2, c as u64, i) == entry(m1, c as u64, i) by {}
                lemma_l0_frame(m1, m2, c, x);
            }
        }
    }
    if l1_has(m1, t, x) && x != t as int {
        let j = choose|j: int| 0 <= j < 512 && #[trigger] l1_via(m1, t, j, x);
        assert(l1_via(m2, t, j, x));
    }
    if l1_has(m2, t, x) && x != t as int && !(t == tw && l1_via(m2, t, k, x)) && !leaf_at(m2, tw, k, x) {
        let j = choose|j: int| 0 <= j < 512 && #[trigger] l1_via(m2, t, j, x);
        assert(l1_via(m1, t, j, x));
    }
}

/// Memory that keeps the allocated frames keeps what a well-formed space
/// owns.
pub proof fn lemma_keeps_root_pas(m1: Seq<u8>, m2: Seq<u8>, fa: FrameAllocator, root: usize)
    requires
        m1.len() == POOL_SIZE,
        keeps_frames(m1, m2, fa.frames()),
        space_wf(m1, fa, root as int),
    ensures
        root_pas(m2, root, 512) == root_pas(m1, root, 512),
{
    assert forall|x: int| root_pas(m2, root, 512).contains(x) == root_pas(m1, root, 512).contains(x) by {
        lemma_root_pas_via(m1, root, x);
        lemma_root_pas_via(m2, root, x);
        assert forall|i: int| 0 <= i < 512 implies #[trigger] root_via(m2, root, i, x) == root_via(m1, root, i, x) by {
            lemma_keeps_entry(m1, m2, fa.frames(), root as int, i);
            let e = entry(m1, root as u64, i);
            if points_down(e) {
                let t1 = pte_target(e) as usize;
                assert(l1_ok(m1, fa, root as int, pte_target(e) as int));
                assert forall|j: int| 0 <= j < 512 implies #[trigger] entry(m2, t1 as u64, j) == entry(m1, t1 as u64, j) by {
                    lemma_keeps_entry(m1, m2, fa.frames(), t1 as int, j);
                }
                assert forall|j: int, i2: int| 0 <= j < 512 && 0 <= i2 < 512 && points_down(#[trigger] entry(m1, t1 as u64, j)) implies
                    #[trigger] entry(m2, pte_target(entry(m1, t1 as u64, j)) as usize as u64, i2)
                        == entry(m1, pte_target(entry(m1, t1 as u64, j)) as usize as u64, i2) by {
                    let c = pte_target(entry(m1, t1 as u64, j)) as int;
                    assert(table_ok(fa, c));
                    lemma_keeps_entry(m1, m2, fa.frames(), c, i2);
                }
                lemma_l1_frame(m1, m2, t1, x);
            }
        }
        if root_pas(m1, root, 512).contains(x) {
            let i = choose|i: int| 0 <= i < 512 && #[trigger] root_via(m1, root, i, x);
            assert(root_via(m2, root, i, x));
        }
        if root_pas(m2, root, 512).contains(x) {
            let i = choose|i: int| 0 <= i < 512 && #[trigger] root_via(m2, root, i, x);
            assert(root_via(m1, root, i, x));
        }
    }
    assert(root_pas(m2, root, 512) =~= root_pas(m1, root, 512));
}

/// Pointing an invalid root entry at an empty table adds just that table.
pub proof fn lemma_root_link_pas(m1: Seq<u8>, m2: Seq<u8>, fa: FrameAllocator, root: usize, k: int, t1: usize)
    requires
        m1.len() == POOL_SIZE,
        space_wf(m1, fa, root as int),
        agree_except(m1, m2, root + 8 * k, 8),
        0 <= k < 512,
        !valid(entry(m1, root as u64, k)),
        points_down(entry(m2, root as u64, k)),
        pte_target(entry(m2, root as u64, k)) == t1 as u64,
        t1 % 4096 == 0,
        t1 != root,
        forall|j: int| 0 <= j < 512 ==> #[trigger] entry(m1, t1 as u64, j) == 0,
    ensures
        root_pas(m2, root, 512) == root_pas(m1, root, 512).insert(t1 as int),
{
    lemma_one_changed(m1, m2, root, k);
    lemma_zero_invalid();
    assert forall|x: int| root_pas(m2, root, 512).contains(x) == (root_pas(m1, root, 512).contains(x) || x == t1 as int) by {
        lemma_root_pas_via(m1, root, x);
        lemma_root_pas_via(m2, root, x);
        assert forall|i: int| 0 <= i < 512 && i != k implies #[trigger] root_via(m2, root, i, x) == root_via(m1, root, i, x) by {
            let e = entry(m1, root as u64, i);
            assert(entry(m2, root as u64, i) == e);
            if points_down(e) {
                let u = pte_target(e) as usize;
                assert(l1_ok(m1, fa, root as int, pte_target(e) as int));
                assert forall|j: int| 0 <= j < 512 implies #[trigger] entry(m2, u as u64, j) == entry(m1, u as u64, j) by {}
                assert forall|j: int, i2: int| 0 <= j < 512 && 0 <= i2 < 512 && points_down(#[trigger] entry(m1, u as u64, j)) implies
                    #[trigger] entry(m2, pte_target(entry(m1, u as u64, j)) as usize as u64, i2)
                        == entry(m1, pte_target(entry(m1, u as u64, j)) as usize as u64, i2) by {
                    let c = pte_target(entry(m1, u as u64, j)) as int;
                    assert(table_ok(fa, c));
                    lemma_pte_target(entry(m1, u as u64, j));
                }
                lemma_l1_frame(m1, m2, u, x);
            }
        }
        assert forall|j: int| 0 <= j < 512 implies !valid(#[trigger] entry(m2, t1 as u64, j)) by {
            assert(entry(m2, t1 as u64, j) == entry(m1, t1 as u64, j));
        }
        assert(root_via(m2, root, k, x) == (x == t1 as int)) by {
            if root_via(m2, root, k, x) && x != t1 as int {
                let j = choose|j: int| 0 <= j < 512 && #[trigger] l1_via(m2, t1, j, x);
                assert(!valid(entry(m2, t1 as u64, j)));
            }
        }
        if root_pas(m1, root, 512).contains(x) {
            let i = choose|i: int| 0 <= i < 512 && #[trigger] root_via(m1, root, i, x);
            assert(i != k);
            assert(root_via(m2, root, i, x));
        }
        if root_pas(m2, root, 512).contains(x) && x != t1 as int {
            let i = choose|i: int| 0 <= i < 512 && #[trigger] root_via(m2, root, i, x);
            assert(root_via(m1, root, i, x));
        }
        if x == t1 as int {
            assert(root_via(m2, root, k, x));
        }
    }
    assert(root_pas(m2, root, 512) =~= root_pas(m1, root, 512).insert(t1 as int));
}

/// Filling invalid entry `k` of a table `tw` other than the root: what the
/// space owns only grows, and by no more than what the new entry leads to.
proof fn lemma_table_write_pas(m1: Seq<u8>, m2: Seq<u8>, fa: FrameAllocator, root: usize, tw: usize, k: int, x: int)
    requires
        m1.len() == POOL_SIZE,
        space_wf(m1, fa, root as int),
        agree_except(m1, m2, tw + 8 * k, 8),
        tw % 4096 == 0,
        tw != root,
        0 <= k < 512,
        !valid(entry(m1, tw as u64, k)),
    ensures
        root_pas(m1, root, 512).contains(x) ==> root_pas(m2, root, 512).contains(x),
        root_pas(m2, root, 512).contains(x) ==> root_pas(m1, root, 512).contains(x) || l1_via(m2, tw, k, x) || leaf_at(m2, tw, k, x),
{
    lemma_one_changed(m1, m2, tw, k);
    lemma_root_pas_via(m1, root, x);
    lemma_root_pas_via(m2, root, x);
    assert forall|i: int| 0 <= i < 512 implies
        (#[trigger] root_via(m1, root, i, x) ==> root_via(m2, root, i, x))
        && (root_via(m2, root, i, x) ==> root_via(m1, root, i, x) || l1_via(m2, tw, k, x) || leaf_at(m2, tw, k, x)) by {
        let e = entry(m1, root as u64, i);
        assert(entry(m2, root as u64, i) == e);
        if points_down(e) {
            let u = pte_target(e) as usize;
            assert(l1_ok(m1, fa, root as int, pte_target(e) as int));
            assert forall|j: int| #![trigger entry(m1, u as u64, j)]
                0 <= j < 512 && points_down(entry(m1, u as u64, j)) implies in_pool(pte_target(entry(m1, u as u64, j)) as int, 4096) by {
                assert(table_ok(fa, pte_target(entry(m1, u as u64, j)) as int));
            }
            lemma_l1_write(m1, m2, u, tw, k, x);
        }
    }
    if root_pas(m1, root, 512).contains(x) {
        let i = choose|i: int| 0 <= i < 512 && #[trigger] root_via(m1, root, i, x);
        assert(root_via(m2, root, i, x));
    }
    if root_pas(m2, root, 512).contains(x) && !l1_via(m2, tw, k, x) && !leaf_at(m2, tw, k, x) {
        let i = choose|i: int| 0 <= i < 512 && #[trigger] root_via(m2, root, i, x);
        assert(root_via(m1, root, i, x));
    }
}

/// Pointing an invalid entry of the second-level table `t1` (under root
/// entry `i2`) at an empty table `t0` adds just `t0`.
pub proof fn lemma_l1_link_pas(m1: Seq<u8>, m2: Seq<u8>, fa: FrameAllocator, root: usize, i2: int, t1: usize, k: int, t0: usize)
    requires
        m1.len() == POOL_SIZE,
        space_wf(m1, fa, root as int),
        0 <= i2 < 512,
        points_down(entry(m1, root as u64, i2)),
        pte_target(entry(m1, root as u64, i2)) == t1 as u64,
        agree_except(m1, m2, t1 + 8 * k, 8),
        0 <= k < 512,
        !valid(entry(m1, t1 as u64, k)),
        points_down(entry(m2, t1 as u64, k)),
        pte_target(entry(m2, t1 as u64, k)) == t0 as u64,
        t0 % 4096 == 0,
        t0 != t1,
        forall|j: int| 0 <= j < 512 ==> #[trigger] entry(m1, t0 as u64, j) == 0,
    ensures
        root_pas(m2, root, 512) == root_pas(m1, root, 512).insert(t0 as int),
{
    assert(l1_ok(m1, fa, root as int, t1 as int));
    lemma_pte_target(entry(m1, root as u64, i2));
    lemma_one_changed(m1, m2, t1, k);
    lemma_zero_invalid();
    assert forall|j: int| 0 <= j < 512 implies !valid(#[trigger] entry(m2, t0 as u64, j)) by {
        assert(entry(m2, t0 as u64, j) == entry(m1, t0 as u64, j));
    }
    assert forall|x: int| root_pas(m2, root, 512).contains(x) == (root_pas(m1, root, 512).contains(x) || x == t0 as int) by {
        lemma_table_write_pas(m1, m2, fa, root, t1, k, x);
        if l1_via(m2, t1, k, x) && x != t0 as int {
            let l = choose|l: int| 0 <= l < 512 && #[trigger] leaf_at(m2, t0, l, x);
            assert(!valid(entry(m2, t0 as u64, l)));
        }
        if x == t0 as int {
            lemma_root_pas_via(m2, root, x);
            assert(entry(m2, root as u64, i2) == entry(m1, root as u64, i2));
            assert(l1_via(m2, t1, k, x));
            assert(root_via(m2, root, i2, x));
        }
    }
    assert(root_pas(m2, root, 512) =~= root_pas(m1, root, 512).insert(t0 as int));
}

/// Filling an invalid entry of the last-level table `t0` (reached through
/// root entry `i2` and entry `i1` of `t1`) with a leaf adds just its page.
pub proof fn lemma_leaf_pas(m1: Seq<u8>, m2: Seq<u8>, fa: FrameAllocator, root: usize, i2: int, t1: usize, i1: int,
    t0: usize, k: int)
    requires
        m1.len() == POOL_SIZE,
        space_wf(m1, fa, root as int),
        0 <= i2 < 512,
        points_down(entry(m1, root as u64, i2)),
        pte_target(entry(m1, root as u64, i2)) == t1 as u64,
        0 <= i1 < 512,
        points_down(entry(m1, t1 as u64, i1)),
        pte_target(entry(m1, t1 as u64, i1)) == t0 as u64,
        agree_except(m1, m2, t0 + 8 * k, 8),
        0 <= k < 512,
        !valid(entry(m1, t0 as u64, k)),
        valid(entry(m2, t0 as u64, k)),
        leafy(entry(m2, t0 as u64, k)),
    ensures
        root_pas(m2, root, 512) == root_pas(m1, root, 512).insert(tgt(entry(m2, t0 as u64, k))),
{
    assert(l1_ok(m1, fa, root as int, t1 as int));
    lemma_pte_target(entry(m1, root as u64, i2));
    lemma_pte_target(entry(m1, t1 as u64, i1));
    assert(table_ok(fa, t0 as int) && t0 != root && t0 != t1);
    lemma_one_changed(m1, m2, t0, k);
    let p = tgt(entry(m2, t0 as u64, k));
    assert forall|x: int| root_pas(m2, root, 512).contains(x) == (root_pas(m1, root, 512).contains(x) || x == p) by {
        lemma_table_write_pas(m1, m2, fa, root, t0, k, x);
        if x == p {
            lemma_root_pas_via(m2, root, x);
            assert(entry(m2, root as u64, i2) == entry(m1, root as u64, i2));
            assert(entry(m2, t1 as u64, i1) == entry(m1, t1 as u64, i1));
            assert(leaf_at(m2, t0, k, x));
            assert(l1_via(m2, t1, i1, x));
            assert(root_via(m2, root, i2, x));
        }
    }
    assert(root_pas(m2, root, 512) =~= root_pas(m1, root, 512).insert(p));
}

} // verus!
