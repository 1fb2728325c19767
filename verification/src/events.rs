//! Kernel event identity: every frame the kernel emits carries an id drawn
//! from one monotonic counter, the spine the causal references hang off.
use vstd::prelude::*;

verus! {

/// The source of event ids. `next` is the id the next event receives.
pub struct Events {
    pub next: u64,
}

impl Events {
    /// A fresh counter: the first event (the boot `hello`) gets id 0.
    pub fn new() -> (e: Events)
        ensures
            e.next == 0,
    {
        Events { next: 0 }
    }
}

/// The counter after one more id is handed out (an atomic fetch-add wraps).
pub open spec fn advanced(n: u64) -> u64 {
    if n == u64::MAX { 0 } else { (n + 1) as u64 }
}

/// Allocate the next event id.
pub fn next_id(ev: &mut Events) -> (id: u64)
    ensures
        id == old(ev).next,
        final(ev).next == advanced(old(ev).next),
{
    let id = ev.next;
    ev.next = ev.next.wrapping_add(1);
    id
}

/// Ids are unique and strictly increasing: of two ids handed out one after
/// the other by the same counter, the later is greater (short of the 2^64th
/// id, where the counter wraps).
pub proof fn lemma_ids_increase(first: u64, counter_after_first: u64, second: u64)
    requires
        counter_after_first == advanced(first),
        counter_after_first <= second,
        first < u64::MAX,
    ensures
        first < second,
{
}

} // verus!
