# kernai

The decision-making core of kernai, an agent-native RISC-V unikernel, as a
Verus library: every function in `src/` carries a contract that Verus proves.

## Layout

- `src/phys.rs`, `src/frames.rs` — the physical frame pool as a byte
  sequence, and the frame allocator (which frames are handed out, and the
  bytes it zeroes).
- `src/mm.rs` — Sv39 page tables over that pool: mapping, walking,
  translating, copying user bytes, freeing a whole space, and the deep copy
  behind snapshots (`copy_of`, `lemma_copy_translation`).
- `src/owned.rs` — what an address space owns, read entry by entry, and
  how each step of `map_page` changes it (behind the allocator's account:
  `lemma_map_keeps_account`).
- `src/elf.rs` — the ELF64 loader into the load arena, with the exact effect
  of a load as a spec function and every refusal as an error.
- `src/console.rs`, `src/json.rs`, `src/events.rs` — framed output, JSON
  escaping and lookup, and the monotonically increasing event ids.
- `src/rpc.rs` — the JSON-RPC control plane: request framing, method
  dispatch, tools and resources, idempotent operation ids.
- `src/payload.rs`, `src/syscall.rs` — the process table, capability
  attenuation, suites, snapshots and restores, and the system-call surface.
- `src/traps.rs`, `src/idle.rs` — trap bookkeeping (the fault ring and the
  digest), fault reports, the tick, and the idle console commands.
- `tests/` — scenarios on concrete values, one file per area.
- `app/main.rs` — a host harness: stdin/stdout stand for the serial line,
  the host clock for the timebase; it moves bytes and calls the library.
