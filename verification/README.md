# hoverboard

The logic of a hoverboard firmware as a verified library: the framed link between boards and its
fragmentation, addressing, multi-hop forwarding and the discovery walk, the configuration exchange,
the cooperative scheduler, the mode, fault and arming state machines, the debounced inputs, and the
250 Hz control pass. Every function of `src/` but the wrappers named below carries a contract that
Verus proves.

## Layout

- `src/link/` - CRC, fragmentation, stream framing, the link over a transport, the serial transport,
  frames and their payloads, the bring-up of the radio module.
- `src/net/` - PDUs, forwarding, the board and the controller of the discovery walk, and the laws of
  whole exchanges (`protocol.rs`) and of whole walks (`mesh.rs`).
- `src/linkctl.rs` - the payloads of the control block.
- `src/node.rs`, `src/config.rs` - routing and supervision of one node, from its bindings.
- `src/scheduler.rs` - the task table.
- `src/state/` - the mode machine, the fault latch, the output gate of each motor.
- `src/inputs/` - buttons, combos, foot pads, throttle filter (`src/qnum.rs`: its arithmetic).
- `src/orchestrator/` - the control pass, the link inbox, sensor health, fault events.
- `src/bench/` - the validators of the bench images.
- `src/bounded.rs`, `src/bytes.rs`, `src/counter.rs` - bounded vectors, byte strings, counters.
- `tests/` - tests of the library from outside.
- `app/` - the side that touches devices.

## Outside code

The library stores bounded data in `heapless::Vec`, computes checksums with `crc`, and fixed-point
products with `fixed`. Each call stands behind a small function whose contract is taken on trust; its
doc comment says what is claimed. What a device, the configuration store or the control layer does is
never claimed: the library says what it wants of them, takes what came of it, and is proved for every
answer.
