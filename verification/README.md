# helicopter_collective

Host-testable logic of the helicopter-collective RP2350 firmware, written in
Verus and proved against its contracts.

- `src/mdns.rs` — mDNS name encoding, query parsing and A-record answers.
- `src/status.rs` — the `/api/status` JSON body, formatted into a fixed buffer.
- `src/tmag5273/` — the TMAG5273 magnetometer's register protocol: which I2C
  transactions the driver makes, the order of the configuration writes, and
  the decoding of what it reads.
- `app/` — what stays outside the proofs: the async I2C plumbing over
  `embedded-hal-async`, and the floating-point filters and unit conversion.
- `tests/` — tests of the library on concrete values.
