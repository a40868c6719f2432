# posixlib

Verified core of a small C library: the `inttypes.h` integer functions and the
computations behind several `unistd.h` calls.

- `src/inttypes.rs` — `imaxabs`, `imaxdiv` (quotient rounded toward zero).
- `src/strto.rs` — `strtoimax` and `strtoumax` as functions on byte strings, with the
  subject sequence (white space, sign, `0x`/`0` prefix, digits) described by spec functions.
- `src/strto_laws.rs` — proved properties of the conversions: decimal numerals read back
  to their value, leading white space only moves the end, signed and unsigned agree.
- `src/errno.rs` — the `errno` values the library reports.
- `src/unistd.rs` — the `unistd.h` constants, the `nanosleep` requests of `sleep` and
  `usleep` (and `EINVAL` for a second or more), the unslept seconds `sleep` returns, the
  bytes `gethostname` stores, and the `env:` writes of `execve`.
- `app/` — the C-ABI entry points: raw pointers, `errno`, and the system calls (through the
  `libc` crate), calling into the library for the logic.
