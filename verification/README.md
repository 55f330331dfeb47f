# mc_scanner

A Minecraft server scanner (the `capiscan` program) whose logic is a library
verified with Verus.

## Layout

- `src/` is the verified library.
  - `circ.rs`: `CircularBuffer`, a bounded history of the most recent values.
  - `slp.rs`: the server list ping wire format: VarInts, length-prefixed
    strings, big-endian integers, the `Packet` buffer, the request packets and
    the unframing of the status reply.
  - `ipv4.rs`: dotted-decimal IPv4 addresses.
  - `text.rs`: whitespace, trimming and line splitting on characters.
  - `range.rs`: masscan-style target lists, merging of ranges and removal of
    excluded ranges, with the laws they obey.
  - `scanner.rs`, `state.rs`: scanner settings, scan events and the progress
    record that events update.
- `tests/` runs the library on concrete values.
- `app/` is the program: argument handling, files, TCP, tasks, the rate
  display (floating point) and saving of the state, plus copies of the
  library's types that carry serde, bincode and thiserror derives.
