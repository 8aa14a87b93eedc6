# regf_rs

A reader and in-place writer for Windows registry hive files (the REGF
format), written in Verus: the executable code carries `requires`/`ensures`
contracts over a byte-level model of the hive, and Verus proves them.

## Layout

- `src/bytes.rs`: little-endian reads and writes on byte buffers.
- `src/error.rs`: the error type.
- `src/header.rs`: the base block: parsing, dirtiness, checksum, sealing.
- `src/tiling.rs`: what it means for the hive bins to be cut exactly into
  cells, and how allocation, splitting and freeing keep that.
- `src/hbin.rs`: hive bins and cells: first-fit allocation with splitting,
  freeing with coalescing, payload access.
- `src/cell.rs`: the cell kinds (`nk`, `vk`, `sk`, `lf`/`lh`/`li`/`ri`,
  `db`) and their encodings.
- `src/name.rs`, `src/utf16.rs`: key and value names, their case-folded
  order and the `lh` hash.
- `src/value.rs`: `REG_*` values and their encodings.
- `src/hive.rs`: the hive: path resolution, listing, reading values,
  creating keys, setting and deleting values, serialising.
- `tests/`: tests on concrete hives.
- `app/`: what needs the file system (loading and saving hive files) and the
  `Display` of errors.

## What is proved

Every public operation states its result over the model: lookups return
exactly what the model of the hive bytes says; writes refuse a dirty hive;
a value written reads back, a deleted value is gone, the key's other
values and values whose reads touch none of the written cells are
untouched (for key nodes whose value cells are distinct allocated cells, a
condition that the writes keep and that keys created in a fresh hive
meet); created keys are found by path
and their parents' subkey lists hold the old entries and the new one,
sorted, with the count following; a value write replaces the entry of that
name in place or appends one, and a delete leaves the other entries in
order; a fresh hive's root key carries the given name; allocation and freeing keep
the bins tiled; a sealed header parses back clean with a valid checksum;
value encodings and type codes round-trip.
