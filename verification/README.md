# pico_runtime

The runtime of the picohp compiler: an ordered collection with a sequential
and a string-keyed space, byte-string operations, tagged values and anchored
regex matching, each with a Verus contract.

- `src/` — the verified library (`collection`, `string`, `bytes`, `value`,
  `regex`, `compiled_regex`, `runtime`). Strings come in as `&str` and go out as UTF-8 byte
  vectors; addresses are carried as `u64`.
- `app/` — the C ABI (`extern "C"` functions over raw pointers and
  null-terminated strings), file I/O, allocation and float formatting.
- `tests/` — tests of the library on concrete values.
