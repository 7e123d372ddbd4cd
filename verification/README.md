# kvstore

A key-value store that keeps every mapping in two files, `<digest>.key` and
`<digest>.value`, inside a subdirectory named by the first ten characters of
the SHA-256 digest of the serialized key.

- `src/` is the verified library (Verus): path arithmetic (`paths`), the
  digest (`digest`), the store's state, file layout and mapping count
  (`store`), the plans of `insert`, `lookup` and `remove` for what they observe
  on disk (`plans`), a model of the disk (`disk`), and the laws proved of the
  plans on that model (`laws`).
- `app/` is the `Operations` trait over the real file system: it serializes
  keys and values with serde_json, observes the disk, and carries the plans out.
