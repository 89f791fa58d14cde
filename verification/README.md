# logical_path

Translates canonical (symlink-resolved) paths back to their logical
(symlink-preserving) equivalents, and logical paths back to canonical ones,
with every translation checked by resolving both paths. The library is
written in Verus and its behaviour is proved against its contracts.

Layout:

- `src/components.rs` — the reading of a path into components, with Unix
  or Windows rules (`PathStyle`), and how components compare.
- `src/render.rs` — the writing of components back into a path, with the
  proof that a Unix path written this way reads back the same.
- `src/divergence.rs` — the longest common suffix of two paths and the
  prefixes in front of it (`find_divergence_point`).
- `src/context.rs` — `LogicalPathContext`: detection of the prefix mapping
  (`detect_from`, `detect_from_cwd`) and translation (`to_logical`,
  `to_canonical`). Resolving a path on the file system is left to a
  function the caller passes in, so that every outcome of it is covered.
- `src/extended.rs` — taking the Windows `\\?\` prefix off a path.
- `src/laws.rs` — properties of the library as a whole under Unix rules:
  the divergence point splits both paths, and translating there and back
  gives the same path.
- `src/windows_laws.rs` — the round trip under Windows rules, for mappings
  between paths on drives (junctions, directory symlinks, subst drives).
- `app/` — `detect()` (from `$PWD` and `getcwd()` on Unix, from the
  working directory and its canonical form on Windows), translation of
  `std::path::Path` values with `std::fs::canonicalize`, and a demo.
