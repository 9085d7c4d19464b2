# normal_path

Paths that are normalized without touching the filesystem, verified with
Verus.

A path is normalized when it is absolute, canonical (no repeated or trailing
separators, no `.` components; on Windows also `\` as the only separator and
an upper case drive letter) and free of `..` components. On Windows a `..`
that can be collapsed lexically is merely not canonical; only one that
escapes its base is an error.

The library works on the raw bytes of a path. Its behaviour is stated over a
mathematical model of paths: for Unix, the components between `/`
separators; for Windows, a prefix (drive, device namespace, UNC share or
verbatim) followed by components separated by `\` or `/`.

## Layout

- `src/trivial.rs`: the types `Normpath`, `NormpathBuf` (whose type invariant
  is that they hold a normalized Unix path), `CowNormpath`, `Error` and
  `ConvertError`.
- `src/public.rs`: the public operations on those types.
- `src/imp/unix_model.rs`, `src/imp/unix.rs`: the model of Unix paths and the
  validation, normalization, push and strip over it.
- `src/imp/windows_model.rs`, `src/imp/windows.rs`: the same for Windows
  paths, including `PathBuf::push` on Windows as a specification.
- `src/imp/mod.rs`: the operations for the local (Unix) path syntax.
- `src/laws.rs`: properties relating the operations to each other (the
  validations agree, normalization is idempotent, a normalized path is left
  as it is, pushing keeps a path normalized, ...).
- `src/draw/`: random path generators for tests, over `fastrand`. Each
  generator draws its random values and hands them to a `*_from` function,
  whose contract states exactly which path those draws give; the generators
  of normalized paths are proved to produce paths that validation accepts.
- `app/`: `std::path` types, error display and serde support around the
  library, and the Windows operations on UTF-8 strings.
- `tests/`: tests of the library, on Unix paths against `std::path`, and on
  Windows paths against known values.
