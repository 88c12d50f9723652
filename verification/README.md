# janitor

Column-name cleaning and data-frame tidying (`clean_names`, `row_to_names`,
`find_header`, `remove_empty`, `remove_constant`, `get_dupes`,
`compare_df_cols`) for Polars, with the logic written and proved in Verus.

Layout:

- `src/` — the verified library.
  - `text.rs`: ASCII character classes, trimming, string building, decimals.
  - `unicode.rs`: the two calls into `unicode-normalization` (NFKD and the
    combining-mark test), behind trusted wrappers.
  - `names.rs`: `make_clean_names` — tokenizing, case styles, identifier
    starts and de-duplication; `name_laws.rs` proves that cleaned names are
    distinct and non-empty and that snake-case cleaning is idempotent.
  - `frame.rs`: `Frame`, a model of a data frame as named columns of
    optional cell texts, and the frame operations; `schema.rs`: frame schemas
    and their comparison; `frame_laws.rs`: laws of both.
  - `binding.rs`: how the Python-facing functions read and refuse their
    arguments, on plain values.
- `tests/` — tests of the library.
- `app/` — the Python extension module (`pyo3`), which converts between
  Polars frames and `Frame` and calls the library.
