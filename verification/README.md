# universal_wasm_loader

Loads WebAssembly modules with wasmtime and converts call values between WIT
types and core WebAssembly values, for modules that come with a companion
`.wit` file in the form wasmtk emits (and, without one, by raw export name).

## Layout

- `src/` — the library, verified with Verus:
  - `text.rs`: character classes, scanning, trimming and searching over `char`s;
  - `wit_parser.rs`: the WIT reader (package, world, imports and exports,
    kebab-case to snake_case and camelCase names), specified over `Seq<char>`;
  - `abi.rs`: reading strings out of linear memory, core types of WIT
    signatures, lowering export arguments, lifting import arguments, decoding
    results, and the calls into a module's exports for both string conventions
    (wasic globals and the Canonical ABI return area);
  - `runtime.rs`: the wasmtime calls the library makes, each behind a small
    trusted wrapper;
  - `loader.rs`: URLs, companion `.wit` paths, `@N` version pins, ABI
    detection, instantiation and dispatch of calls to a loaded module.
- `app/` — the host-facing layer that Verus does not see: file and URL loading,
  async entry points, typed calls over native Rust values (floats included),
  host import callbacks, the singleton cache, the instance pool and the
  `wasm_interface!` macro.
- `tests/` — the tests, run against the compiled library with wasmtime linked.

The laws the library states are the public `lemma_*` proof functions of each
module.
