# ternary_wasm

Ternary agents for the browser, verified with Verus.

- `src/wasm_bridge.rs`: trits, six-trit trytes (values -364..=364), and the
  exchange formats: two bytes per five trits, trytes as `i16`, text as trytes.
- `src/wasm_config.rs`: limits, stack size hint and generator seed.
- `src/browser_engine.rs`: the XorShift64 generator, ternary agents, and the
  engine that spawns, links and ticks them.
- `src/cell_engine.rs`: a spreadsheet of ternary cells with literal,
  reference, sum, product and threshold expressions.
- `src/export_bindings.rs`: the computations behind the host exports.
- `app/lib.rs`: the C ABI exports themselves, with their global state.

Every function in `src/` carries a contract over plain mathematical values,
and the laws the library keeps (round trips of every format, what a tick does
to each agent, what evaluation caches) are stated and proved as proof
functions beside the code.
