//! Ternary agents for the browser: balanced ternary values and their
//! exchange formats, a seeded agent evolution engine, and a spreadsheet of
//! ternary cells, with every operation verified against its contract.

pub mod wasm_bridge;
pub mod browser_engine;
pub mod cell_engine;
pub mod export_bindings;
pub mod wasm_config;

pub use wasm_bridge::WasmBridge;
pub use browser_engine::BrowserEngine;
pub use cell_engine::CellEngine;
pub use wasm_config::WasmConfig;
