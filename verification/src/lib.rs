//! Host side of a Python runtime that is compiled to WebAssembly with Emscripten.
//!
//! The guest sees a POSIX-like system: files, descriptors, pipes, sockets, threads,
//! a clock and a source of randomness. What it asks for is decided here, on its
//! linear memory as a byte slice and on plain state: every call is a function from
//! memory, state and arguments to memory, state and result. Where the host has to
//! do something first (open a real file, wait for a connection), the call says
//! what, and a second function completes it with the outcome.

pub mod bytes;
pub mod civil_time;
pub mod emscripten_abi;
pub mod emscripten_fs;
pub mod emscripten_invoke;
pub mod emscripten_jsffi;
pub mod emscripten_mechanical;
pub mod emscripten_multiprocessing;
pub mod emscripten_pthread;
pub mod emscripten_runtime;
pub mod emscripten_sidemodule;
pub mod emscripten_syscall;
pub mod emscripten_wasi;
pub mod fs_laws;
pub mod fs_listing;
pub mod fs_path;
pub mod fs_records;
pub mod host;
pub mod intake;
pub mod nozzle;
pub mod pyodide_bundle;
pub mod pyodide_columnar;
pub mod pyodide_embed;
pub mod ring;
pub mod socket;
pub mod socket_abi;
pub mod socket_calls;
pub mod text;
pub mod zip_mount;
