# afterburner_wasi

The host side of an Emscripten guest, in verified Rust. A guest such as CPython
compiled to WebAssembly calls its host for files, time, sockets, processes and side
modules; this crate decides what each call does, and Verus proves that it does so.

- `src/` is the library. Each call is a function on plain values: guest memory as a
  slice, the in-memory filesystem, the socket and process state. Where a call needs
  the real world it returns a step (`SysOutcome`, `SocketStep`, `DlopenStep`, ...)
  and a matching `finish_*` function takes what came of it. Contracts speak of
  mathematical views of the state.
- `app/` is the engine around it: the wasmtime linker, host files, worker processes
  and network coordinators. It performs steps and holds no rules.
- `tests/` runs the library on concrete values.

Where to start reading:

- `emscripten_fs` and `fs_path`, `fs_listing`, `fs_records`: the filesystem, its
  paths and the records that the guest sees. `fs_laws` says what holds of it as a
  whole.
- `emscripten_syscall` and `emscripten_wasi`: the system calls on it.
- `socket`, `socket_abi`, `socket_calls`: sockets over network coordinators.
- `emscripten_multiprocessing`, `emscripten_pthread`: pipes, children and futexes.
- `emscripten_runtime`, `emscripten_invoke`, `emscripten_sidemodule`: memory
  configuration, call dispatch and dynamic linking.
- `zip_mount`, `pyodide_bundle`, `pyodide_embed`, `pyodide_columnar`: the Python
  payload.

Functions marked `external_body` wrap one call of std or of an outside crate each;
their doc comments say what is believed of it.
