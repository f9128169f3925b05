# runa

A toolbox for wayland compositors. The logic is written in Verus, and its contracts are proved.

- `src/wire`, `src/io`: messages, and bytes that travel together with file descriptors.
- `src/spec_parser`, `src/codegen`, `src/macros`: protocol files, and the code that is generated for them.
- `src/server`: the objects of a client, globals, serials, events and their handlers.
- `src/shell`: surfaces, their double-buffered states, and the tree that subsurfaces form.
  `src/shell/order.rs` and `src/shell/settled.rs` state what holds between two requests.
- `src/objects`: the requests of `wl_compositor`, `wl_subcompositor`, `wl_seat`, `wl_shm` and `xdg_shell`.
- `app`: what does I/O, and what turns plans of code into tokens.
- `tests`: examples of all of it.

Functions that call other crates are marked `external_body`. Each of them says in its doc comment what is
taken for granted of the call.
