# nextpnr

The routing and timing core of an FPGA place-and-route tool, verified with Verus.

- `src/` is the library. `chipdb`, `netlist` and `context` model the device, the design and what is
  bound where; `router` holds the path search, the routers built on it, rip-up, validation and
  diagnosis; `timing` holds delays, clock domains, propagation, slacks and reports; `solver` holds
  the integer parts of the numerical solvers (patterns, aggregation, histories, random numbers).
- `app/` is ordinary Rust around it: the floating-point solvers on faer, the cost figures of
  negotiated and raster routing, and the texts that hold floating-point figures.
- `tests/` runs the library on small devices and designs.

Identifiers are interned by lasso, maps are rustc-hash maps, and independent nets are planned on
rayon's threads; the wrappers of these crates are in `src/types/id_string.rs`, `src/fx.rs` and
`src/parallel.rs`.
