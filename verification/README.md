# orca_tree_supports

Tree-style support generation for FDM printing, with its integer and
structural logic verified by Verus.

- `src/` is the verified library: contact-point selection with per-layer
  spacing, the assembly and smoothing of dropped branches, interface (roof and
  floor) layer planning, per-layer output assembly, exact integer circles at
  multiples of π/8, mesh index validation, the integer part of the derived
  settings and of configuration validation, the per-radius collision cache,
  and the flat polygon layout handed over the C boundary. Heights, angles and
  areas are carried as a type parameter `S` and never computed with.
- `app/` is ordinary Rust around it: the floating-point geometry (overhang
  normals, radius growth, moves toward the centre, collision circles), the
  parallel drivers, the thread-shared caches and the `extern "C"` API.
- `tests/` exercises the library on concrete values.
