# quark_sim

A small 2-D particle sandbox (quarks, gluon strings, gravity and charge on a
360 x 240 torus), split into a verified integer core and a thin program.

- `src/` is the library, verified with Verus:
  - `ecs` - the entity/component store: spawning, despawning, remembering
    positions, breaking a gluon string into a quark/antiquark pair, binding
    quarks with a new gluon, and choosing which string segments to draw; every
    string link stays a valid id.
  - `links` - operations on a particle's colour-string links.
  - `raster` - line rasterisation onto the RGBA frame (with wrap-around),
    single-pixel plotting and particle colours.
  - `clock` - the fixed-step simulation clock.
- `app/` is the program: the GLFW window, the `pixels` surface, and the
  floating-point physics (forces, integration, interpolation).
- `tests/` runs the library on concrete values.
