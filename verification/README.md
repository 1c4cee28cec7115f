# niri_tiled

Joins two to four physical displays into one logical output: dual-link tiled panels on one device,
and monitor walls across devices.

- `src/` decides: which displays form a group, how they are laid out and paced, which atomic
  requests drive them, how gamma tables are changed, and what becomes of every frame, failure and
  completion event. All of it is verified with Verus. `frame`, `native` and `planning` gather what a
  host uses.
- `tests/` runs the library on concrete values.
- `app/` is the host side: it reads devices into plain values, carries out requests, and owns
  buffers, surfaces, event sources and the clock.

Handles are their numbers, times are nanoseconds, and floating-point settings are bit patterns. The
calls into `drm`, `bytemuck`, `tracy_client` and the standard library that are trusted rather than
proved stand behind small wrappers in `request`, `gamma`, `device` and `text`.
