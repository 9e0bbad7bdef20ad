# rustky

A small desktop text widget for Wayland compositors with the layer-shell
protocol. This crate is its verified core, written in Verus:

- `src/color.rs`: parsing of `#RRGGBB` / `#RRGGBBAA` colours into Skia's
  packed `0xAARRGGBB` word, with the round-trip laws.
- `src/pixels.rs`: conversion of rendered RGBA pixels into the compositor's
  ARGB8888 (B, G, R, A bytes) buffer.
- `src/surface.rs`: the surface's size and readiness, the configure event,
  and the geometry of each frame's buffer.

`app/` holds the unverified rest: Skia text rendering (floating-point
layout) and the Wayland client with its event loop.
