# hyprwpe

Wallpaper Engine wallpapers on Hyprland: what is installed, what each wallpaper
holds, what is shown where, and when it stands still.

- `src/` is the library. Its functions have contracts, and Verus proves the body of
  each against its contract, but for a few wrappers (below). It reads packages,
  textures, puppet models, scenes, particle systems, shaders and properties, follows
  the compositor's events, decides when to suspend, and answers the daemon's
  requests.
- `app/` is the program around it: files, sockets, documents and floating point.
  `app/main.rs` is the command line and the daemon, `app/gui.rs` the picker. Verus
  does not read it.
- `tests/` runs the library on concrete values.

The proofs rest on what the library takes from `serde_json` and from the standard
library. The wrappers around those calls are believed, not proved: they stand in
`src/json.rs` and `src/text.rs`, marked `external_body` or `assume_specification`,
and each says what it claims.

Floating point numbers are held as their bits, and times as nanoseconds. Sliders are
compared and rounded exactly, as whole numbers of the smallest step between doubles
(`src/doubles.rs`, `src/sliders.rs`).
