# optination

A cursor theme picker for Hyprland that shows you the cursors: it lists every
Xcursor and hyprcursor theme on the system with its pointer, I-beam, hand,
resize, busy and no-drop shapes, applies a pick to the live pointer, and
writes it to `~/.config/hypr/looknfeel.lua` only when asked.

The decisions are a library whose every function is proved against its
contract with Verus; the program around it reads the disk, runs `hyprctl` and
`gsettings`, rasterizes SVGs and draws the window.

## Layout

- `src/` — the verified library.
  - `text.rs` — trimming, line splitting, searching, padding and number
    formatting over characters, each proved against a specification of the
    `str` operation it stands for.
  - `scan.rs` — theme discovery: the search path, formats, tone and
    handedness read off names, `index.theme`/manifest fields, and the sorted,
    de-duplicated theme list in which user themes shadow system ones.
  - `render.rs` — preview shapes: Xcursor image choice and BGRA to RGBA,
    `meta.hl` size lines, choosing the asset of a `.hlc` archive, PNG to RGBA,
    and which format's bitmap a slot shows.
  - `apply.rs` — the commands that apply a theme, reading `gsettings`
    output, judging `hyprctl configerrors`, and rewriting the managed block of
    `looknfeel.lua`, with the proofs that a save rewrites the block in place
    and leaves exactly one begin marker in a file that had at most one.
  - `cli.rs` — command-line parsing and the lines the commands print.
  - `picker.rs` — the window's decisions: filter chips, search, visible rows,
    where the selection lands, size clamping, status lines and the dot grid.
  - `omarchy.rs` — the Omarchy accent colour, snapped to the nearest of six.
- `tests/` — tests of the library on concrete values.
- `app/` — the program: file and process I/O, SVG rasterizing and the window.
