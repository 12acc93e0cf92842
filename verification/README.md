# bp_photos

A small desktop app for trying presets on photos. Open a photo, see every preset applied to it, pick one,
export.

The library under `src/` is written in Verus: what each function does is stated in its contract and proved.
It reads Lightroom presets (`.xmp`, `.lrtemplate`) and `.cube` tables, decides how photos are decoded,
turned and laid out for the GPU, steps through folders and decodes ahead, ranks and picks recommended
presets, plans exports and carries the EXIF data over, decides what the window does with keys and clicks,
and reads the command line.

Numbers of presets are kept as the numerals that their files hold; where a size or a rule rests on single
or double precision, `single` and `double` compute it exactly in integers.

The application under `app/` opens the window, reads and writes files, runs threads and the GPU, and does
the floating-point geometry and scoring. Its shaders `shader.wgsl` and `mip.wgsl` are read from the folder
`shaders` beside the program, or from the one that `BP_PHOTOS_SHADERS` names.

What comes from other crates (EXIF, image files, archives) and from the standard library's Unicode tables is
called through a few functions whose contracts are not proved; each says in its comment what it takes for
granted.

| modules | |
|---|---|
| `import`, `preset`, `builtins` | presets |
| `loader`, `gpu`, `pixels` | pixels of photos |
| `browse`, `filmstrip` | folders |
| `recommend` | recommended presets |
| `session`, `drawing`, `screen`, `panel`, `palette`, `crop`, `status`, `macos` | the window |
| `export`, `dialog`, `encode`, `metadata` | exports |
| `cli`, `sheet`, `packs`, `theme` | commands, contact sheets, preset packs, the terminal's look |
| `text`, `names`, `numeral`, `order`, `single`, `double`, `unicode` | what the others are built on |
