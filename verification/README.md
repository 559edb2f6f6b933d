# photometric

Photometric light profiles (IES LM-63 and EULUMDAT files) for a Bevy scene,
with the file readers and the GPU-side profile bookkeeping proved in Verus.

- `src/` — the verified library: text splitting (`text`), the token reader
  shared by both formats (`tokens`), integer literals and the `f32` bit model
  used for truncation and comparison (`number`), the IES and EULUMDAT readers
  (`ies`, `ldt`), angle bracketing for interpolation (`interp`), the loaders'
  settings and errors (`loader`) and the texture/descriptor tables of the
  renderer (`render`). Each reader is stated against a spec function of the
  whole file and proved to meet it; floating-point readings of fields are
  passed in as `f32` bit patterns.
- `app/` — the engine glue: asset loaders, plugins, components, the
  floating-point profile building and sampling, and the render-side systems.
- `tests/` — tests of the library on concrete files and values.
