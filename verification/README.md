# remapper

Palette remapping (dithering) of images. The verified library (`src/`) holds the
integer core:

- `ring`: the fixed size ring of recent errors used by Riemersma dithering.
- `bayer`: the recursive Bayer threshold matrices of ordered dithering, with the
  proof that each matrix of side `s` holds each of `0 .. s*s` exactly once.
- `hilbert`: the Hilbert walk that orders the pixels of Riemersma dithering, with
  proofs that a walk covers its square, visits no cell twice and moves one unit
  step at a time, and that the resulting pixel order visits every pixel of the
  image exactly once.
- `kernel`: the error diffusion kernels (Sierra, two-row Sierra, Sierra lite,
  Jarvis-Judice-Ninke, Floyd-Steinberg, Atkinson) and the neighbours of a pixel
  that receive its error.

`app/` holds the floating point work (palettes and nearest-colour search, the
k-d tree, threshold maps, gamma curves, error arithmetic) on `fimg` images.
