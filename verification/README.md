# hdr_burst

Merges a burst of raw photographs into one picture: align, merge, demosaic,
finish.

`src/` is the verified library. It is generic over the number type of its images
(the trait `Sample`), and every contract says which operations were applied, to
what and in which order. `app/` is the program around it: arguments, files, the
raw decoder, single precision arithmetic and the Fourier transform of a line.
`tests/` runs the library on known values.

| Module | What it holds |
| --- | --- |
| `plane` | two-dimensional arrays |
| `sample` | the arithmetic of a pixel value |
| `burst` | frames, noise model, colour filter patterns |
| `metadata` | what an Exif block says about the shot |
| `align` | pyramids and the search for tile offsets |
| `merge` | window, 2D transforms, Wiener filter, overlap-add |
| `demosaic` | kernels and border |
| `color_correction` | white balance, colour matrix, tone curve, gamma |
| `output` | bytes of picture files |
| `files` | which files make up a burst |
| `parallel` | work on several threads |
| `exact` | number types that reckon without rounding |
| `laws` | what holds of the whole pipeline under exact arithmetic |
