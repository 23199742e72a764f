# rrtimelapse

Keyframe ramping for RapidRAW `.rrdata` sidecars, as a Verus-verified
library with a thin desktop shell around it.

Edit a few turning-point frames of a timelapse in RapidRAW and rate them
5 stars; the ramp engine then plans every frame in between: numeric
adjustments are blended between the two bracketing keyframes, curve sets
are blended where they line up, masks matched by id track their geometry,
and everything that has no meaningful "halfway" (crop, geometry, LUT and
lens choices, UI state) is carried from the nearest keyframe.

## Layout

```
src/            the verified library
  json.rs         a JSON model (values and key-sorted objects) with its laws
  params.rs       which adjustment leaves ramp, the leaf walker, dotted paths,
                  curve-set and mask blending, RapidRAW's parameter order
  interpolate.rs  bracketing keyframes, the per-frame plan, deflicker shift
  sequence.rs     frames, natural filename order, image extensions, sidecars
  rrdata.rs       the sidecar document and its backup path
  preview.rs      embedded-JPEG extraction and thumbnail data URLs
  deflicker.rs    the averaging window of the brightness trend
  commands.rs     keyframe suggestions, parameter lists, sidecar writes
tests/          tests on concrete values
app/            the desktop shell: file I/O, JSON (de)serialisation, threads,
                image resizing and the floating-point blend weights
```

Numbers inside adjustments are generic (`N`); the blend between two
keyframes is a closure handed in by the caller, so the library states and
proves what is blended where, for whatever arithmetic the closure does.
