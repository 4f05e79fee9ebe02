# Chisel

Chisel turns Minecraft Java Edition blocks into bricks of 16 voxels a side and
reads the block states of zipped worlds. This is the verified core: a Verus
library for the formats, the decoders and the rules, and a thin program around
it.

- `src/reader`: block state keys, the table of block states, region files and
  the decoding of chunks.
- `src/carver`: block state files, models, textures, palettes, voxel grids,
  fluids, and the geometry and materials files.
- `src/export.rs`, `src/vox.rs`, `src/bake.rs`: looking single block states up
  in the baked files, writing them as MagicaVoxel files, and what the bake tool
  is asked to do.
- `app`: reading and writing files, JSON and NBT, and the placement of model
  faces in space, which computes with floating-point numbers.
- `tests`: ordinary Rust tests of the library.

The formats in short:

| File | Layout |
|---|---|
| `block_states.bin` | magic `0x42534944`, entry count, then per entry number, key length, key |
| `geometry.bin` | `GEOM`, slot count, shape count, shape numbers, shapes of 520 bytes |
| `materials.bin` | `MATL`, slot count, payload count, payload numbers, offsets, payloads |

Public proof functions named `law_...` state what holds across functions, such
as that the files give back what was written to them.
