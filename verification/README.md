# lian_world

A Terraria-style 2D world generator, split in two:

- `src/` is the verified library (Verus): block, biome and layer tables;
  the tile and biome grids; the shape toolkit and the biome fills; the
  biome division steps that work on integers (forest fill, stone fill,
  placement checks); the step cursor of the generation pipeline with its
  seeds and replay positions; snapshots of the settings; colour tables and
  pixel buffers; where biome labels go; seed parsing; the profiler's
  bookkeeping; and the names of the performance logs.
- `app/` is the egui program around it: windows and panels, file and
  directory access, JSON and PNG, timing, and the steps whose sizes come
  from fractional parameters.
- `tests/` runs the library on concrete inputs.
