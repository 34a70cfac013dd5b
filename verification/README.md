# canvas

Planning for a GPU path renderer built on wgpu compute shaders. The library
(`src/`) decides, with proofs, everything that a frame does: how many draw
lists the list hierarchy holds, how many fraction bits a sample coordinate
gets, where every region of the frame buffer lies and whether a new buffer is
needed, how uploads are cut into chunks for the staging pools, which staging
buffer each chunk uses and how the pools recycle their buffers frame by frame, the sort's uniform table and reduction tree, and
the bindings and commands of each compute pass. `app/` creates the wgpu
pipelines and buffers and records what the library plans.

Modules of `src/`:

- `lists`: the list hierarchy, level by level.
- `target`: the sample fraction bits for a render target.
- `memory`: the frame buffer's layout and capacity.
- `staging`: upload chunks, their byte order, and the staging free lists.
- `pass`: compute passes as data.
- `sort`, `index`, `tessellation`, `tile`: each pipeline's part of a frame.
- `lib`: `DrawContext`, which plans a whole frame.
