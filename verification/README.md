# particlinator

A grid-based particle simulator. The library under `src/` is written in
Verus and holds the integer logic of the simulation, with its contracts
proved:

- `grid`: grid constants and bin index arithmetic;
- `binning`: counting particles per bin and laying the bins out (a stable
  counting sort), with the proof that every particle ends up once, in its
  own bin;
- `dispatch`: the nine groups of bins that can be collided in parallel, the
  proof that they partition the interior and never share a neighbour, and
  the metadata that locates them in the uploaded buffer;
- `collision`: the order in which particle pairs are collided, bin pair by
  bin pair, and a duplicate check;
- `spawner`, `templates`: when spawners emit particles;
- `app`: the frame and menu state machine;
- `upload`: byte views of the tables sent to the GPU.

`app/` is the program around it: the winit window, the wgpu renderer, the
egui menu and the floating-point physics. It expects the shaders under
`assets/shaders/` and the particle texture `assets/textures/circle.png` at
run time.
