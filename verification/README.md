# img2svg core

Turns RGBA pixels into a layered color SVG.

`src/` is the verified integer core (Verus): connected components on the
pixel grid, speckle removal, color segmentation over caller-decided links,
pre-cleaning, the image classifier, marching-squares outline tracing with
Ramer-Douglas-Peucker simplification, layer ordering, the SVG splicing and
statistics, and the calls into VTracer. Every public function states its
result over spec functions; the `law_*` proof functions state properties that
span calls (speckle removal adds no color and keeps large regions, the
segmentation partitions the opaque pixels, outer rings (one per
8-connected foreground component) and hole rings (one per enclosed
4-connected background component) wind in opposite directions, pre-cleaning keeps alpha, and so on).

VTracer numbers the clusters of a run with 16-bit indices and panics when
it runs out. The tracing functions therefore take only images on which that
cannot happen (`trace_safe`): those small enough that no binary image of
theirs can open 65535 clusters, and any larger image whose weighted count of
colour changes between neighbouring pixels, plus the width and twice the
height, stays below 65535. `fits_tracer` tests this; the pipeline answers a
tracing error for an image past it. A flat logo of any common size passes;
a large photograph or a fine checkerboard may not.

`app/` is ordinary Rust around it: the OKLab color math, palette
quantization and gradient fitting (all floating point), the serde-facing
option and result types, the `trace` entry point that runs the stages in
order, and the WebAssembly bindings.

`tests/` exercises the core on concrete images.
