# rust_service

A 3D acoustic ray tracer: rays leave a speaker, reflect on the triangles of a
room, lose energy at each reflection, and the passes near a microphone are
written out as an impulse response (`ir_output.json`), with a few ray paths for
a visualisation (`visualisation_data.json`).

- `src/` is the verified library (Verus): splitting walls into triangles,
  choosing the surface a ray meets first, the bounce budget of a ray, the path it draws
  and the hits it records, gathering hits by one or many workers (with the proof that
  merging workers' buckets gives what one worker would gather), and the
  export's metadata.
- `app/` is the program around it: the floating-point geometry (glam), random
  ray directions (rand), the parallel run (rayon), command line (clap) and
  JSON files (serde, serde_json).
- `tests/` runs the library on concrete values.
