# geo_ring_viewer

A viewer for rings of geographic coordinates (longitude, latitude and, in
3D, altitude in metres). Rings are written one point per line; the text is
cut into rings at every run of fifteen `=`, wherever it stands, except one
that stands in a comment (`#` or `//` start comments, so a commented-out
separator separates nothing).

- `src/` is the verified library (Verus): reading the coordinate text into
  rings, the messages for lines that hold no point, merging imported files,
  the status line, finding the text line of a picked point, laying the text
  out with that line highlighted, ring colours and outlines, and the state
  the viewer keeps. `src/laws.rs` and `src/line_laws.rs` hold the
  properties proved across functions: among them, that without commented
  separators the rings are the pieces between runs of fifteen `=`, that a
  picked point selects exactly the line it was read from when separators
  stand on their own lines, that texts joined by a separator line and
  merged files keep their rings and messages, and how the 3D reading
  relates to the 2D one.
- `app/` is the program around it: the egui/eframe window, file dialogs and
  file reading, and everything that computes with floating point (plotting,
  the 3D projection and camera, picking the nearest point).
- `tests/` runs the library on concrete inputs.
