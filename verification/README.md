# robo

The grid and raster logic of a small robot simulator, verified with Verus.

- `src/bresenham.rs`: the integer line walker (`Bresenham`), its model
  `LineState`, and the laws of the lines it walks (length, start cell,
  bounding box, connectedness).
- `src/occupancy.rs`: occupancy-grid queries: the clearance test around a
  cell, the search for a start cell, the first occupied cell along a ray,
  and how far a move gets before an obstacle.
- `src/map_draw.rs`: drawing rectangles on the map grid and the first test map.
- `src/grid_file.rs`: the stored map format, with the law that reading back
  what was written gives the same map.
- `src/canvas.rs`: placing a scaled image in a frame and laying two frames
  side by side.
- `app/`: the simulator program around the library: files, threads,
  windows, and the floating-point kinematics, lidar geometry and steering.
