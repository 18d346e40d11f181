# point_cloud

The verified core of a point cloud converter and streamer. Points are sorted
into a hierarchy of cells; each cell keeps one point per slot of a hex sub
grid, remembers a bounded number of points per child cell as overflow and
hands the rest on to the next hierarchy level. Cells are stored as binary
files; a renderer streams them in, nearest and coarsest first.

## Layout

- `src/` — the library, verified with Verus.
  - `bits`, `bytes`, `point`, `cell`, `format`: the binary cell format, with
    write/read round trips proved.
  - `hex`: offset and axial hex coordinates and their round trips.
  - `cell`: adding points to a cell's grid and overflow, and what is handed on.
  - `cascade`: which cell to fill next as a batch of points is sorted down
    the hierarchy.
  - `naming`: folder and file names of cells; distinct cells get distinct files.
  - `queue`, `stream`: which cells to draw, load and forget as the camera
    moves, from the cells that each streaming frustum lists.
  - `sorted`, `visible`: the same decisions from the change of the cells in
    view of each hierarchy, and for events of cell assets.
  - `cellbuffer`: the contents of the shader buffers that list cells.
  - `conversion`: the progress of converting a list of files.
  - `assets`: status, source, cell and handle count of each cell asset; what
    a load request and the end of a load do; which are freed and saved.
  - `report`: the text of a benchmark report.
  - `source`: where assets come from, answers of a cell source and their errors.
  - `render`: vertex buffer lengths and the grouping of cells by distance
    into draw passes.
  - `point`: the point record and which field a PLY property sets.
  - `event_set`: the trait of things events are sent through.
  - `fxmap`, `cellsets`, `assetmaps`: the `rustc_hash` and `caches`
    collections used, with one trusted wrapper per method called.
- `tests/` — tests of the library.
- `app/` — the command line converter: argument handling, file reading and
  writing, floating point geometry, and the readers of input formats.
