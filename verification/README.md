# airhorizon

Map tiles, terrain and skyline panoramas, with the logic verified by Verus.

- `src/` is the verified library. Coordinates, angles and heights reach it as
  IEEE-754 bit patterns (`ieee`), which it compares; trigonometry and projection
  happen outside.
  - `tile`, `basemap`, `mvt`, `mesh`, `label`: tile addresses and loading order,
    vector tiles and their geometry, what is drawn and which labels find room.
  - `asc`, `lidar`, `tiffdir`, `gridfile`, `dem`: terrain grids, LIDAR rasters and
    what their directories say, the grid cache file, and which tile answers
    for a point.
  - `horizon`, `ridge`, `sight`, `water`, `panorama`: the skyline, ridge lines,
    gills, lakes and visible summits.
  - `mapdata`, `pbf`, `peaks`: walker paths from OpenStreetMap, the range of an
    extract's numbers, and the table of summits.
  - `ui`, `atlas`: the viewer's state machine and the font atlas.
  - `order`, `text`: stable sorting and the text that file formats use.
- `tests/` runs the library on concrete values, with the real decoders linked.
- `app/` is the viewer around it: files, the window, the GPU and floating-point
  geometry.
