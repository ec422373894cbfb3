# xsgeo

Reverse geocoding: which country, region, county, local administration and
locality hold a point. The library is written in Verus: every executable
function in `src/` carries a contract, and all of them are proved but for the
few trusted ones named below.

Two files are read:

- the index (`divisions.xs-index.gz`, format XSCI): subtype, bounding box and
  slab range of every division, and two grids, of one and of a quarter of a
  degree, that list candidate divisions for each cell;
- the slab (`divisions.xs-poly`): one FlatBuffers chunk for each division with
  its identifier, its names and its polygons.

A query looks up the candidates of the point's two cells, fetches chunks until
every level that the candidates can fill is filled, and reports the first
division that holds the point for each level.

## Layout

- `src/` is the library. Coordinates are held by their IEEE 754 bit patterns and
  reasoned about as integers (`ieee`); the file layouts are stated in `layout`,
  `chunk` and `ring`, and reading them back is proved.
- `tests/` runs the library on concrete values.
- `app/` is the Cloudflare Worker around it: R2 requests, JSON, and what needs
  floating point.

What is not proved is marked `external_body` or `assume_specification`:
decompression (`flate2`), JSON (`serde_json`), UTF-8 decoding and
`String::push`.

A host hands the library two functions: one that reads a decimal number, and one
that decides whether a polygon holds the point.
