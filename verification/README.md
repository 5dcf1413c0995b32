# hl_blobox

Blob tracking for video frames, as a filter effect for AviUtl2. A frame is keyed
by brightness, colour or motion; what is keyed is split into blobs; each blob
gets a bounding box; and the boxes are decorated with strokes, fills, markers,
connection lines and labels.

- `src/` is the library. Every function in it has a contract that Verus proves.
  It works on whole numbers: what is measured in floating point reaches it as
  ranks, whole numbers in the order of the measured values.
- `app/` is the plugin around it: the host's API, files and dialogs, text
  rendering, and the drawing itself, which is floating point.
- `tests/` runs the library.

| module | what it holds |
| --- | --- |
| `config` | the settings |
| `keyer` | masks, blobs, and the choice of boxes |
| `motion` | the frames that motion is seen against |
| `overlay` | outlines, fills, dashes, connection lines, and the order of drawing |
| `text` | the placing of labels |
| `wildcard` | the templates of labels |
| `rng` | the random numbers of fills and labels |
| `preset` | saved settings |
| `order`, `grid`, `pixel` | sorting, indexing, pixels |
