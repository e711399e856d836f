# stryke_office

An office-file toolkit: spreadsheets, documents, presentations, PDF files, metadata,
images, charts and barcodes.

- `src/` is the library. It decides what a sheet, a document, a deck or a picture becomes,
  on plain values, and every function of it is verified. All but the two of the lock in
  `mutex`, of which nothing can be said, have a contract that they are proved against.
- `app/` is the toolkit around it: a C interface that takes and returns JSON text, the
  reading and writing of files, and the floating-point work (sums and means, chart
  geometry, resampling).
- `tests/` runs the library.

## How the library is laid out

- Values and text: `value`, `text`, `reals`, `deep`, `sorting`, `base64`, `paths`.
- Spreadsheets: `grid`, `columns`, `edits`, `groups`, `ordering`, `records`, `render`,
  `reshape`, `sampling`, `sheets`, `stats`, `tables`, `tidy`, `transform`, with the formats
  in `formats`, `ods`, `workbook` and `xlsx`.
- Documents and presentations: `xml`, `container`, `blocks`, `docfmt`, `documents`, `docx`,
  `markdown`, `slides`, `deck`, `pptx`, `notes`, `links`, `meta`, `media`.
- Pictures: `color`, `raster`, `placing`, `drawing`, `shapes`, `morph`, `measure`,
  `compose`, `imaging`, `frames`, `registry`, `mutex`, `barcode`.
- Charts: `chart`, `figures`, `flows`, `vector`.

Floating-point numbers stand in the library as their bits, with the text they are written
as; `reals` compares them.

The calls into other crates are in `barcode`, `compose`, `container`, `drawing`, `frames`,
`media`, `mutex`, `text`, `value` and `xml`, each with what is taken for granted of it.
