# docparse

Two parts of a document parser, verified with Verus.

Recognition turns the image of a region into text, a formula or a table. A region is scaled to a
size that the encoder takes (`size`) and laid out as planes of normalized values (`pixels`,
`rounding`). The encoder runs once, the decoder once per token (`unirec`, `model`, `tensor`), and
each time the token with the highest score is taken (`greedy`). The tokens are turned into text
(`mapping`, `json`, `detokenize`, `text`).

Resources finds the images and forms of a PDF page (`images`, `names`, `pdf`). Images stay as
they are stored until their pixels are asked for. Forms are resolved with their own resources, to
a limited depth.

Numbers with a fractional part are held as bits or as pairs of integers, and their arithmetic is
done on integers. Calls into `tract`, `lopdf` and `serde_json` stand in `model`, `tensor`, `pdf`
and `json`, with contracts that are taken on trust.

- `src/`: the library
- `tests/`: its tests
- `app/`: loading of model files, scaling of images, and conversion to floating-point numbers
