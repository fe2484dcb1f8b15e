# sketchy

A fraud-scoring HTTP API over a Unix domain socket. Each `POST /fraud-score`
body is turned into a 14-coordinate feature vector, quantized to `i16`, and
searched against an IVF index of reference vectors for its five nearest
neighbours; the number of fraud labels among them picks one of six prebuilt
responses.

## Layout

- `src/` — the verified library (Verus):
  - `top5` — the running five-nearest list, its tie-break rule, and the
    proofs that offering candidates keeps the five nearest and that the five
    nearest of a candidate set are unique;
  - `scan` — the pruned scalar scan of a range of column-major vectors;
  - `index` — the index, bounding-box lower bounds, and the probe-then-repair
    search, proved to keep the same neighbours as a brute-force search;
  - `ivf_file` — reading the IVF6 file format;
  - `json`, `vectorize`, `date` — byte-level request-body scanning, field
    extraction and integer date arithmetic;
  - `http`, `responses` — request framing and routing, and the prebuilt
    responses;
  - `mcc` — the merchant category risk table and its file scanner;
  - `config`, `num` — settings and decimal integers;
  - `conn` — connection bookkeeping for the completion-queue event loop.
- `app/` — the executable: environment and file reading, floating-point
  feature scaling and query quantization, probe ordering by centroid
  distance, and the io_uring and blocking servers.
- `tests/` — tests of the library.
