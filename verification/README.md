# nnvis

The verified core of a preprocessor that turns a HuggingFace model directory
(`config.json`, `onnx/model.onnx`, `model.safetensors`) into a compact
`.nnvis` file for visualisation.

- `src/` — the library, verified with Verus:
  - `container` — the `.nnvis` container (magic, version, payload);
  - `config` — the architectural summary of `config.json` and the
    conceptual layers derived from it;
  - `onnx` — the nodes, initializers, value info and metadata extracted from
    a decoded ONNX model;
  - `scope`, `assignment` — name-scope parsing and the assignment of graph
    nodes to layers (metadata scope, text heuristics, fallback);
  - `grouping` — the grouped layer graph (groups and inter-layer edges);
  - `safetensors` — the header of a `model.safetensors` file;
  - `text`, `json`, `assoc` — character sequences, parsed JSON values and a
    string-keyed map used by the modules above.
- `tests/` — tests of the library.
- `app/` — the command-line program: file reading, protobuf and JSON
  decoding, JSON output and the FlatBuffer payload.
