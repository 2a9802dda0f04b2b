# html-extract

A command line tool that reads HTML and prints the parts of it that CSS-like
selectors pick, as a tree, as text, as attribute values, as JSON or as a slim
skeleton of identified elements.

The library under `src/` is verified with Verus:

- `parser` splits the command line into selector and display tokens.
- `dom` holds the document as a well-formed tree of plain values.
- `selector` parses selectors and pseudo classes and runs selector steps.
- `pipeline` compiles the commands into steps and runs them from the root.
- `display` renders the selected nodes as styled pieces of text or as JSON
  objects.
- `patterns` and the parts of `selector` and `display` that name outside
  results hold the calls into `regex`, `scraper` and `html-escape`.
- `properties` states and proves what holds of every input: what selector
  steps find, how commas combine groups, how commands split, what escaping
  and the slim display guarantee.

`app/` reads the input, parses the flags, prints the pieces with colors and
serializes the JSON objects.
