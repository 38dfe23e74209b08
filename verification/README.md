# m2_corpus

Corpus tools for next-word exploration: converters that turn text and HTML files into
conversation JSON, an n-gram trie with next-word predictions and stored examples, a query
session over an in-memory cache, and the models behind three word-map windows.

`src/` is the library, verified with Verus:

- `text`, `numbers`, `json`: characters, words, lines, decimal numerals, JSON values.
- `qa`, `html`: the two converters (transcript detection and cleaning; file patterns,
  parsed pages and what their selectors pick, page furniture, noise paragraphs and the
  regex-based cleaning).
- `tokens`, `trie`, `score`: tokenization, the n-gram trie and its scored predictions.
- `corpus`, `cache`, `session`: conversation exports, the memory-limited cache, and the
  query session's answers.
- `explorer`, `controls`, `punctuation`, `vocab`, `generation`, `confidence`: the
  hyperbolic explorer's model, its keyboard state machine, punctuation counts, new-word
  ranking, generated-text layout and confidence statistics.
- `viewer`: corpus item texts and the on-disk word batches of the spiral viewer.
- `spiral`, `behavior`, `radial`: the radial view's n-gram table, word behaviours,
  clusters and query choices.

`app/` holds the program around it: argument handling, files, the windows (macroquad,
rfd), serialization, and the floating-point geometry and scoring.

`tests/` runs the library on concrete inputs.
