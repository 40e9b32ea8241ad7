# keep_talkin

A byte-pair-encoding tokenizer: it turns text into token ranks and ranks back into bytes. The
library is verified with [Verus](https://github.com/verus-lang/verus).

- `src/` is the library. `tokenizer` cuts, encodes and decodes; `splitters` and `search` cut a text
  into pieces; `words` and `bpe` encode a piece; `vocabulary` and `encoder` hold the tables.
  `hugging_face` and `loaders` make tokenizers from what model files hold, with the help of
  `transforms`, `text` and `order`. `laws` states what holds of the tokenizer as a whole, above all
  that decoding undoes encoding; `relations`, `merging` and `spelling` state how the answers to
  several calls go together.
- `tests/` runs the library.
- `app/` reads model files and offers the tokenizer to Python.

What the library relies on without proof stands in items marked `external_body`: calls of `ahash`,
`aho-corasick`, `pcre2`, `base64`, `rayon` and a few functions of the standard library. The comment
above each of them says what is claimed.
