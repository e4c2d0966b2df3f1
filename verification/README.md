# steno

A compiler from a fenced steno-theory source (`dict.steno`) to Plover
dictionaries, LSP snippet tables, a firmware data header and a tree for a
viewer, written in Verus: every function of the library carries a
`requires`/`ensures` contract over mathematical models (`Seq`, `Set`, `int`)
and is proved against it.

## Layout

```
src/
  stroke/      steno key sets: parsing, canonical rendering, count banks,
               stroke merging and subtraction
  parse/       `.steno` source and template parsers (errors carry line,
               column and message)
  expand/      count fan-out, type-append chains, family fixup, one-liner
               variants; `infinite/` builds the replay tables, walks a stroke
               sequence, and emits the C++ data header
  editor/      the simulated editor (plain, auto-closing, auto-indenting),
               movement compilation and Plover serialization
  render/      plain and smart Plover dictionaries
  snippet.rs   LSP snippet artifacts
  blocks.rs    structural `@literal` blocks
  json_out.rs  insertion-ordered string map and its JSON form
  viz/         the category/stroke tree for the viewer and its JSON
  report.rs    collision guards, size figures, the no-param corpus
  text.rs      string helpers with exact contracts
app/main.rs    the command-line programs: read the corpus, call the library,
               write under `out/`
tests/         executable tests of the library
```

## Laws

Properties that relate several calls are stated and proved as `pub proof fn
law_*` items beside the functions they speak of, for example
`stroke::keys::law_parse_render` (rendering is a right inverse of parsing),
`stroke::bank::law_count_encoding_injective` (distinct counts give distinct
strokes), `editor::landing::law_movement_lands` (the compiled movement puts
the cursor on its target in every editor profile),
`render::law_build_dict` (keys in order of first appearance, each with the
value of its last entry, collisions where a value changed, else the first
entry's error), `viz::law_one_liner_groups_with_sibling` (a one-liner
variant shares its sibling's node) and `viz::axis::law_buckets_partition`
(bucketing partitions the leaves).

## Programs

```sh
app build-dict    [root]   # out/plain-ts.json, out/smart-ts.json
app build-nvim    [root]   # out/vim-snippets.json, out/snippets.json
app measure       [root]   # size matrix, writes nothing
app build-javelin [root]   # out/steno_generated_dictionary_data.h
app viz-data      [root]   # out/viz-data.json
```

A collision aborts before any file is written.
