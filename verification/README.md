# tyda_lsp

The text, position and decision logic of the Tyda language server (a
TypeProf-compatible server for Ruby type inference), written in Verus with
its behaviour stated in contracts and proved.

- `src/` is the verified library: UTF-8/UTF-16 position conversion and
  incremental edits (`position`), Ruby source scanning for signature code
  lenses (`source_support`, `code_lens`, `accessors`, `signature_edit`),
  completion contexts (`completion_context`), RBS comment and type-file
  lookups (`rbs_comment`, `type_files`), lexical class context over the
  `ruby-prism` parse tree (`lexical`), ranking of rendered signatures and
  hover results (`display`, `hover`), the display caches (`display_cache`),
  diagnostics (`diagnostics`), definition locations (`locations`), workspace
  path rules and settings (`workspace`, `settings`, `jsonc`), messages
  (`messages`), the incremental workspace scan (`workspace_scan`: which
  files a scan visits, in `Path` order (`path_order`), and what it does
  with each) with its bookkeeping and
  pending marks (`scan_state`), the debounce epochs (`epochs`), which open documents are brought into the
  workspace cache and what a finished background analysis stores
  (`document_cache`), and the
  command-line run's progress line, diagnostic order and debug tallies and rankings
  (`cli`). Laws relating several functions are public proof functions
  named `law_*`.
- `tests/` runs the library on concrete inputs.
- `app/` is the executable around it: the command line, the TCP language
  server on `tower-lsp`, and the calls into the `tyda` analysis engine.
