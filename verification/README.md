# local-code-intelligence

Code retrieval for local repositories, with its logic verified by Verus.

- `src/` is the verified library: chunking on syntax trees, incremental scans and their
  manifests, filters and source roles, query terms, fusion of the retrieval channels,
  index lifecycles, the language-server protocol, readiness and evaluation. Each function
  states what it returns; what holds between functions is proved in public proof functions
  whose names begin with `law_`.
- `app/` is the program around it: the command line, the MCP and REST servers, the embedded
  database, model services, language-server processes and files.
- `tests/` runs the library on concrete values, with the real parsers and globs.

Floating-point values are held as their bits, and times as nanoseconds; scores and means are
computed in `app/`. Paths are separated by `/`.

What the library takes on trust stands in wrappers marked `external_body`, each with what it
claims of the function that it calls: parsing (`syntax`), globs (`filter::request`), hashes
(`workspace`), URLs (`config`, `app::readiness`, `lsp`), and a few functions of the standard
library on characters and paths.
