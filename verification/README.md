# ctsq

Cascading tree-sitter queries: structural code search across languages, with one small
selector language over six grammars (C, C++, JavaScript, Python, Rust, Go).

A selector such as `(*function#main @f).body((&function#malloc @call))` is parsed,
compiled to tree-sitter patterns for one language, and run over a source text. The same
syntax trees feed structural outlines, a project-wide index of definitions, and a call
graph with resolved call sites.

## Layout

`src/` is the library. It is written in Verus: every function carries a contract over
mathematical views of its data, and the contracts are proved.

| Module | What it holds |
|---|---|
| `query` | the selector language: syntax tree, lexical structure, grammar, parser, and how queries are written |
| `compiler` | from selectors to patterns; `compiler::lang` has the vocabulary of each language |
| `runner` | running patterns over a text, and the results as lines |
| `syntax` | syntax trees as plain values; the boundary to tree-sitter |
| `resolve` | definitions and call resolution: `rust`, `go`, and `fallback` by name; `graph` |
| `calltree` | callers, callees and the call graph as text |
| `tree` | structural outlines |
| `files`, `search` | which files a command works on, and what a search shows |
| `text`, `order`, `path` | strings, stable sorting, paths with slashes |

Public proof functions whose names begin with `law_` state what holds across functions,
such as that ranking goes by locality, that there is one edge per caller and callee, that
the vocabulary is the same in all languages, or that a query that is written is read back.

`app/` is the command line: arguments, the file system and printing. `tests/` runs the
library on concrete values.

## What is trusted

The library calls tree-sitter and its six grammars. What they compute is named, not
described: the nodes of a tree, the fields of a node, the message for a pattern that is
refused, and the matches of a pattern. The wrappers are in `syntax`. A few functions of
the standard library on characters and strings are specified in `text` and `syntax`.

## Combinators

`A > B` nests the pattern of `B` in that of `A`. `A + B` puts the pattern of `B` behind that
of `A` with an anchor, for adjacent siblings, and `A ~ B` without one, for any later sibling.

Tree-sitter patterns nest direct children only. What may stand at any depth, `B` in `A B` and
what is asked for in a body, is searched for on its own: a compiled query holds, besides its
pattern, the patterns that are searched for strictly inside the node of a capture.

## Paths

Paths have `/` between their components. What the separators of a platform are is not the
library's to know: the command line hands it paths with slashes.
