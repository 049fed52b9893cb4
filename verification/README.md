# wysiwyg

The document model of a rich text editor for Matrix clients, written in Verus:
a tree of containers (formatting, links, lists, list items, quotes, code
blocks, paragraphs) and leaves (text, line breaks, zero-width spaces,
mentions), the edits made on it, and its HTML and Markdown forms. Every
function states what it does in its `requires` and `ensures`, and Verus proves
it.

## Layout

- `src/` — the verified library.
  - `handle`, `tree`, `leaf_nodes`, `kinds`, `text`, `unicode`: node
    handles, the node types and their text.
  - `dom`, `iter`: the document, its well-formedness and the basic edits
    (insert, append, replace, remove, join).
  - `range`, `find_range`, `find_extended_range`, `location`: ranges of
    locations for a selection, and their extension to whole words and lines.
  - `dom_block_nodes`, `paragraphs`, `list_methods`, `insert_node`, `split`: block nodes,
    lists, inserting at a cursor and splitting sub-trees.
  - `replace`, `insert_parent`: replacing the text of a range (leaving no
    empty and no neighbouring text nodes), and wrapping the text of a range
    in a new container.
  - `html`, `html_formatter`, `markdown`, `markdown_html`, `to_tree`,
    `parser`: the HTML, Markdown and tree forms of a document, and building
    one from parsed nodes.
  - `action_list`, `composer`, `pattern_key`, `errors`: actions on the
    document, the composer's state and its error types.
  - `laws`: properties that relate several functions.
- `tests/` — tests of the library on concrete documents.
- `app/` — the pieces that keep process-wide state, and reading HTML text
  with html5ever into the parsed nodes that `parser` turns into a document.
