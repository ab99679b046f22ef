# docdb

A small document database, verified with Verus.

- `src/` is the library. Every function in it is verified against its
  contract, but for what it takes from the standard library on trust. Three
  small wrappers hold one call each: `text::string_from_utf8`
  (`String::from_utf8`), `text::push_char` (`String::push`) and
  `json::debug_string` (the debug form of a string, which the contracts call
  `json::debug_text`). Two specifications in `document` say what
  `String::from` makes of a string slice, and that converting a type into
  itself changes nothing.
- `tests/` runs the library on concrete values.
- `app/` is the program around it: it reads and writes the files, runs the
  interactive shell, and with the argument `demo` a tour of every layer.

## Layers

From the bottom up:

| Module | What it holds |
|---|---|
| `bytes`, `text`, `float` | little-endian numbers, strings, floating-point numbers as bits |
| `document`, `encoding` | values and documents, and their binary form |
| `wal`, `disk`, `pager`, `recovery` | the write-ahead log, pages, transactions, and what a crash can leave |
| `chain`, `heap` | documents as chains of pages, with a list of free pages |
| `node`, `tree`, `btree` | a B+Tree from strings to records |
| `query` | filters such as `{"age": {"$gt": 25}}` |
| `journal` | the actions on the two files of a collection, in one order, and what a crash can leave |
| `collection` | documents by their `_id` |
| `json`, `repl` | JSON text and the commands of the shell |

The library touches no file. A pager takes over the contents of its two files
when it is opened, and hands out the actions that are to be performed on them,
in order: append to the log, write a page, wait for storage, cut the log. A
collection has two pagers, and hands out the actions on both in one list.

## What is proved

Besides the contract of each function, the proof functions whose names begin
with `law_` state what holds of several functions together. Some of them:

- A transaction that is cut short by a crash is recovered whole or not at all,
  and recovery itself may be cut short (`recovery`).
- Adding, replacing or removing a document that is cut short by a crash leaves
  the documents from before or those from after
  (`collection::law_interrupted_operation`).
- A generated identifier is never one that is taken
  (`collection::law_generated_id_is_unused`).
- A new collection takes ten million documents, as long as there are pages for
  them (`collection::law_new_collection_has_room`, `law_room_is_used_up`).
- Documents are listed in the order of their fields `_id`
  (`collection::law_documents_in_order`).
- What is stored is read back, freed pages are reused, and the counter of
  identifiers survives (`chain`, `collection`).
- The index is a map whose keys are listed in order, whatever was added and
  removed (`tree`, `btree`).
- What is encoded is decoded again, and what is written as JSON is parsed
  again (`encoding`, `json`).
- A line of the shell that fails is answered, and leaves every stored document
  as it was (`repl::law_failing_line_changes_nothing`).
