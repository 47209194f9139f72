# Cairn

Cairn keeps an archive of chat conversations and derives a knowledge graph from
them. An export is read and its conversations are stored. A language model then
says what each conversation is about. From its answers come topics, entities,
concepts and patterns, which are linked to the conversations and can be searched,
browsed and asked about.

The library under `src/` holds what the program decides. It is written for Verus,
and each function's contract is proved. The tables of the database appear in it as
lists of rows. `app/` reads and writes them, talks to the endpoints and calls the
library in between.

## The library

| module | what it holds |
| --- | --- |
| `text`, `double`, `natural`, `json`, `seqs`, `ids` | texts, floating-point numbers by their bits, natural numbers of any size, JSON documents, lists, fresh names |
| `sql` | what the database makes of a JSON value: an integer, or a place in an order |
| `archive` | checksums, dates and packed texts |
| `config` | the settings of a workspace |
| `ingest` | reading exports; extracting a conversation step by step (`ingest::run`) |
| `kg` | the items in a model's answer |
| `llm` | requests to an endpoint, its replies, and the check of its health |
| `store` | the graph, the queue of extractions, the sources |
| `integrity` | what every operation on a workspace keeps |
| `graph`, `search`, `path`, `lens`, `home`, `workbench`, `ask` | what is shown, found and answered |

Floating-point numbers are held by their bits and compared, never added up. An
embedding is a list of 32-bit words.

What the proofs rest on besides Verus are the contracts of a few functions of other
crates: reading JSON (`serde_json`), checksums (`sha2`, `hex`), dates (`chrono`),
compression (`zstd`), fresh names (`uuid`) and some of the standard library. Each is
wrapped in a function of its own, and the comment above it says what is taken on
trust.

## The application

`app/` holds the database (`rusqlite`, `sqlite-vec`), the endpoints (`reqwest`), the
settings file (`serde_yaml`), and the commands that a user interface calls. Searches
by words and by nearest embeddings are made by the database. Arithmetic on
floating-point numbers is done there, too.
