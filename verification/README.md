# mini-lm

Answers to questions from local Japanese documents, each statement backed by a passage of a
document. The library holds the logic, with its contracts proved by Verus:

- documents: `chunking` (headings, sections, chunks), `terms` (search terms and their weights),
  `concepts`, `hierarchy` (sections and documents as parents of chunks), `indexing`, `digest`,
  `vectors`;
- questions: `profile` (terms, aspects and concepts of a question);
- retrieval: `search`, `fusion` (several rankings brought together), `correction` (further queries
  where the first hits are weak), `context` (the parents that go with a question or a batch);
- answers: `facts`, `prompts`, `audit`, `answer` (which request comes next, and what a reply does);
- the language model: `api` (requests, replies, failures), `stream` (replies that come in pieces);
- the application: `settings`, `tasks`;
- underneath: `text`, `listing`, `tally`, `ranking`, `records`, `pattern`, `json`.

What many calls keep is stated by the proof functions whose names begin with `law_`.

`tests/` runs the library on concrete values. `app/` is the desktop application around it: SQLite,
files, the keychain, HTTP and the commands of the user interface. Scores are floating-point
numbers and are computed there; the library works with ranks, whole numbers and order.
