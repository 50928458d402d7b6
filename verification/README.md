# nanoclaw_core

The core of a chat assistant runtime, written in Verus: every function in
`src/` carries a contract that Verus proves.

- `text`: characters of strings, Unicode whitespace and trimming, substring
  search, prefixes, lexicographic order (the order of `str` comparison) and
  decimal rendering, all stated over `Seq<char>`.
- `sort`: stable insertion sort by a textual timestamp, with the proof that
  it is a stable sort.
- `str_map`, `sorted_set`: a string-keyed map and a strictly sorted string
  set, kept as vectors with their invariants.
- `types`: messages, registered groups, chat metadata.
- `db`: the in-memory store (router state, sessions, groups, chats, messages)
  and its queries.
- `router`: XML escaping, prompt and reply formatting.
- `container_output`: extraction of results printed between output markers.
- `queue`, `group_queue`: FIFO queues of groups without duplicates; the
  second bounds how many groups are processed at once.
- `runtime`: the store plus the queue; builds each group's prompt.
- `scheduler`: which tasks are due.
- `config`, `cli`: settings from textual values, command-line flags.
- `ipc_loop`, `e2e`: parsing of tab-separated message batches and the reply
  lines for the groups they touch.

`app/` holds the `nanoclawd` program: environment variables, files and
directories, and the command line; it calls the library for everything else.
`tests/` holds the tests.
