# Vesper

Vesper downloads webnovels and turns them into EPUBs. It tracks a novel over one or
more sites, fetches chapters at a polite pace, keeps them in a local library, and
writes the books. This crate is its library, written in Verus, with the program
around it.

## Layout

- `src/` is the verified library. The functions state in their contracts what they
  return and what they change, over plain mathematical values. One cannot: `now_unix`
  reads the clock, which can say anything.
  - `text`, `numbers`, `table`, `util`, `model`, `paths`: the ground floor.
  - `library` is the library as mathematics (maps of rows), `store` the tables that
    hold it, and `laws` what holds of every operation on it.
  - `web` and `json` are the doors to the URL, HTML and JSON crates. `source`,
    `profiles`, `site` and one module per site read pages through them.
  - `fetch` decides when to ask, wait, retry and give up.
  - `sync`, `repair`, `refetch`, `retitle`, `scrub` and `migrate` are the passes over a
    novel. Each is a state machine: it says what it needs next and takes the answer.
  - `epub` and `volumes` lay out the books. `config`, `schedule`, `service` and
    `messages` hold the program's settings, its decisions and its words.
- `app/` is the program: the command line, the network, the database and the files. It
  runs the state machines and does what they ask.
- `tests/` run the library, with the real crates behind it.

## What is trusted

A wrapper marked `external_body` makes one call into another crate, and its doc comment
says what is claimed of that call. Where a result takes pages to state, it has a name (a
spec function without a body): what is claimed is that it depends on the arguments alone,
and beside that a few short facts at most.

Each public proof function whose name starts with `law_` states a promise of the library
as a whole.
