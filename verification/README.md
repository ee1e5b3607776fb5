# tagd

A file-tagging daemon. Small tagger programs each look at a changed file and
report `(key, value)` tags; the daemon runs them in dependency order, hands each
tagger the values of the keys it depends on, and stores the tags in SQLite,
where `tagctl` can query them.

## Layout

- `src/` is the verified library (Verus):
  - `registry.rs`: the run plan. Taggers whose dependencies nobody can
    provide are dropped, the rest are grouped into stages by a topological
    sort, and a dependency cycle is reported with the taggers it strands.
  - `queue.rs`: one file's pass through the plan: which tagger runs next,
    with which dependency values, and how its tags feed later taggers.
  - `tagger.rs`: the tagger protocol (info, requests, responses, the
    `Tagger` trait, argument handling, the modification-time check).
  - `glob.rs`: `*` / `?` dependency filters.
  - `scan.rs`, `event.rs`: which files are taggers, which events are live.
  - `strutil.rs`: text helpers the taggers share.
  - `taggers/`: what each tagger concludes from the facts it reads.
- `app/` is the unverified shell: the daemon's event loop, the fanotify
  watcher, the query socket, the database, running tagger processes, the
  `tagctl` client, and the reading side of each tagger.
- `tests/` runs the library on concrete values.
