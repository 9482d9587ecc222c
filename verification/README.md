# state-capture

Drains the `_outbox` tables of announced SQLite databases into closed batches of JSON lines, and
applies such batches to Postgres: to a log of events, a table of live rows and watermarks. One program
does both, `state-capture collect` and `state-capture apply`.

`src/` is the library, verified with Verus. It decides; it opens nothing. Work that alternates with
reads and writes is a run that says what it wants next and takes in what came of it:

| Run | Module | What it does |
|---|---|---|
| `DrainRun` | `outbox` | pages an `_outbox` into batches, deletes a page once its batch is spooled |
| `TableScan` | `schema` | finds the captured tables by their insert triggers |
| `TableRun` | `table` | emits an insertion for every row of a table, under reserved numbers |
| `SnapshotRun` | `snapshot` | floor, drain and tables of one database |
| `Sweep` | `collect` | a round over all announced databases |
| `ApplyRun`, `SpoolRun` | `apply` | the events of a batch, the batches of a spool |

`spool` names and sorts the batches, `announce` reads announcements, `collect::serve` decides between
ticks and wakes. `tables` holds the applied state in memory, operation by operation like the statements
in `sql`, with keys told apart as `keytext` says; `replay` proves what applying events keeps and brings about.

`app/` is the program around it: arguments, files, SQLite, Postgres and the socket.
