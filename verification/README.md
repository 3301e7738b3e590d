# rkd

Compares two logs of a directory tree, each of which lists files by size, hash and path, and
reports which files were removed (`RM`), created (`CR`), copied (`CP`), moved (`MV`) or modified
(`MD`) between them.

`src/` is the library. It is written in Verus: what each function does is stated in its contract and
proved. `app/` is the command line program around it: it opens files and standard input, runs the
command that lists a directory, and prints. `tests/` holds tests of the library.

| module | contents |
| --- | --- |
| `text`, `order`, `sort`, `cursor` | characters and bytes of paths, their order by their ends, stable sorting, a cursor over a slice |
| `hash`, `line` | hashes in hex, and the grammar of a log line |
| `color`, `event`, `timer`, `tree` | what is said to the user, timing of phases, which trees can be compared and where their logs come from |
| `node`, `maps` | files, and their collections by path and by hash |
| `report` | the report lines |
| `model` | what a comparison does, as functions of its state |
| `rkd` | the comparison |
| `laws` | what holds of parsing, matching and writing paths |
| `trace` | what is known when both logs have been read |
| `account` | what the report says, given what is known when it starts |
| `promises` | what a comparison promises about the files that its logs list |

Files are reported in the order in which the logs first name them. Files whose hash comes with
different sizes are warned about and not matched for copies and moves. A line that cannot be read
and a copy of a file onto its own path are errors, on which the program panics.
