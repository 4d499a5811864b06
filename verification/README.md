# minitools

The verified cores of three small system tools, written in Verus, and the programs around them.

- **minieverything** keeps an index of all file names on NTFS volumes, brings it up to date from
  the change journal of each volume, and searches it by substring, wildcard or regular
  expression.
- **mini-http-server** answers one request per connection on `127.0.0.1:7878`.
- **whoholds** finds the processes that hold a file open.

## Layout

`src/` is the library. Every function states what it returns or changes, and Verus proves it.

| Module | Holds |
| --- | --- |
| `index` | entries, known directories and journal positions; insert, remove, rename, replace |
| `journal` | the byte formats of the change journal |
| `usn` | what journal records do to the index |
| `update`, `rebuild` | the course of an update of one volume and of a full build, step by step |
| `scan`, `volume` | walks turned into entries; which volumes are indexed |
| `search`, `report` | matching and searching; what the user is told |
| `http`, `server` | requests and responses; routes |
| `snapshot`, `resolve`, `process` | the handle table; finding names of handles; processes |
| `dospath`, `query`, `output` | device paths; what is asked for and found; how it is shown |
| `text`, `wide`, `sort`, `seqs` | text, UTF-16, a stable sort, facts about sequences |

Public proof functions state what holds across functions: that deleting undoes creating, that a
directory rename tells the same in two records or one, that a written request is read back, that
the longest device path decides, and so on.

A few functions call other crates or parts of the standard library that Verus has no contract
for. Each stands behind a small function marked `external_body` (or an `assume_specification`)
whose comment says what is taken on trust.

`tests/` runs the library on concrete values. `app/` holds what Verus does not see: command
lines, files, sockets, threads and calls of the Windows API.
