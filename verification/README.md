# cvedb

A library and command-line tool that downloads, stores and searches CVE records from the
National Vulnerability Database (NVD REST API 2.0), with its logic verified by Verus.

## Layout

- `src/` — the verified library:
  - `cve.rs`: severities, CPE names and their matching, configuration trees, CVE records.
  - `codec.rs`: the compact text format in which configuration trees are stored.
  - `roundtrip.rs`: proofs that stored configuration trees read back as written.
  - `search.rs`: search queries and sort keys.
  - `options.rs`: the search that command-line options ask for; filtering of results.
  - `dates.rs`: dates given on the command line.
  - `db.rs`: the SQL a search runs, schema upgrades, and assembly of records from rows.
  - `nvd.rs`: request URLs and the conversion of NVD items into records.
  - `update.rs`: the steps of a database update (pages, windows, pauses).
  - `display.rs`: severity badges and first lines of descriptions.
  - `text.rs`: string primitives (comparison, search, decimal numerals, UTF-8).
- `app/` — the program around it: command line, SQLite, HTTP, JSON and colored output.
- `tests/` — tests of the library.

## Usage

```console
$ cvedb log4j
$ cvedb --after 2021-01-01 --before 2021-12-31 log4j
$ cvedb --vendor apache --software-version 2.4.0
$ NVD_API_KEY=your-key cvedb --update
$ cvedb --data-version
```

The database lives at `~/.config/cvedb/cvedb.sqlite` unless `--database` says otherwise.
