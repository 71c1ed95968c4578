# Amiga Game Vault

A self-hosted manager for Amiga **ADF** disk images. It ingests uploads, identifies them
against reference DATs (or by TOSEC filename), deduplicates scene variants into one
Edition per logical disk, and normalizes names to a clean, readable form:
`Title-Kebab_vVer_lang_dNNofMM_uid.adf`.

The decisions are a library that is verified with [Verus](https://github.com/verus-lang/verus);
what reads, writes and talks to the network is ordinary Rust around it.

- `src/`: the library. Every function states what it returns, and Verus proves it.
- `tests/`: the library on concrete values.
- `app/`: the server: SQLite, the blob store's files, external tools, HTTP.

## The library

| Module      | What it decides                                                          |
|-------------|--------------------------------------------------------------------------|
| `identity`  | content hashes, and the UID that is a prefix of the SHA1                  |
| `naming`    | TOSEC filenames, kebab titles, canonical filenames and their way back     |
| `edition`   | what scene flags say of a dump; which Edition and category a name is of   |
| `ranking`   | the primary of an Edition, the lineages of a set and the one to prefer    |
| `dat`       | DAT catalogues, and which entry hashes match                              |
| `ingest`    | containers, and the images in them                                        |
| `store`     | where a blob lies                                                         |
| `catalog`   | which row a Title or Edition is, the rows of a set, rows left empty       |
| `db`        | rows, the views made of them, and which Editions are browsed              |
| `service`   | ingest, primaries, sets, works, playable variations, re-identification    |
| `enrich`    | title matching, provider pages, and how their results merge               |
| `web`       | statuses, download names, archives and the page                           |

Facts that span functions stand beside them as public proof functions, under "Laws".

## What is trusted

Digests (`sha1`, `md-5`, `crc32fast`), hex (`hex`), gzip (`flate2`), zip (`zip`) and HTML
selection (`scraper`) are called through small wrappers whose contracts are believed, not
proved. So are two items of the standard library: the debug form of a text, and
`String::push`. The doc comment of each says what is claimed of the call.
