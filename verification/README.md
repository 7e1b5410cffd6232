# Wikipedia revisions server

Serves the revisions of Wikipedia articles that were made within a period of time.

- `src/` is the library. It decides where each revision is stored, what the position and date
  indices hold, and what a query finds, and it is verified with Verus.
- `app/` is the program around it: files, named pipes, the downloader, threads and the web server.
- `tests/` runs the library.

How the library is laid out:

| module | what it is about |
| --- | --- |
| `layout` | directories, file names, and which file a revision belongs to |
| `text` | decimal numbers as text |
| `instant`, `time_map` | points in time, and maps ordered by them |
| `records` | compressed revisions and the data files they are appended to |
| `positions`, `archive` | position indices; that what is stored can be read back |
| `date_index`, `buckets`, `periods` | date indices, how dates are split over them |
| `state` | which date indices a query searches, and the lookup of a revision |
| `revision` | revisions, and which texts are compared to see what changed |
| `pipes`, `download` | the downloader and the pipes it fills |
| `external` | calls into other crates, and what is taken for granted of them |
