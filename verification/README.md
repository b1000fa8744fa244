# activitywatch

The logic of ActivityWatch, an automated time tracker, as a library verified with Verus: the
transforms of event lists, the datastore and its worker, the client with its offline queue, and
the reports of the command-line client.

## The library

`src/` holds everything that decides or computes. Times of events are in nanoseconds since the
Unix epoch; instants that are read from text keep leap seconds.

| Module | What it holds |
| --- | --- |
| `event`, `json`, `model`, `textmap`, `text`, `time` | events, values, buckets, maps by text, texts and instants |
| `flood` | filling short gaps between events and merging events with the same data |
| `filter_period` | keeping the parts of events that lie in given periods |
| `union_no_overlap` | merging two lists of events, the first of which takes precedence |
| `query` | the statements that read and write events, and what their rows become |
| `datastore` | the buckets of a datastore and what every change does to them |
| `worker` | what becomes of each request, and when changes are committed |
| `queue`, `queue_file` | the offline request queue and its file |
| `config`, `classes`, `options` | configuration, categorization classes, options of the server |
| `legacy_clean` | pruning buckets of other devices from own staging databases |
| `cli`, `report` | what the command-line client reads and writes |

Contracts speak of mathematical views: lists of events as sequences, objects of JSON and sets of
buckets as maps. Laws that relate several functions stand as public proof functions whose names
begin with `law_`.

What the library takes from outside crates (instants from `chrono`, addresses from `reqwest`,
configuration files from `toml`) it calls through small functions marked `external_body`, each
with a comment on what is believed of the call.

## Around it

`app/` performs what the library decides: HTTP requests, files, the database, threads and the
terminal. It also reads and writes JSON, whose texts it hands to the library, and numbers of
seconds in double precision.

`tests/` runs the library on given values.
