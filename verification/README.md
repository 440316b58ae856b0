# manager-core

The engine of a dual-pane file manager: one address format for every place a
file can live (a local disk, an SFTP server, the inside of a ZIP or TAR),
listings sorted the way file managers sort them, searching by name and by
contents, comparing and syncing two folders, finding duplicate files, viewing
files as text or hex, and the decisions of a job engine that copies, moves and
deletes in the background.

## Layout

- `src/` is the library, written and proved with Verus. Every public function
  states what it returns in its contract, and the properties that span several
  functions are proof functions of their own, for example:
  - `roundtrip::lemma_uri_roundtrip`: the URI form of a path reads back as the
    same path;
  - `search::content::lemma_streaming_finds_what_whole_reading_finds`: searching
    a file a chunk at a time finds the text exactly when it is in the file;
  - `watch::lemma_due_at_most_once_per_burst` and its neighbours: how a burst
    of change notifications turns into refreshes;
  - `archive::index::lemma_climbing_out_is_refused`: no archive entry can name
    a place outside the archive;
  - `archive::index::lemma_listings_are_direct_children`: a folder inside an
    archive lists exactly the entries one level below it;
  - `sort::lemma_natural_order_transitive` and `sort::lemma_entry_order_transitive`:
    the listing order never goes round in a circle (the second names the one
    combination of options where it can);
  - `duplicates::run::lemma_groups_share_a_hash` and
    `duplicates::run::lemma_equal_hashes_are_grouped`: duplicates are exactly the
    files whose contents hash alike;
  - `archive::zip::lemma_next_day_is_one_more`: the date formula counts days.
- `tests/` runs the library on concrete values.
- `app/` is the part that does I/O: the storage backends (local disks through
  `std::fs` and `notify`, archives through `zip`, `tar` and `flate2`, SFTP
  through `russh`), the background walkers and the job engine, each of which
  asks the library what to make of what it read, and serialisable copies of the
  messages a frontend is sent.
