# soundbox

A sound-effects library manager: it indexes folders of audio files, caches
waveform peaks, searches filenames and folders fuzzily, renames files safely,
keeps several independent profiles, and moves user metadata between machines
in `.sbpack` files.

The rules of the library are written in Verus and proved:

- `src/rename.rs`: which file names are acceptable on Windows and POSIX,
  cleaning up a proposed name, the collision rule of a rename (an existing
  file is never overwritten) and planning an undo.
- `src/cache.rs`: the binary format of the peak cache; decoding what
  `encode` wrote gives the peaks back.
- `src/search.rs`, `src/order.rs`: scoring fuzzy matches and ranking hits by
  a verified stable merge sort.
- `src/profiles.rs`: the profile registry; every operation keeps an active
  profile that exists, and names stay distinct.
- `src/pack.rs`: matching pack entries to local sounds, previewing and
  planning an import, and the pack's byte encoding.
- `src/ident.rs`, `src/scan.rs`, `src/similar.rs`, `src/audio.rs`,
  `src/db.rs`, `src/paths.rs`, `src/text.rs`: content keys, scan decisions,
  similarity candidates, frame arithmetic, tag and folder rules, path joins
  and string helpers.

`app/` is the command-line program around the library: SQLite storage,
decoding with symphonia, loudness and timbre analysis, playback, and the file
system work.

`tests/` runs the library on concrete inputs.
