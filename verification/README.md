# ffp

A file picker for the terminal: type a few letters, see the files that match, the
recently used ones first, with a preview of the selected one beside them.

`src/` is the library with the picker's logic: matching, recency, loading, the state
behind the keys, the texts and areas of the screen, and the bytes of its graphics. It is
written in Verus: each function states in its contract what it returns or changes, and
Verus proves that it does. `app/` is the program around it. It runs the threads and
processes, reads and writes files and the terminal, and does what is computed in floating
point. `tests/` runs the library on given values.

## The library

- Matching: `fuzzy` and `typo` (words in names, with typing errors; `edit` has the edit
  distance), `search` (the score of an entry), `rank` (the best matches), `incremental`
  (searching while a query is being typed).
- Recency: `clock`, `history` (the list of used files), `desktop` (the list that the
  desktop keeps) with `rfc3339`, `recency` (which of the known times counts), `entry`
  (a file or directory), `pool` and `fd` (loading entries).
- State: `app` (queries, matches and the selection), `keys` (what a key does), `viewer`
  (what the preview shows), `session` (arguments and the main loop's decisions).
- Screen: `view` (layout and texts), `style`, `preview`, `highlight`, `files` (kinds of
  files and their icons).
- Graphics: `kitty` (the terminal's graphics protocol) and `parts` (its commands part by
  part), `video`, `thumbnail` and `picture` (images in memory), and `flicker`, which reads
  written bytes as a terminal does.
- Tools: `launch` (how a file is opened), `trace` (the log of slow steps), `bench`.
- Basics: `text`, `encoding`, `number`, `order`, `paths`, `lru`.

What is proved rests on the contracts of a few functions of other crates (base64, image,
ratatui, syntect) and of the standard library. Each is declared in the module that calls
it, with a comment on what its contract claims.

Scores are integers in fifths of a point, times of day are nanoseconds since the epoch,
and the clock that drives the animation is handed in as a number of nanoseconds.
