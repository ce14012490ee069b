# lyricdock

A desktop lyrics overlay for Spotify on Wayland. The logic of the overlay is a
library whose behaviour is stated in contracts and proved with Verus; the
window, the tray, the player connection and the file system are a thin
program around it.

## Layout

- `src/` — the verified library
  - `text`, `timestamp`: trimming, searching, unsigned numbers and LRC time tags
  - `lyrics`, `lrc`, `yrc`: the line model, its time order, and the two lyric
    formats (line-timed and word-timed)
  - `progress`, `display`: how far a line has been sung, and which lines the
    two rows of the overlay show
  - `track`, `source`, `matching`: the playing track, which lyrics belong to it
    and when to fetch them
  - `settings`, `color`, `icon`: configuration, window state, colours and the
    tray icon
  - `cache`: grouping the fetched lyric files and keeping their folder under
    its size limit
- `tests/` — tests of the library on concrete values
- `app/` — the program: event loop and rendering, D-Bus, tray, files

## Building the program

`app/` draws its layer-shell window with the `layer_shika` crate. That crate
is not listed in `Cargo.toml`, because its dependency tree is very large;
add it there to build the program. The library and its tests do not need it.
