# lyrics_tui

A terminal viewer that shows the lyrics of the song a media player is
playing, line by line, in time with playback.

- `src/` is the verified library:
  - `lyrics` parses lyric files with `[mm:ss.xx]` tags, orders the timed lines
    by time, finds the line that is current at a playback position and gives
    the text of a line (the white space after the tags is counted in bytes, one
    per character, so a line can start inside a wide space character and then
    cannot be read);
  - `timestamp` reads `mm:ss.xx` as milliseconds;
  - `loader` normalises names and splits `artist - title` file names;
  - `text` holds character classes, searching and trimming;
  - `layout` and `screen` hold the placement of text on the terminal and the
    decisions of the main loop (what to redraw, when to reload lyrics, when to
    quit).
- `app/` is the program: terminal drawing, the MPRIS client, and the search
  of the lyrics directory, whose scoring uses floating-point similarity.
- `tests/` runs the library on concrete inputs.
