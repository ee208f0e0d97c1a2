# trovers

The verified core of a keyboard-driven terminal media player and downloader
that drives `yt-dlp` and `mpv`.

- `src/` is the library, written in Verus. It holds the logic, each function
  with a contract that Verus proves:
  - `ytdlp`: reading what `yt-dlp` prints (stream URLs, progress and
    destination lines, metadata fields, errors), the arguments it is run with,
    the scratch and finished files a download leaves, and the decisions of the
    download and retry loops;
  - `tui::ui` and `tui::input`: the text the interface shows (clock times,
    truncated labels, section widths, separated info lines, panel titles,
    album rows) and the check of playlist names;
  - `player`: reading the owner of a player control socket from its name;
  - `playlist`: playlist entries and shuffled play orders;
  - `text`: the character-level helpers the rest is built on.
  Laws that relate functions stand as `law_*` proof functions beside them.
- `app/` is the ordinary Rust around it: spawning `yt-dlp` with tokio,
  awaiting it, reading its JSON with serde_json, and the file system.
- `tests/` runs the library on concrete values.
