# Snapple

Snapple records the running game from the system tray and saves the last
minute of it as a clip when a key is pressed.

- `src/` is the library: everything that Snapple decides and computes, written
  in Verus. Each function states what it returns, and the laws that span
  several functions are proof functions whose names begin with `law_`.
- `tests/` runs the library on concrete values.
- `app/` is the program for Windows: it captures frames and sound, runs ffmpeg,
  watches processes and windows, and asks the library what to do.

| Module       | What it holds                                                  |
|--------------|----------------------------------------------------------------|
| `audio`      | stereo, resampling, mixing, and pacing sound by the video      |
| `buffer`     | the order and age of segments, and the plan of a clip          |
| `capture`    | health, content size, frame pacing, window and monitor choice  |
| `config`     | settings, their defaults, and the hotkey                       |
| `downsample` | area-average scaling of a frame                                |
| `encoder`    | encoder profiles, the search for one, and ffmpeg's arguments   |
| `games`      | installed games, the running one, and what changed             |
| `icon`       | the tray icon                                                  |
| `recorder`   | what to do when a game, the hotkey or a session calls for it   |
| `scale`      | the size of the encoded video                                  |
| `sound`      | the shutter sound                                              |
| `text`       | strings as sequences of characters                             |

What is taken on trust is small and marked: a few string functions of the
standard library in `text`, the parallel loop of rayon in `downsample`, and the
formatting of a time by chrono in `buffer`.

Settings are read from `snapple.toml` next to the executable; all of them are
optional. ffmpeg is looked for next to the executable, then on the `PATH`.
