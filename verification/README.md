# musicstudio

The backend logic of MusicStudio, a desktop music and video studio whose AI
features run as local Python services ("sidecars"), as a library verified
with Verus.

- `src/` is the verified library:
  - `sidecar` — the sidecars (names, ports, directories), the table of
    launched sidecar processes, and the health-check state machine;
  - `models` — the registry of AI models and what of them is on disk;
  - `recording` — screen recording with `ffmpeg`: one recording at a time,
    its command line, and the display resolution read from `xrandr`;
  - `mlt` — which tracks and clips of a project are rendered, in which
    order, and the MLT XML document that `melt` renders;
  - `progress` — progress values read from `melt`'s output;
  - `tools` — the diagnostics of the external programs;
  - `media` — command lines and file names of the media jobs;
  - `paths`, `text` — path joining and file stems, decimal and hexadecimal
    rendering, trimming, lines and integer parsing.
- `app/` is the Tauri application around it: commands, processes, files,
  events, JSON and the floating-point timeline arithmetic.
- `tests/` exercises the library on concrete values.
