# prelude_player

The playback core of a Standard MIDI File player, written in Verus.

`src/` is the verified library:

- `smf` — a MIDI file as plain values, read through `midly` (the trusted
  boundary: what the library believes of `midly` is stated there);
- `flatten` — absolute ticks, tempo and time-signature lists, and the
  time-ordered event stream;
- `timing` — tick-to-time conversion over a tempo map (whole nanoseconds);
- `order` — stable ordering by key (merge sort over positions);
- `measures` — the bar map;
- `notes` — Note On / Note Off pairing into note intervals;
- `engine` — load, play, pause, stop, seek and the per-frame tick;
- `event` — MIDI events and their wire encoding;
- `page`, `ui` — the decisions of the page-turn view and the window.

`app/` is the GTK / libadwaita window and the `midir` output port: I/O,
widgets, animation and the floating-point drawing maths. It reads the
compiled UI definitions (`window.ui`, `port_settings.ui`) and `style.css`
from `$PRELUDE_UI_DIR` (default `ui/`).
