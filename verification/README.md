# hexencer

A MIDI sequencer: projects of tracks, tracks of clips, clips of note events,
a sequencer that walks the ticks and an arrangement window to edit it all.

- `src/` is the library, written in Verus: the data model (ticks, identifiers,
  MIDI messages, clips, tracks, projects), the rules for placing a clip on a
  track (overlapped clips are trimmed or split around it), the sequencer's
  transport and event selection, and the decisions of the window's widgets.
  Every function carries a contract that Verus proves; `clip_laws.rs` and
  `project_laws.rs` state what holds across operations.
- `tests/` exercises the library on concrete values.
- `app/` is the program around it: the iced window and its widgets, the tokio
  sequencer task and the midir output.
