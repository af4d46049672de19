# quinn_daemon

The logic of the Quinn desktop assistant as a verified Verus library, with the
program around it.

- `src/` is the library, checked by Verus: desktop-file fields, the application
  catalog and its name matching, the application classifier (kinds and
  capabilities), splitting an utterance into commands, reminders, the decisions
  of the assistant's tools, the replies of the D-Bus service, voice clips and
  the player choice, the greeting, and the updater's asset URLs and checksum.
  Each public function states its result in its `ensures`; the `lemma_*` proof
  functions state what holds across calls.
- `app/` is the program: D-Bus (zbus), the desktop-file watcher (notify), the
  model (needle-infer), audio, the GTK window and the updater's downloads. It
  reads and writes, and hands plain values to the library.
- `tests/` runs the library on concrete inputs.
