# phasecraft

A deterministic rhythmic MIDI sequencer whose logic is written in Verus and proved against
its contracts: describe a rhythmic system in TOML, loop it, and inspect every decision.

## Layout

- `src/` — the verified library.
  - `music/` — step notation (`notation/`: grammar, parser, exact rendering of a cycle, cost
    bounds, what every event of a cycle satisfies and how many there can be, and why a
    pattern repeats after its period), Euclidean and Boolean rhythm
    expressions (`rhythm.rs`), structural periods (`cycle.rs`), pins and draw addresses
    (`pins.rs`, `resolve.rs`, `resolve/pinning.rs`), one cell's trigger, accent, draw
    identities and timing (`resolve/cell.rs`), one Part's voice and its MIDI messages
    (`resolve/voice.rs`), retained swaps (`process.rs`), return-group routing
    (`router.rs`, `routing.rs`), exact ratios and note values.
  - `authoring/` — a TOML document model (`doc.rs`), library, kit and alias expansion
    (`expansion.rs`), phrase inheritance and arrangement sections (`phrases.rs`), and the
    order in which kit gaps are listed (`gap_order.rs`).
  - `playback.rs` — the dispatch rules of the MIDI edge: which events reach the output, and
    what cleanup sends.
  - `playback/` — the transport planner, reload decisions, the controller's wire decoding
    and the control-surface plan, clock and sync rules, the kit page's labels, and the
    loopback port pair on Windows.
  - `player.rs`, `control.rs`, `update.rs`, `desktop.rs` — what the player shows of recent
    steps, live edits of Euclidean rhythms, the checks an update passes, and the desktop
    shell's own rules.
  - `text.rs` — decimal and quoted text, and the two trusted items on std's `Debug`.
- `tests/` — tests of the library, run against the compiled crate.
- `app/` — the command line: reading files, MIDI ports, threads and the network. It holds
  no rule of its own; it hands plain values to the library and acts on what comes back.

Every call into an outside crate (`toml`, `sha2`) stands behind a small trusted item whose
doc comment says what its contract claims; everything else in `src/` is proved.
