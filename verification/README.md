# quiet

A notification daemon and notification center for Wayland (Sway, i3), speaking the
`org.freedesktop.Notifications` D-Bus interface, with its decision logic verified by
Verus.

## Layout

- `src/` — the verified library.
  - `text` — characters, trimming, lines, decimal numbers.
  - `data` — notifications and their markup-free text (`notification`), the grouping
    tree (`cluster`), urgency and other hints (`urgency`), what survives a restart
    (`persistence`).
  - `config` — rules that rename, regroup, silence or expire notifications.
  - `engine` — the daemon's state machine: each request (`notify`,
    `close_notification`, `expire`, `toggle_ui`, `handle_ui_event`, …) maps the state to
    the next one and to a list of effects (signals to emit, timers, what the
    notification center shows). Its laws: read-after-write, the history limit, the
    index and the tree agreeing across every request, eviction order, what is saved.
  - `icon` — decoding `image-data` hints, icon file candidates, desktop entries, the
    icon memo.
  - `ipc::sway` — i3-ipc framing and the choice of window to focus.
  - `ui` — navigation and key handling of the notification center, card texts, colours.
- `app/` — the program around it: D-Bus service, the actor loop that performs the
  engine's effects, files, the Wayland overlay and drawing.
- `tests/` — tests of the library.

Calls into `std`, `regex` and `tiny-skia` whose results the library relies on are
trusted wrappers (`#[verifier::external_body]`), each documented where it is declared.
