# keymap_suite

Key bindings for terminal applications, verified with Verus: a backend-neutral key
vocabulary with a chord grammar, keymaps and layered resolution, multi-key sequences,
TOML configuration, decoding of raw terminal bytes, and the checks around them.

## Layout

- `src/` is the library. Every function carries a contract over mathematical models: a
  keymap is a map from presses to actions, a sequence table a prefix-free map from
  sequences of presses, a text a sequence of characters. Proof functions named `law_*`
  state what holds of several functions together, such as that what was written is
  read back, that no key of a stream is lost, and that an allowed rebind leaves every
  reserved key as it was.
- `tests/` runs the library.
- `app/` is the terminal side of three programs over it: a showcase, an inspector of
  key events, and a recorder of what a terminal sends.

## What is trusted

The calls into `toml` (parsing, building values, writing), one call into `time`
(formatting a timestamp), and the formatting of a text and of a character with `{:?}`
stand behind functions whose contracts are believed, not proved. Each says so in its
documentation.

## Reading a configuration

```toml
[keys]
"ctrl+q" = "quit"
"ctrl+s" = "save"

[layers.panel]
"ctrl+s" = "split_pane"   # overrides the global binding where the panel is active
"ctrl+w" = false          # unbinds the chord when merged over defaults

[[sequences]]
keys = ["ctrl+x", "ctrl+s"]
action = "save"
```

`from_toml_str` turns such a text into named layers, a sequence table and a list of
warnings. `resolve_layered` asks a chain of layers for the action of a press,
`PendingSequence` and `TimedPending` buffer the keys of a sequence, `merge` lays a
user's configuration over defaults, and `to_toml_layered_with_unbinds` writes it back.
