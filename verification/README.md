# solid_gpui

The verified core of a native GUI host that renders a Solid application with
GPUI: the rules, state machines and bounded checks that decide what the host
accepts from the renderer and what it does next. Everything in `src/` is
written in Verus and proved against its contracts; `app/` holds the I/O and
serde edges (launch options, environment, crash reports, JSON copies of the
library's types).

Modules of `src/`:

- `text` — characters, UTF-8 byte lengths, white space, decimal parsing.
- `lifecycle` — activation delivery to the renderer: queued until ready,
  replayed across reloads, retired only by acknowledgement.
- `host` — launch arguments, log levels, stack budget, command admission,
  surface id allocation.
- `surfaces` — close policies and confirmations, payload routing, window
  kinds, keybinding checks.
- `popups` — the registry of system popovers: ownership chains, the order in
  which a popup and its descendants close, which popups an activation
  dismisses.
- `pump` — the per-turn budget of the commit pump.
- `native` — event endpoints, slots, the JSON number guard, generated
  TypeScript names.
- `type_validation` — rejects contract declarations with unbounded types.
- `motion` — the reduced-motion preference and its overrides.
- `exports` — the combined contract of several native modules.
- `components`, `settings`, `tree`, `rows`, `questionnaire` — property types
  and checks of the native components, and the bookkeeping they keep
  across updates.
- `keys` — a sorted set of keys with a verified lexicographic order.
- `icons` — application icon names, the SVG safety check and the catalog.

Five small wrappers are trusted rather than proved: their bodies call std
or `roxmltree`, and Verus believes their contracts. They are
`host::debug_quote` (`format!("{:?}")` of a string), `type_validation::is_alphanumeric`
(`char::is_alphanumeric`), `native::uppercase` (`char::to_uppercase`),
`icons::parse_outline` (`roxmltree::Document::parse`) and `icons::utf8_text`
(`std::str::from_utf8`). Each one's doc comment says what its contract
claims.

`tests/` runs the library on concrete values.
