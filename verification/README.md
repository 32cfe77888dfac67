# bevy_modal

A modal/overlay stack for `bevy_ui`: stacked overlays that never leak input,
transient toasts, a confirm dialog, keyboard focus navigation and themed leaf
widgets.

- `src/` is the verified library. It holds every decision the overlay layer
  makes, over plain values (entities are held by their bits):
  - `stack` — the open overlays in push order, unique opens, Escape's target,
    the removal-driven prune and the close messages it reports, z-indices;
  - `events` — close reasons and what a close request does;
  - `gate` — input capture and the gameplay run condition;
  - `focus` — the active scope, focus repair, tab/arrow navigation with
    wrap-around, hover focus, activation and slider keys;
  - `toast` — severity accents and the toast cap;
  - `builder`, `confirm` — the overlay and confirm-dialog specs and button looks;
  - `widgets` — the toggle flip shared by pointer and keyboard.
- `app/` is the `bevy` side: resources, components, systems and spawning,
  each asking the library for its decision; easing, insets and slider values
  are `f32` and stay there.
- `tests/` exercise the library on concrete values.
