# bevy_mod_picking, verified

The decision logic of a picking library for the Bevy engine, written in Verus and proved against
its contracts: pointer inputs, hover focus, pointer events (over, out, down, up, click, drag and
drag-and-drop), interaction states, multiselect, highlighting, event bubbling, and the decisions of
the picking backends.

- `src/` is the verified library. It works on plain values: entities by their 64-bit ids, floats
  by their bit patterns. Hit tests that compute on floats (ray casts, rectangle and pixel tests)
  are inputs to the backends' decisions.
- `app/` holds the plugins for pointers, mouse and touch input, focus, pointer events and
  selection: systems that read the world and its input events, call the library, and write its
  results back as components, resources and events.
- `tests/` runs the library on concrete scenarios.
