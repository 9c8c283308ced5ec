# display_server

A display server: clients connect over a socket, draw into shared memory and
ask for windows; the server composes what they draw into one picture, hands out
pointer and keyboard input, keeps the windows in order, and lets a privileged
shell list, move and restore them.

* `src/` is the library. Everything in it is verified with Verus. Each type has
  a model, each operation is a function on models, and the code is proved to do
  what that function says. The laws (`law_…`) say what holds of all of it: the
  windows stay in order, what connections hold stays within its limits, a
  complete presentation shows the picture, and so on.
* `tests/` runs the library.
* `app/` is the program around it: it makes the system calls, and leaves every
  decision to the library. It is built for a WASI system that has a frame
  buffer device, input devices and sockets, beside the system's crates `abi`
  and `preferences` and the keymap images under `assets/keymaps/`.

One thing is taken on trust: that `String::from_utf8` turns bytes into text as
its documentation says (`src/text.rs`).
