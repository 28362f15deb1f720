# blinkterm

A web browser in a terminal pane: a headless Chromium is driven over the DevTools
pipe, its pictures go to the terminal with the Kitty graphics protocol, and keys
and the mouse go back to the page.

- `src/` is the library. It decides: what a key means, what is said to a page,
  what is written to the terminal, what is kept on disk. Its functions are
  verified with Verus against their contracts, and the laws that hold across
  functions are proof functions named `law_…` beside what they speak of. What is
  believed rather than proved is what a few functions of the standard library
  do: the two marked `assume_specification` and the wrappers marked
  `external_body`, each with a comment that says what is claimed.
- `app/` is the program around it: the terminal, the engine's process, the pipe,
  the files and the loop. It does what the library says is to be done.
- `tests/` are the library's tests.

The parts of the library, from the ground up:

- text and values: `strings`, `text`, `bytes`, `base64`, `big`, `double`, `json`,
  `json_parse`, `json_text`, `json_wire`, `paths`;
- the terminal: `terminal`, `input`, `line`, `screen`, `graphics`, `fit`, `size`,
  `clipboard`, `doctor`;
- the engine: `engine`, `cdp`, `route`, `motion`, `light`, `appearance`,
  `fullscreen`;
- a page: `load`, `tabs`, `dialog`, `upload`, `find`, `hints`, `address`;
- what is kept: `history`, `bookmarks`, `download`;
- the keys and the row: `keys`, `bindings`, `mouse`, `bar`, `row`;
- the browser as a whole: `app`, `seek`, `errands`, `events`, `drive`.
