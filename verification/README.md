# pwa

The logic of an AUR helper with an optional ai layer, written in Rust and proved
with Verus.

`src/` is the library. Every function in it has a contract, and Verus proves the
function against it:

- `chat`, `stream`, `sse`, `json`: the messages of a conversation, the request
  for a completion and the stream its answer arrives in.
- `reply`: the JSON in a model's reply and what it says about packages.
- `tools`, `web`, `html`: the tools a model may call, when the user confirms them
  and what they answer.
- `search`, `packages`, `session`, `menu`, `sort`: searching, listing and picking
  packages, by number or in the user's own words.
- `targets`, `deps`: which packages belong to the repositories and which nothing
  needs.
- `editor`, `prompt`, `live_view`, `markdown`, `width`, `style`, `text`: the
  terminal.

Calls into other crates stand behind small trusted functions, each of which says
what is believed of the call. Properties that span several functions are public
proof functions whose names start with `law_`.

`app/` is the program around the library: the terminal, the network, the package
databases and the user's language. `tests/` runs the library.
