# code_execution

An extension that runs scripts. A script imports the tools of other extensions from modules, one
for each server, and calls them as functions, so that many calls of tools take one round trip. A
second tool of the extension tells what is in those modules.

`src/` is the library, verified with Verus. It makes the decisions of the extension:

- `text`: trimming, lines, splitting, searching, joining and ordering of text
- `statements`: finding the last statement of a script, with what holds of it in `statement_laws`
- `wrap`: making the value of a script's last statement its result, with what holds of every
  wrapped script in `wrap_laws`
- `tool_info`: what scripts are to know of a tool
- `modules`: the modules that scripts import tools from
- `script`: what to ask of the script engine next, and what its answers amount to
- `tool_call`: calls of tools, from the script to the host and back
- `read_module`: telling which tools there are, and how to call them
- `content`: what calls are answered with
- `client`: the extension as its host sees it
- `prompts`: the texts that tell a model how to use the extension
- `json`: JSON values, as `serde_json` holds them

The library takes on trust only what `json` states of `serde_json`; all else in it is proved.

`app/` plugs the library into its host, the script engine and the channels between them.
`tests/` runs the library, with the script engine where a test is about scripts.
