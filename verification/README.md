# artesian

Tools around agents that remember: a memory server, its registration with coding assistants and
editors, the lanes and receipts of agent teams, and the rules by which memories are let into a
context.

`src/` is a library in Verus. Every function states what it returns, and Verus proves it:

- `text`, `text_map`, `sorting`, `paths`, `json`, `toml_doc`: texts, maps, paths and documents
- `processes`, `update`, `update_text`: running servers, what is installed, and restarts
- `assistant`, `registration`, `handshake`, `session`, `session_laws`, `doctor`, `doctor_run`: the
  registrations of the memory server and the checks on them
- `lane`, `receipts`, `agent`: lanes of a team, receipts of its children, agents that are programs
- `gate`, `tier`, `position`, `headroom`, `scores`, `bench`, `gauge_args`: what is let into a
  context, who judges it, and how well that went
- `memory`, `retrieval`, `qdrant`, `compat`, `savings`, `mcp_log`, `clock`, `setup`: memories, their
  ranking and identity, and the files around them

What holds of several functions together stands in proof functions whose names begin with `law_`.

`app/` is the command line: it reads files, runs programs and talks to servers, and asks the library
what to make of it. Numbers in floating point are worked out there.

`tests/` runs the library on concrete values.
