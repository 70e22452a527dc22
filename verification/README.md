# forgetmenot

Trigger-based, scoped memory for coding agents, with its decisions proved
correct by Verus.

Memories live in scopes. A session receives only the memories of the scopes
active in it; regular-expression triggers turn scopes on from what flows
through the session, a scope's `forget` rule turns it off again after the
context has grown far enough, and at every hook event the context is sent what
it is owed: memories never shown, changed or stale, and notices for memories
withdrawn.

## Layout

`src/` is the verified library:

| Module | What it decides |
|---|---|
| `catalog` | The store as the decisions read it: memories, scopes, settings |
| `context` | A context's record: keys, what it was shown, what it is owed, recording a delivery |
| `engine` | One hook event from start to end: forgetting, triggers, implication closure, deliveries, the verdict on a tool call |
| `events` | Reading a hook event into the texts its triggers are matched against |
| `patterns` | Trigger patterns and the trigger test |
| `render` | The text an event is answered with, with every character accounted for |
| `registry` | Every context the server knows, its snapshot, the contexts page and the scope index |
| `prompt` | The text a context would be given, read from a snapshot without recording anything |
| `sessions` | The session tools: turning scopes on and off, inheriting, a writer's own writes |
| `operations`, `params`, `routes` | What the API and the MCP tools read and refuse |
| `writes` | The decisions of a write: the version a scope write replaces, a rename's commit, each turn of a commit |
| `edits` | Replacing a snippet of a memory's body |
| `report` | The statistics report as text tables |
| `hook`, `transcript` | The hook client's request and what it reads from a transcript |
| `naming`, `scopes`, `text` | Names, scope ids and text utilities |

`app/` is the hook client program: it reads the event from standard input and
the transcript from disk, and posts the request the library builds.

`tests/` runs the library on concrete cases.
