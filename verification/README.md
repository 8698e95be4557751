# kloop_core

The core of a coding-agent loop, verified with Verus: what a conversation holds,
what each request carries of it, and what a turn decides.

## Layout

- `src/` is the library. Every function has a contract over mathematical models of
  its data; laws that relate several functions are public proof functions whose
  names begin with `law_`.
- `app/` is ordinary Rust around it: files, sessions, the turn loop, JSON.
- `tests/` runs the library on concrete values.

The library performs no input or output. A write takes the replies it has got so
far and either asks for the next thing to be done outside, changing nothing, or
takes effect as a whole (`history`, `offload`). A turn takes one event and gives
back the effects to perform and the next demand (`turn`).

| Modules | What they hold |
| --- | --- |
| `history`, `offload`, `session_file`, `inbox` | the conversation, spilled results, the session file, what waits for a step boundary |
| `request_view`, `routes` | what a request carries after a route change |
| `turn`, `breaker`, `agent` | the decisions of a turn, when the automatic compaction pauses, and what a response may hold |
| `request`, `tokens`, `usage` | injected context, tool arrays, estimates, the ledger |
| `file_state`, `paths`, `restore` | what is known of files, and reading them again |
| `anchors`, `interaction`, `image` | the user's own words, questions, pictures |
| `execution_provenance`, `config` | receipts of executions, and what a child agent shares |
| `commands` | slash commands |

## What is trusted

Calls into `serde_json`, `sha2`, `base64`, `image` and two functions of the standard
library stand behind small wrappers, each with a doc comment that says what is
claimed of it: `json`, `digest`, `image`, `interaction` and `text`.
