# cxporter

Decision logic of a command line client for MCP servers that are signed in to through
Codex, verified with Verus, and the program around it.

## Layout

- `src/` is the verified library. Nothing in it reads, writes, waits or connects.
  - `naming`: the names under which tools are exported.
  - `catalog`: the tools that servers report, and which tool a name stands for.
  - `arguments`: where arguments come from, and the check before a call.
  - `retry`: what follows a failed attempt.
  - `batch`: batches of calls, one result for each line.
  - `listing`, `apps`: listings of servers, tools and apps.
  - `serve`: the tools that the program offers as a server of its own.
  - `servers`, `plugins`: which servers there are to connect to.
  - `auth`: what may be told of a sign-in, and the headers that carry it.
  - `config`: defaults.
  - `failure`: the refusals and their messages.
  - `json`, `table`, `sort`, `text`: the values that the rest is made of.
- `tests/` runs the library on concrete values.
- `app/` is the program: the command line, files, standard input and output, and the
  connections that Codex owns.

## What is proved

Each function states its result exactly, over plain sequences of characters and numbers.
Functions named `law_*` state what holds across functions, among others:

- Exported names are distinct unless the base names of two tools clash, which they do not
  where all tools have a connector, or none has one.
- Every exported tool leads back to the tool that it stands for.
- A request for an unknown server or tool, under an ambiguous name, or with arguments that
  lack properties or are no object is not attempted again, and no operation is attempted
  more often than asked for. A tool without an input schema is the exception: the refusal
  of a call to it counts as an error that may pass.
- A batch has one result for each request, in the order of the lines, whatever order the
  calls end in, and fails exactly if one of its lines does.
- Calls run side by side only if every tool advertises it, or if it is forced.
- A tool is listed exactly if it passes the filters, which ignore case.
- A server that the user defines shadows one of that name from a plugin.
- An inspection of a sign-in reveals no secret.

Taken on trust are `serde_json`'s parser, its values, the clone of its numbers and the
message of its errors, and of the standard library `String::push` and `str::to_lowercase`;
each such place says what it claims.
