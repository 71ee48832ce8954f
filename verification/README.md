# docli

The client of a document service: it mirrors workspaces, read only, into a project directory and
connects the agents that work there to the same documents.

- `src/` decides. It holds the rules of the mirror, the project file, the agents' configuration,
  the sign-in and the commands, as verified functions from plain values to plain values. Nothing in
  it performs I/O.
- `app/` acts. It reads and writes files, talks to the server and prints, and asks `src/` what to
  do.
- `tests/` runs the library on concrete values.

A function that needs something from the outside in the middle of its work is a step function: it
returns the action to perform, and is called again with what came of it. `page::PageRun`,
`creds::OpenStep`, `creds::Renewal`, `http::SyncCall` and `guard::LinkWalk` work this way.

What the library takes on trust stands in the functions marked `#[verifier::external_body]`. Each
wraps one function of another crate or of std, and its comment says what is claimed of it. A TOML
document is edited step by step: the wrappers say what each step does to its items, and the
sequence of steps is verified.
