# lino_transformer

A rule-based structural transformer for Links Notation (LiNo), written in
Verus. Programs and data are both LiNo documents; a program is a list of
`(rule: ...)` links, each with a pattern, a replacement template, and optional
name, priority, guard, application cap and terminal flag. Runs follow the
ordered-first strategy: rules are tried by priority, then declaration order,
the first pre-order match is rewritten, and selection restarts.

## Layout

- `src/` — the verified library.
  - `model.rs`, `matcher.rs`, `replacer.rs`: nodes, structural matching with
    variable binding, template instantiation and path replacement.
  - `compiler.rs`, `diagnostics.rs`: LiNo program text to a `Program`, with
    every problem reported as a diagnostic.
  - `engine.rs`, `trace.rs`: stepping and running with limits, cycle
    detection, cancellation and typed stop reasons.
  - `lino.rs`: the boundary with the `links_notation` crate (reading and
    writing LiNo text); `format.rs`: canonical output.
  - `cli.rs`: the decisions of the command-line front end.
  - `laws.rs`, `run_laws.rs`: properties that relate the parts, proved.
  - `text.rs`: decimal text, integer parsing and string ordering.
- `app/main.rs` — the command-line program: file and standard-input reading,
  printing, exit codes.
- `tests/` — scenario tests, including the example programs.
