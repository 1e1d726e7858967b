# hintkit

A lightweight, local terminal autocomplete: inline suggestions for the command
line, matched against a database of completion specs. The logic is a library
verified with Verus; the program around it wires it to a terminal.

## Layout

- `src/` is the library. Every function states what it returns over a model of
  its data, and the laws that hold across functions are public proof functions
  whose names begin with `law_`.
  - `text`, `sorting`: text primitives and stable sorting.
  - `tokens`, `context`, `matcher`: a line's words, where in a command's spec the
    cursor stands, and what to suggest there.
  - `schema`, `bundle`: completion specs and the database of bundled ones.
  - `generators`: candidates from the working directory.
  - `engine`, `debouncer`: when to compute suggestions, and which.
  - `line_buffer`, `input`: the model of the line being typed, and paste
    detection.
  - `output`, `state`: what the shell reports about itself.
  - `shell_integration`, `cli`, `pty`: scripts, command line and start-up.
- `tests/` runs the library on concrete values.
- `app/` is the program: threads, terminal, files, subprocesses and JSON.

## What is trusted

Outside functions are called from the library through declarations
whose contracts are not proved: `std::str::from_utf8`, the lookup and listing of
an `include_dir` directory, and the member keys of a `serde_json` value.
