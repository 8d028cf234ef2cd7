# this_cmd

A picker for templated shell commands. Commands live in command files, one
per line, the name and the command separated with `|` (written `name | command`); a command may hold placeholders such as `{{name}}`,
`{{name?}}` or `{{name:a,b}}`, whose values are asked for before it runs.

The library under `src/` is verified with Verus:

- `text`: white space, trimming, `str::replace`-style replacement.
- `placeholder`: the placeholder grammar and `extract_placeholders`.
- `store`: command files — the line of a command, what adding one appends,
  and reading a file back; `law_add_then_read` proves that a command added to
  a file reads back after the commands already there.
- `session`: the picker's decision on each key (`Session::step`) and its laws.
- `screen`: the text of the list rows and of the prompt box, and the box's place.

`app/` holds the program around it: argument parsing, file access, the
terminal loop and drawing.
